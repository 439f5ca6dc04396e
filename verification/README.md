# opman

Package queries for Arch Linux, verified with Verus.

The library (`src/`) works on snapshots of the pacman databases (`PackageDb`: a name and its
packages) and proves its contracts over their mathematical views:

- `database`: lookup by name in one database and across databases in order, the `Database`
  trait with its two implementations (`PackageDb`, `Aur`);
- `ops`: `Opman` — lookup with the AUR as the last resort, resolution of names to a set of
  packages, their dependencies, and summaries;
- `package_ops`: `PackageOps` — depth-first dependency closure and detailed figures;
- `closure`: the specification of the closure and its laws (closed under resolvable
  dependencies, each added package found under its name and added once, each reachable);
- `package`, `error`, `display`: the data types, their texts and the text of a package line.

`app/` is the command-line program: it opens the databases with libalpm, turns them into
snapshots, parses the command line and prints.
