use vstd::prelude::*;
use vstd::string::StringExecFns;

use crate::error::{error_of, Error, ErrorKind};
use crate::package::{dependencies_view, packages_view, Dependency, DependencyView, Package, PackageView};

verus! {

/// The first package of `pkgs` that has the given name, if any.
pub open spec fn find_named(pkgs: Seq<PackageView>, name: Seq<char>) -> Option<PackageView>
    decreases pkgs.len(),
{
    if pkgs.len() == 0 {
        None
    } else if pkgs[0].name == name {
        Some(pkgs[0])
    } else {
        find_named(pkgs.drop_first(), name)
    }
}

/// What a found package is: one of `pkgs`, with the name that was asked for.
pub proof fn lemma_find_named_found(pkgs: Seq<PackageView>, name: Seq<char>)
    ensures
        find_named(pkgs, name) matches Some(p) ==> p.name == name && pkgs.contains(p),
        find_named(pkgs, name) is None ==> forall|i: int| 0 <= i < pkgs.len() ==> pkgs[i].name != name,
    decreases pkgs.len(),
{
    if pkgs.len() > 0 {
        lemma_find_named_found(pkgs.drop_first(), name);
        if pkgs[0].name != name {
            if let Some(p) = find_named(pkgs, name) {
                let j = choose|j: int| 0 <= j < pkgs.drop_first().len() && pkgs.drop_first()[j] == p;
                assert(pkgs[j + 1] == p);
            } else {
                assert forall|i: int| 0 <= i < pkgs.len() implies pkgs[i].name != name by {
                    if i > 0 {
                        assert(pkgs[i] == pkgs.drop_first()[i - 1]);
                    }
                }
            }
        }
    }
}

/// Searching a concatenation searches the first part, then the second.
pub proof fn lemma_find_named_concat(a: Seq<PackageView>, b: Seq<PackageView>, name: Seq<char>)
    ensures
        find_named(a + b, name) == (match find_named(a, name) {
            Some(p) => Some(p),
            None => find_named(b, name),
        }),
    decreases a.len(),
{
    if a.len() == 0 {
        assert(a + b =~= b);
    } else {
        assert((a + b).drop_first() =~= a.drop_first() + b);
        lemma_find_named_concat(a.drop_first(), b, name);
    }
}

/// The index of the first package of `pkgs` that has the given name, if any.
pub fn position_named(pkgs: &Vec<Package>, name: &String) -> (r: Option<usize>)
    ensures
        match r {
            Some(i) => {
                &&& i < pkgs.len()
                &&& pkgs@[i as int].name@ == name@
                &&& forall|j: int| 0 <= j < i ==> (#[trigger] pkgs@[j]).name@ != name@
                &&& find_named(packages_view(pkgs@), name@) == Some(pkgs@[i as int]@)
            },
            None => find_named(packages_view(pkgs@), name@) is None,
        },
{
    let ghost all = packages_view(pkgs@);
    let mut i: usize = 0;
    assert(all.skip(0) =~= all);
    while i < pkgs.len()
        invariant
            i <= pkgs.len(),
            all == packages_view(pkgs@),
            find_named(all, name@) == find_named(all.skip(i as int), name@),
            forall|j: int| 0 <= j < i ==> (#[trigger] pkgs@[j]).name@ != name@,
        decreases pkgs.len() - i,
    {
        assert(all.skip(i as int)[0] == pkgs@[i as int]@);
        if pkgs[i].name == *name {
            return Some(i);
        }
        assert(all.skip(i as int).drop_first() =~= all.skip(i + 1));
        i = i + 1;
    }
    assert(all.skip(i as int).len() == 0);
    None
}

/// What a lookup by name answers: the package found, or an error saying that none was.
pub open spec fn lookup_answer(found: Option<PackageView>, r: Result<Package, Error>) -> bool {
    match found {
        Some(p) => r matches Ok(q) && q@ == p,
        None => r matches Err(e) && e.kind == ErrorKind::PackageNotFound && e.parent is None,
    }
}

/// The dependencies that a database lists for the given packages, looked up by name, in order.
pub open spec fn dependencies_of(db: Seq<PackageView>, pkgs: Seq<PackageView>) -> Seq<DependencyView>
    decreases pkgs.len(),
{
    if pkgs.len() == 0 {
        Seq::empty()
    } else {
        dependencies_of(db, pkgs.drop_last()) + match find_named(db, pkgs.last().name) {
            Some(p) => p.depends,
            None => Seq::empty(),
        }
    }
}

/// Adding a package to the list adds, at the end, the dependencies of the package that the
/// database has under that name, whatever the rest of the added package holds (its version too).
pub proof fn lemma_dependencies_of_push(db: Seq<PackageView>, pkgs: Seq<PackageView>, p: PackageView)
    ensures
        dependencies_of(db, pkgs.push(p)) == dependencies_of(db, pkgs) + match find_named(db, p.name) {
            Some(q) => q.depends,
            None => Seq::<DependencyView>::empty(),
        },
{
    assert(pkgs.push(p).drop_last() =~= pkgs);
    assert(pkgs.push(p).last() == p);
}

/// The law of names: the dependencies that a database gives for a list of packages depend only
/// on the names of the packages, not on any other of their fields, such as their versions.
pub proof fn lemma_dependencies_of_names_only(
    db: Seq<PackageView>,
    pkgs1: Seq<PackageView>,
    pkgs2: Seq<PackageView>,
)
    requires
        pkgs1.len() == pkgs2.len(),
        forall|i: int| 0 <= i < pkgs1.len() ==> (#[trigger] pkgs1[i]).name == pkgs2[i].name,
    ensures
        dependencies_of(db, pkgs1) == dependencies_of(db, pkgs2),
    decreases pkgs1.len(),
{
    if pkgs1.len() > 0 {
        let t1 = pkgs1.drop_last();
        let t2 = pkgs2.drop_last();
        assert forall|i: int| 0 <= i < t1.len() implies (#[trigger] t1[i]).name == t2[i].name by {
            assert(t1[i] == pkgs1[i]);
            assert(t2[i] == pkgs2[i]);
        }
        lemma_dependencies_of_names_only(db, t1, t2);
        assert(pkgs1.last().name == pkgs2.last().name);
    }
}

/// The law of membership: a dependency is among those a database gives for a list of packages
/// exactly when, for one of the packages, the database has a package of that name (the first
/// one) that lists the dependency.
pub proof fn lemma_dependencies_of_members(db: Seq<PackageView>, pkgs: Seq<PackageView>)
    ensures
        forall|d: DependencyView|
            dependencies_of(db, pkgs).contains(d) <==> exists|k: int|
                0 <= k < pkgs.len() && #[trigger] find_named(db, pkgs[k].name) is Some
                    && find_named(db, pkgs[k].name).unwrap().depends.contains(d),
    decreases pkgs.len(),
{
    if pkgs.len() > 0 {
        let t = pkgs.drop_last();
        lemma_dependencies_of_members(db, t);
        let a = dependencies_of(db, t);
        let b = match find_named(db, pkgs.last().name) {
            Some(q) => q.depends,
            None => Seq::<DependencyView>::empty(),
        };
        assert(dependencies_of(db, pkgs) == a + b);
        assert forall|d: DependencyView|
            dependencies_of(db, pkgs).contains(d) <==> exists|k: int|
                0 <= k < pkgs.len() && #[trigger] find_named(db, pkgs[k].name) is Some
                    && find_named(db, pkgs[k].name).unwrap().depends.contains(d) by {
            if (a + b).contains(d) {
                let x = choose|x: int| 0 <= x < (a + b).len() && (a + b)[x] == d;
                if x < a.len() {
                    assert(a.contains(d));
                    let k = choose|k: int|
                        0 <= k < t.len() && #[trigger] find_named(db, t[k].name) is Some
                            && find_named(db, t[k].name).unwrap().depends.contains(d);
                    assert(pkgs[k] == t[k]);
                } else {
                    assert(b[x - a.len()] == d);
                    assert(b.contains(d));
                    assert(pkgs[pkgs.len() - 1] == pkgs.last());
                }
            }
            if exists|k: int|
                0 <= k < pkgs.len() && #[trigger] find_named(db, pkgs[k].name) is Some
                    && find_named(db, pkgs[k].name).unwrap().depends.contains(d) {
                let k = choose|k: int|
                    0 <= k < pkgs.len() && #[trigger] find_named(db, pkgs[k].name) is Some
                        && find_named(db, pkgs[k].name).unwrap().depends.contains(d);
                if k < pkgs.len() - 1 {
                    assert(t[k] == pkgs[k]);
                    assert(a.contains(d));
                    let x = choose|x: int| 0 <= x < a.len() && a[x] == d;
                    assert((a + b)[x] == d);
                } else {
                    let q = find_named(db, pkgs.last().name).unwrap();
                    let y = choose|y: int| 0 <= y < q.depends.len() && q.depends[y] == d;
                    assert((a + b)[a.len() + y] == d);
                }
            }
        }
    }
}

/// The elements of `s`, each once, in the order in which they first occur.
pub open spec fn distinct<A>(s: Seq<A>) -> Seq<A>
    decreases s.len(),
{
    if s.len() == 0 {
        Seq::empty()
    } else {
        let d = distinct(s.drop_last());
        if d.contains(s.last()) {
            d
        } else {
            d.push(s.last())
        }
    }
}

/// What `distinct` keeps: no element twice, and exactly the elements of the input.
pub proof fn lemma_distinct<A>(s: Seq<A>)
    ensures
        forall|i: int, j: int|
            0 <= i < j < distinct(s).len() ==> distinct(s)[i] != distinct(s)[j],
        forall|x: A| distinct(s).contains(x) <==> s.contains(x),
    decreases s.len(),
{
    if s.len() > 0 {
        lemma_distinct(s.drop_last());
        let d = distinct(s.drop_last());
        let t = s.drop_last();
        assert forall|x: A| s.contains(x) <==> (t.contains(x) || x == s.last()) by {
            if s.contains(x) {
                let k = choose|k: int| 0 <= k < s.len() && s[k] == x;
                if k < s.len() - 1 {
                    assert(t[k] == x);
                }
            }
            if t.contains(x) {
                let k = choose|k: int| 0 <= k < t.len() && t[k] == x;
                assert(s[k] == x);
            }
            if x == s.last() {
                assert(s[s.len() - 1] == x);
            }
        }
        if !d.contains(s.last()) {
            let e = d.push(s.last());
            assert forall|x: A| e.contains(x) <==> (d.contains(x) || x == s.last()) by {
                if e.contains(x) {
                    let k = choose|k: int| 0 <= k < e.len() && e[k] == x;
                    if k < d.len() {
                        assert(d[k] == x);
                    }
                }
                if d.contains(x) {
                    let k = choose|k: int| 0 <= k < d.len() && d[k] == x;
                    assert(e[k] == x);
                }
                if x == s.last() {
                    assert(e[d.len() as int] == x);
                }
            }
        }
    }
}

/// The names of a sequence of strings.
pub open spec fn names_view(names: Seq<String>) -> Seq<Seq<char>> {
    names.map_values(|s: String| s@)
}

/// A source of packages, looked up by name.
pub trait Database {
    /// The name of this database.
    spec fn spec_db_name(&self) -> Seq<char>;

    /// The packages of this database, in the order in which lookups see them.
    spec fn spec_packages(&self) -> Seq<PackageView>;

    /// Get the name of the database
    fn db_name(&self) -> (r: String)
        ensures
            r@ == self.spec_db_name(),
    ;

    /// Get a package by its name
    fn get_package(&self, name: &String) -> (r: Result<Package, Error>)
        ensures
            lookup_answer(find_named(self.spec_packages(), name@), r),
    ;

    /// Get all the packages in the database
    fn all_packages(&self) -> (r: Vec<Package>)
        ensures
            packages_view(r@) == self.spec_packages(),
    ;

    /// Get the dependencies of packages
    fn dependencies(&self, pkgs: &Vec<Package>) -> (r: Vec<Dependency>)
        ensures
            dependencies_view(r@) == dependencies_of(self.spec_packages(), packages_view(pkgs@)),
    ;

    /// Tries to resolve a dependency to a package
    fn resolve_dependency(&self, dep: &Dependency) -> (r: Result<Package, Error>)
        ensures
            lookup_answer(find_named(self.spec_packages(), dep.name@), r),
    {
        self.get_package(&dep.name)
    }

    /// Get a list of packages by their names: each name once, in the order in which the
    /// names first occur, with the answer of the lookup of that name.
    fn get_packages(&self, names: &Vec<String>) -> (r: Vec<(String, Result<Package, Error>)>)
        ensures
            r.len() == distinct(names_view(names@)).len(),
            forall|i: int|
                0 <= i < r.len() ==> {
                    &&& (#[trigger] r@[i]).0@ == distinct(names_view(names@))[i]
                    &&& lookup_answer(find_named(self.spec_packages(), r@[i].0@), r@[i].1)
                },
    {
        let mut ret: Vec<(String, Result<Package, Error>)> = Vec::new();
        let mut i: usize = 0;
        while i < names.len()
            invariant
                i <= names.len(),
                ret.len() == distinct(names_view(names@.take(i as int))).len(),
                forall|k: int|
                    0 <= k < ret.len() ==> {
                        &&& (#[trigger] ret@[k]).0@ == distinct(names_view(names@.take(i as int)))[k]
                        &&& lookup_answer(find_named(self.spec_packages(), ret@[k].0@), ret@[k].1)
                    },
            decreases names.len() - i,
        {
            let ghost before = distinct(names_view(names@.take(i as int)));
            assert(names_view(names@.take(i + 1)).drop_last() =~= names_view(names@.take(i as int)));
            assert(names_view(names@.take(i + 1)).last() == names@[i as int]@);
            let mut seen = false;
            let mut k: usize = 0;
            while k < ret.len()
                invariant
                    i < names.len(),
                    k <= ret.len(),
                    ret.len() == before.len(),
                    forall|m: int| 0 <= m < ret.len() ==> (#[trigger] ret@[m]).0@ == before[m],
                    seen <==> exists|m: int| 0 <= m < k && before[m] == names@[i as int]@,
                decreases ret.len() - k,
            {
                if ret[k].0 == names[i] {
                    seen = true;
                }
                k = k + 1;
            }
            if !seen {
                let found = self.get_package(&names[i]);
                ret.push((names[i].clone(), found));
                assert(!before.contains(names@[i as int]@));
            } else {
                assert(before.contains(names@[i as int]@));
            }
            i = i + 1;
        }
        assert(names@.take(names.len() as int) =~= names@);
        ret
    }
}

/// A snapshot of one package database: its name and its packages.
#[derive(Debug)]
pub struct PackageDb {
    pub name: String,
    pub packages: Vec<Package>,
}

impl PackageDb {
    /// A database of the given name that holds the given packages.
    pub fn new(name: String, packages: Vec<Package>) -> (r: PackageDb)
        ensures
            r.name@ == name@,
            packages_view(r.packages@) == packages_view(packages@),
    {
        PackageDb { name, packages }
    }
}

impl Database for PackageDb {
    open spec fn spec_db_name(&self) -> Seq<char> {
        self.name@
    }

    open spec fn spec_packages(&self) -> Seq<PackageView> {
        packages_view(self.packages@)
    }

    fn db_name(&self) -> (r: String) {
        self.name.clone()
    }

    fn get_package(&self, name: &String) -> (r: Result<Package, Error>) {
        match position_named(&self.packages, name) {
            Some(i) => Ok(self.packages[i].clone()),
            None => Err(error_of(ErrorKind::PackageNotFound)),
        }
    }

    fn all_packages(&self) -> (r: Vec<Package>) {
        let mut r: Vec<Package> = Vec::new();
        let mut i: usize = 0;
        while i < self.packages.len()
            invariant
                i <= self.packages.len(),
                packages_view(r@) =~= packages_view(self.packages@).take(i as int),
            decreases self.packages.len() - i,
        {
            r.push(self.packages[i].clone());
            assert(packages_view(self.packages@).take(i + 1) =~= packages_view(self.packages@).take(
                i as int,
            ).push(self.packages@[i as int]@));
            i = i + 1;
        }
        r
    }

    fn dependencies(&self, pkgs: &Vec<Package>) -> (r: Vec<Dependency>) {
        let mut deps: Vec<Dependency> = Vec::new();
        let mut i: usize = 0;
        while i < pkgs.len()
            invariant
                i <= pkgs.len(),
                dependencies_view(deps@) == dependencies_of(
                    self.spec_packages(),
                    packages_view(pkgs@).take(i as int),
                ),
            decreases pkgs.len() - i,
        {
            let ghost prefix = packages_view(pkgs@).take(i + 1);
            assert(prefix.drop_last() =~= packages_view(pkgs@).take(i as int));
            assert(prefix.last() == pkgs@[i as int]@);
            match position_named(&self.packages, &pkgs[i].name) {
                Some(j) => {
                    let mut more = crate::package::copy_dependencies(&self.packages[j].depends);
                    let ghost before = deps@;
                    let ghost added = more@;
                    deps.append(&mut more);
                    assert(dependencies_view(deps@) =~= dependencies_view(before)
                        + dependencies_view(added));
                },
                None => {
                    assert(prefix.last().name == pkgs@[i as int].name@);
                    assert(dependencies_of(self.spec_packages(), prefix) =~= dependencies_of(
                        self.spec_packages(),
                        prefix.drop_last(),
                    ));
                },
            }
            i = i + 1;
        }
        assert(packages_view(pkgs@).take(pkgs.len() as int) =~= packages_view(pkgs@));
        deps
    }
}

/// The packages of each of a sequence of databases.
pub open spec fn dbs_view(dbs: Seq<PackageDb>) -> Seq<Seq<PackageView>> {
    dbs.map_values(|d: PackageDb| packages_view(d.packages@))
}

/// The names of a sequence of databases.
pub open spec fn db_names(dbs: Seq<PackageDb>) -> Seq<Seq<char>> {
    dbs.map_values(|d: PackageDb| d.name@)
}

/// The local database followed by the sync databases, in that order.
pub fn databases_in_order(local: PackageDb, syncs: Vec<PackageDb>) -> (r: Vec<PackageDb>)
    ensures
        r.len() == syncs.len() + 1,
        dbs_view(r@) == seq![packages_view(local.packages@)] + dbs_view(syncs@),
        db_names(r@) == seq![local.name@] + db_names(syncs@),
{
    let ghost local_view = packages_view(local.packages@);
    let ghost syncs_view = dbs_view(syncs@);
    let ghost local_name = local.name@;
    let ghost sync_names = db_names(syncs@);
    let mut databases = vec![local];
    let mut syncs = syncs;
    databases.append(&mut syncs);
    assert(dbs_view(databases@) =~= seq![local_view] + syncs_view);
    assert(db_names(databases@) =~= seq![local_name] + sync_names);
    databases
}

/// The package that a search through the databases in order finds first under a name.
pub open spec fn find_in_dbs(dbs: Seq<Seq<PackageView>>, name: Seq<char>) -> Option<PackageView>
    decreases dbs.len(),
{
    if dbs.len() == 0 {
        None
    } else {
        match find_named(dbs[0], name) {
            Some(p) => Some(p),
            None => find_in_dbs(dbs.drop_first(), name),
        }
    }
}

/// The view of an optional package.
pub open spec fn opt_package_view(p: Option<Package>) -> Option<PackageView> {
    match p {
        Some(q) => Some(q@),
        None => None,
    }
}

/// Looks a name up in each database in turn and gives the first package found.
pub fn lookup_in(dbs: &Vec<PackageDb>, name: &String) -> (r: Option<Package>)
    ensures
        opt_package_view(r) == find_in_dbs(dbs_view(dbs@), name@),
{
    let ghost all = dbs_view(dbs@);
    let mut i: usize = 0;
    assert(all.skip(0) =~= all);
    while i < dbs.len()
        invariant
            i <= dbs.len(),
            all == dbs_view(dbs@),
            find_in_dbs(all, name@) == find_in_dbs(all.skip(i as int), name@),
        decreases dbs.len() - i,
    {
        assert(all.skip(i as int)[0] == dbs@[i as int].spec_packages());
        match dbs[i].get_package(name) {
            Ok(p) => {
                return Some(p);
            },
            Err(_) => {},
        }
        assert(all.skip(i as int).drop_first() =~= all.skip(i + 1));
        i = i + 1;
    }
    assert(all.skip(i as int).len() == 0);
    None
}

/// The Arch User Repository, which holds no package that this library can see.
#[derive(Debug)]
pub struct Aur;

impl Aur {
    /// The AUR handle.
    pub fn new() -> (r: Self) {
        Aur
    }

    /// Search for packages by queries: the AUR answers none.
    pub fn search_packages(&self, queries: Vec<String>) -> (r: Result<Vec<Package>, Error>)
        ensures
            r matches Ok(v) && v.len() == 0,
    {
        Ok(Vec::new())
    }
}

impl Database for Aur {
    open spec fn spec_db_name(&self) -> Seq<char> {
        "aur"@
    }

    open spec fn spec_packages(&self) -> Seq<PackageView> {
        Seq::empty()
    }

    fn db_name(&self) -> (r: String) {
        String::from_str("aur")
    }

    fn get_package(&self, name: &String) -> (r: Result<Package, Error>) {
        Err(error_of(ErrorKind::PackageNotFound))
    }

    fn all_packages(&self) -> (r: Vec<Package>) {
        Vec::new()
    }

    fn dependencies(&self, pkgs: &Vec<Package>) -> (r: Vec<Dependency>) {
        proof {
            lemma_dependencies_of_empty_db(packages_view(pkgs@));
        }
        Vec::new()
    }
}

/// An empty database lists no dependency for any package.
pub proof fn lemma_dependencies_of_empty_db(pkgs: Seq<PackageView>)
    ensures
        dependencies_of(Seq::empty(), pkgs) =~= Seq::<DependencyView>::empty(),
    decreases pkgs.len(),
{
    if pkgs.len() > 0 {
        lemma_dependencies_of_empty_db(pkgs.drop_last());
    }
}

} // verus!
