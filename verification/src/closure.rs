use vstd::prelude::*;

use crate::database::{find_in_dbs, find_named, lemma_find_named_concat, lemma_find_named_found};
use crate::package::{DependencyView, PackageView};

verus! {

/// Whether some package of `s` has the name `n`.
pub open spec fn has_name(s: Seq<PackageView>, n: Seq<char>) -> bool {
    exists|i: int| 0 <= i < s.len() && (#[trigger] s[i]).name == n
}

/// Whether `a` is a prefix of `b`.
pub open spec fn is_prefix(a: Seq<PackageView>, b: Seq<PackageView>) -> bool {
    &&& a.len() <= b.len()
    &&& forall|i: int| 0 <= i < a.len() ==> #[trigger] b[i] == a[i]
}

/// How many packages of `u` have a name that no package of `seen` has.
pub open spec fn unseen(u: Seq<PackageView>, seen: Seq<PackageView>) -> nat
    decreases u.len(),
{
    if u.len() == 0 {
        0
    } else {
        unseen(u.drop_last(), seen) + if has_name(seen, u.last().name) {
            0nat
        } else {
            1nat
        }
    }
}

/// A package is found under its own name, in one of the databases.
pub proof fn lemma_find_in_dbs_found(dbs: Seq<Seq<PackageView>>, name: Seq<char>)
    ensures
        find_in_dbs(dbs, name) matches Some(p) ==> p.name == name && dbs.flatten().contains(p),
        find_in_dbs(dbs, name) == find_named(dbs.flatten(), name),
    decreases dbs.len(),
{
    if dbs.len() > 0 {
        lemma_find_in_dbs_found(dbs.drop_first(), name);
        lemma_find_named_concat(dbs[0], dbs.drop_first().flatten(), name);
        lemma_find_named_found(dbs[0], name);
        lemma_find_named_found(dbs.flatten(), name);
    }
}

/// No more packages are unseen than there are packages.
pub proof fn lemma_unseen_bound(u: Seq<PackageView>, seen: Seq<PackageView>)
    ensures
        unseen(u, seen) <= u.len(),
    decreases u.len(),
{
    if u.len() > 0 {
        lemma_unseen_bound(u.drop_last(), seen);
    }
}

/// Seeing more names leaves no more packages unseen; seeing the name of a package of `u` that
/// was unseen leaves fewer.
pub proof fn lemma_unseen_shrinks(u: Seq<PackageView>, a: Seq<PackageView>, b: Seq<PackageView>, k: int)
    requires
        forall|n: Seq<char>| has_name(a, n) ==> has_name(b, n),
    ensures
        unseen(u, b) <= unseen(u, a),
        0 <= k < u.len() && !has_name(a, u[k].name) && has_name(b, u[k].name) ==> unseen(u, b)
            < unseen(u, a),
    decreases u.len(),
{
    if u.len() > 0 {
        let t = u.drop_last();
        lemma_unseen_shrinks(t, a, b, k);
        if 0 <= k < u.len() - 1 {
            assert(t[k] == u[k]);
        }
    }
}

/// A prefix has no name that the whole lacks.
pub proof fn lemma_prefix_names(a: Seq<PackageView>, b: Seq<PackageView>)
    requires
        is_prefix(a, b),
    ensures
        forall|n: Seq<char>| has_name(a, n) ==> has_name(b, n),
{
    assert forall|n: Seq<char>| has_name(a, n) implies has_name(b, n) by {
        let i = choose|i: int| 0 <= i < a.len() && (#[trigger] a[i]).name == n;
        assert(b[i] == a[i]);
    }
}

/// Depth-first resolution of the dependencies `pending` against the databases, onto `deps`: a
/// dependency whose name some package of `deps` already has is skipped, as is one that no
/// database has; otherwise the package found is added and its own dependencies are resolved
/// before the next one. `fuel` bounds the depth; the resolution needs no more than the number of
/// packages in the databases.
pub open spec fn visit(
    dbs: Seq<Seq<PackageView>>,
    fuel: nat,
    pending: Seq<DependencyView>,
    deps: Seq<PackageView>,
) -> Seq<PackageView>
    decreases fuel, pending.len(),
{
    if pending.len() == 0 {
        deps
    } else {
        let rest = pending.drop_first();
        if has_name(deps, pending[0].name) {
            visit(dbs, fuel, rest, deps)
        } else {
            match find_in_dbs(dbs, pending[0].name) {
                None => visit(dbs, fuel, rest, deps),
                Some(p) => if fuel == 0 {
                    deps
                } else {
                    visit(dbs, fuel, rest, visit(dbs, (fuel - 1) as nat, p.depends, deps.push(p)))
                },
            }
        }
    }
}

/// The resolution of the dependencies of each root in turn, onto `deps`.
pub open spec fn close_over(
    dbs: Seq<Seq<PackageView>>,
    roots: Seq<PackageView>,
    deps: Seq<PackageView>,
) -> Seq<PackageView>
    decreases roots.len(),
{
    if roots.len() == 0 {
        deps
    } else {
        visit(dbs, dbs.flatten().len(), roots.last().depends, close_over(dbs, roots.drop_last(), deps))
    }
}

/// The packages together with all that they depend on, directly or not, as the databases
/// resolve it: the packages first, then each package found, once per name.
pub open spec fn dependency_closure(dbs: Seq<Seq<PackageView>>, pkgs: Seq<PackageView>) -> Seq<
    PackageView,
> {
    close_over(dbs, pkgs, pkgs)
}

/// Whether a package lists a dependency of the name `n`.
pub open spec fn lists(p: PackageView, n: Seq<char>) -> bool {
    exists|j: int| 0 <= j < p.depends.len() && (#[trigger] p.depends[j]).name == n
}

/// Whether a dependency of the name `n` is met in `r`: some package of `r` has the name, or no
/// database has it.
pub open spec fn met(dbs: Seq<Seq<PackageView>>, r: Seq<PackageView>, n: Seq<char>) -> bool {
    has_name(r, n) || find_in_dbs(dbs, n) is None
}

/// Whether each package of `r` after the first `start` is the package that the databases find
/// under its name, and has a name that no package before it has.
pub open spec fn added_from_dbs(dbs: Seq<Seq<PackageView>>, start: int, r: Seq<PackageView>) -> bool {
    forall|k: int|
        start <= k < r.len() ==> {
            &&& find_in_dbs(dbs, (#[trigger] r[k]).name) == Some(r[k])
            &&& forall|i: int| 0 <= i < k ==> r[i].name != r[k].name
        }
}

/// Whether every dependency of the packages of `r` after the first `start` is met in `r`.
pub open spec fn closed_from(dbs: Seq<Seq<PackageView>>, start: int, r: Seq<PackageView>) -> bool {
    forall|k: int, j: int|
        start <= k < r.len() && 0 <= j < r[k].depends.len() ==> met(
            dbs,
            r,
            (#[trigger] r[k].depends[j]).name,
        )
}

/// Whether each package of `r` after the first `start` is asked for by `pending` or listed by a
/// package of `r` between `start` and itself.
pub open spec fn reached_from(pending: Seq<DependencyView>, start: int, r: Seq<PackageView>) -> bool {
    forall|k: int|
        #![trigger r[k]]
        start <= k < r.len() ==> (exists|j: int|
            0 <= j < pending.len() && (#[trigger] pending[j]).name == r[k].name) || (exists|m: int|
            start <= m < k && lists(#[trigger] r[m], r[k].name))
}

/// A dependency met in a prefix is met in the whole.
pub proof fn lemma_met_grows(dbs: Seq<Seq<PackageView>>, a: Seq<PackageView>, b: Seq<PackageView>)
    requires
        is_prefix(a, b),
    ensures
        forall|n: Seq<char>| met(dbs, a, n) ==> met(dbs, b, n),
{
    lemma_prefix_names(a, b);
}

/// What depth-first resolution does, given enough fuel: it extends `deps`; what it adds are
/// packages of the databases, found under their names, each name once and none that `deps`
/// had; every dependency in `pending` and every dependency of an added package is met; and each
/// added package is asked for by `pending` or listed by a package added before it.
pub proof fn lemma_visit(
    dbs: Seq<Seq<PackageView>>,
    fuel: nat,
    pending: Seq<DependencyView>,
    deps: Seq<PackageView>,
)
    requires
        fuel >= unseen(dbs.flatten(), deps),
    ensures
        is_prefix(deps, visit(dbs, fuel, pending, deps)),
        added_from_dbs(dbs, deps.len() as int, visit(dbs, fuel, pending, deps)),
        forall|j: int|
            0 <= j < pending.len() ==> met(dbs, visit(dbs, fuel, pending, deps), (#[trigger] pending[j]).name),
        closed_from(dbs, deps.len() as int, visit(dbs, fuel, pending, deps)),
        reached_from(pending, deps.len() as int, visit(dbs, fuel, pending, deps)),
    decreases fuel, pending.len(),
{
    let r = visit(dbs, fuel, pending, deps);
    let u = dbs.flatten();
    if pending.len() == 0 {
        return;
    }
    let rest = pending.drop_first();
    let n = pending[0].name;
    if has_name(deps, n) || find_in_dbs(dbs, n) is None {
        lemma_visit(dbs, fuel, rest, deps);
        lemma_met_grows(dbs, deps, r);
        assert forall|j: int| 0 <= j < pending.len() implies met(dbs, r, (#[trigger] pending[j]).name) by {
            if j > 0 {
                assert(pending[j] == rest[j - 1]);
            }
        }
        assert forall|k: int| #![trigger r[k]] deps.len() <= k < r.len() implies (exists|j: int|
            0 <= j < pending.len() && (#[trigger] pending[j]).name == r[k].name) || (exists|m: int|
            deps.len() <= m < k && lists(#[trigger] r[m], r[k].name)) by {
            if exists|j: int| 0 <= j < rest.len() && (#[trigger] rest[j]).name == r[k].name {
                let j = choose|j: int| 0 <= j < rest.len() && (#[trigger] rest[j]).name == r[k].name;
                assert(pending[j + 1] == rest[j]);
            }
        }
        return;
    }
    let p = find_in_dbs(dbs, n).unwrap();
    let d1 = deps.push(p);
    lemma_find_in_dbs_found(dbs, n);
    let idx = choose|idx: int| 0 <= idx < u.len() && u[idx] == p;
    assert(is_prefix(deps, d1));
    lemma_prefix_names(deps, d1);
    assert(d1[deps.len() as int] == p);
    lemma_unseen_shrinks(u, deps, d1, idx);
    assert(fuel > 0);
    let f1 = (fuel - 1) as nat;
    lemma_visit(dbs, f1, p.depends, d1);
    let r1 = visit(dbs, f1, p.depends, d1);
    lemma_prefix_names(d1, r1);
    lemma_unseen_shrinks(u, d1, r1, idx);
    lemma_visit(dbs, fuel, rest, r1);
    assert(r == visit(dbs, fuel, rest, r1));
    assert(is_prefix(deps, r)) by {
        assert forall|i: int| 0 <= i < deps.len() implies #[trigger] r[i] == deps[i] by {
            assert(d1[i] == deps[i]);
            assert(r1[i] == d1[i]);
        }
    }
    lemma_met_grows(dbs, r1, r);
    assert(r[deps.len() as int] == p) by {
        assert(r1[deps.len() as int] == d1[deps.len() as int]);
    }
    assert(added_from_dbs(dbs, deps.len() as int, r)) by {
        assert forall|k: int| deps.len() <= k < r.len() implies {
            &&& find_in_dbs(dbs, (#[trigger] r[k]).name) == Some(r[k])
            &&& forall|i: int| 0 <= i < k ==> r[i].name != r[k].name
        } by {
            if k == deps.len() {
                assert forall|i: int| 0 <= i < k implies r[i].name != r[k].name by {
                    assert(r[i] == deps[i]);
                }
            } else if k < r1.len() {
                assert(r[k] == r1[k]);
                assert forall|i: int| 0 <= i < k implies r[i].name != r[k].name by {
                    assert(r[i] == r1[i]);
                }
            }
        }
    }
    assert forall|j: int| 0 <= j < pending.len() implies met(dbs, r, (#[trigger] pending[j]).name) by {
        if j > 0 {
            assert(pending[j] == rest[j - 1]);
        } else {
            assert(r[deps.len() as int].name == n);
        }
    }
    assert(closed_from(dbs, deps.len() as int, r)) by {
        assert forall|k: int, j: int|
            deps.len() <= k < r.len() && 0 <= j < r[k].depends.len() implies met(
            dbs,
            r,
            (#[trigger] r[k].depends[j]).name,
        ) by {
            if k == deps.len() {
                assert(p.depends[j] == r[k].depends[j]);
            } else if k < r1.len() {
                assert(r[k] == r1[k]);
                assert(r1[k].depends[j] == r[k].depends[j]);
            }
        }
    }
    assert(reached_from(pending, deps.len() as int, r)) by {
        assert forall|k: int| #![trigger r[k]] deps.len() <= k < r.len() implies (exists|j: int|
            0 <= j < pending.len() && (#[trigger] pending[j]).name == r[k].name) || (exists|m: int|
            deps.len() <= m < k && lists(#[trigger] r[m], r[k].name)) by {
            if k == deps.len() {
                assert(pending[0].name == r[k].name);
            } else if k < r1.len() {
                assert(r[k] == r1[k]);
                if exists|j: int| 0 <= j < p.depends.len() && (#[trigger] p.depends[j]).name == r1[k].name {
                    assert(lists(r[deps.len() as int], r[k].name));
                } else {
                    let m = choose|m: int| d1.len() <= m < k && lists(#[trigger] r1[m], r1[k].name);
                    assert(r[m] == r1[m]);
                    assert(lists(r[m], r[k].name));
                }
            } else {
                if exists|j: int| 0 <= j < rest.len() && (#[trigger] rest[j]).name == r[k].name {
                    let j = choose|j: int| 0 <= j < rest.len() && (#[trigger] rest[j]).name == r[k].name;
                    assert(pending[j + 1] == rest[j]);
                } else {
                    let m = choose|m: int| r1.len() <= m < k && lists(#[trigger] r[m], r[k].name);
                    assert(lists(r[m], r[k].name));
                }
            }
        }
    }
}

/// What resolving the dependencies of each root in turn does: as [`lemma_visit`] says, with
/// every dependency of every root met, and each added package listed by a root or by a package
/// added before it.
pub proof fn lemma_close_over(dbs: Seq<Seq<PackageView>>, roots: Seq<PackageView>, deps: Seq<PackageView>)
    ensures
        is_prefix(deps, close_over(dbs, roots, deps)),
        added_from_dbs(dbs, deps.len() as int, close_over(dbs, roots, deps)),
        forall|i: int, j: int|
            0 <= i < roots.len() && 0 <= j < roots[i].depends.len() ==> met(
                dbs,
                close_over(dbs, roots, deps),
                (#[trigger] roots[i].depends[j]).name,
            ),
        closed_from(dbs, deps.len() as int, close_over(dbs, roots, deps)),
        forall|k: int|
            #![trigger close_over(dbs, roots, deps)[k]]
            deps.len() <= k < close_over(dbs, roots, deps).len() ==> (exists|i: int|
                0 <= i < roots.len() && lists(#[trigger] roots[i], close_over(dbs, roots, deps)[k].name))
                || (exists|m: int|
                deps.len() <= m < k && lists(
                    #[trigger] close_over(dbs, roots, deps)[m],
                    close_over(dbs, roots, deps)[k].name,
                )),
    decreases roots.len(),
{
    if roots.len() == 0 {
        return;
    }
    let front = roots.drop_last();
    let c0 = close_over(dbs, front, deps);
    let root = roots.last();
    let c = close_over(dbs, roots, deps);
    lemma_close_over(dbs, front, deps);
    lemma_unseen_bound(dbs.flatten(), c0);
    lemma_visit(dbs, dbs.flatten().len(), root.depends, c0);
    assert(c == visit(dbs, dbs.flatten().len(), root.depends, c0));
    lemma_met_grows(dbs, c0, c);
    assert(is_prefix(deps, c)) by {
        assert forall|i: int| 0 <= i < deps.len() implies #[trigger] c[i] == deps[i] by {
            assert(c0[i] == deps[i]);
        }
    }
    assert(added_from_dbs(dbs, deps.len() as int, c)) by {
        assert forall|k: int| deps.len() <= k < c.len() implies {
            &&& find_in_dbs(dbs, (#[trigger] c[k]).name) == Some(c[k])
            &&& forall|i: int| 0 <= i < k ==> c[i].name != c[k].name
        } by {
            if k < c0.len() {
                assert(c[k] == c0[k]);
                assert forall|i: int| 0 <= i < k implies c[i].name != c[k].name by {
                    assert(c[i] == c0[i]);
                }
            }
        }
    }
    assert forall|i: int, j: int|
        0 <= i < roots.len() && 0 <= j < roots[i].depends.len() implies met(
        dbs,
        c,
        (#[trigger] roots[i].depends[j]).name,
    ) by {
        if i < roots.len() - 1 {
            assert(front[i] == roots[i]);
            assert(front[i].depends[j] == roots[i].depends[j]);
        } else {
            assert(root.depends[j] == roots[i].depends[j]);
        }
    }
    assert(closed_from(dbs, deps.len() as int, c)) by {
        assert forall|k: int, j: int|
            deps.len() <= k < c.len() && 0 <= j < c[k].depends.len() implies met(
            dbs,
            c,
            (#[trigger] c[k].depends[j]).name,
        ) by {
            if k < c0.len() {
                assert(c[k] == c0[k]);
                assert(c0[k].depends[j] == c[k].depends[j]);
            }
        }
    }
    assert forall|k: int| #![trigger c[k]] deps.len() <= k < c.len() implies (exists|i: int|
        0 <= i < roots.len() && lists(#[trigger] roots[i], c[k].name)) || (exists|m: int|
        deps.len() <= m < k && lists(#[trigger] c[m], c[k].name)) by {
        if k < c0.len() {
            assert(c[k] == c0[k]);
            if exists|i: int| 0 <= i < front.len() && lists(#[trigger] front[i], c0[k].name) {
                let i = choose|i: int| 0 <= i < front.len() && lists(#[trigger] front[i], c0[k].name);
                assert(roots[i] == front[i]);
            } else {
                let m = choose|m: int| deps.len() <= m < k && lists(#[trigger] c0[m], c0[k].name);
                assert(c[m] == c0[m]);
            }
        } else {
            if exists|j: int| 0 <= j < root.depends.len() && (#[trigger] root.depends[j]).name == c[k].name {
                assert(lists(roots[roots.len() - 1], c[k].name));
            } else {
                let m = choose|m: int| c0.len() <= m < k && lists(#[trigger] c[m], c[k].name);
                assert(lists(c[m], c[k].name));
            }
        }
    }
}

/// The law of dependency resolution: the result starts with the packages given; every package
/// after them is the package that the databases find under its name, and has a name that no
/// package before it has; every dependency of every package in the result is met in it (a package
/// of that name is in the result, or no database has one); and every package after those given is
/// listed as a dependency by a package before it.
pub proof fn lemma_dependency_closure(dbs: Seq<Seq<PackageView>>, pkgs: Seq<PackageView>)
    ensures
        is_prefix(pkgs, dependency_closure(dbs, pkgs)),
        added_from_dbs(dbs, pkgs.len() as int, dependency_closure(dbs, pkgs)),
        closed_from(dbs, 0, dependency_closure(dbs, pkgs)),
        forall|k: int|
            #![trigger dependency_closure(dbs, pkgs)[k]]
            pkgs.len() <= k < dependency_closure(dbs, pkgs).len() ==> exists|m: int|
                0 <= m < k && lists(
                    #[trigger] dependency_closure(dbs, pkgs)[m],
                    dependency_closure(dbs, pkgs)[k].name,
                ),
{
    let r = dependency_closure(dbs, pkgs);
    lemma_close_over(dbs, pkgs, pkgs);
    assert(closed_from(dbs, 0, r)) by {
        assert forall|k: int, j: int|
            0 <= k < r.len() && 0 <= j < r[k].depends.len() implies met(
            dbs,
            r,
            (#[trigger] r[k].depends[j]).name,
        ) by {
            if k < pkgs.len() {
                assert(r[k] == pkgs[k]);
                assert(pkgs[k].depends[j] == r[k].depends[j]);
            }
        }
    }
    assert forall|k: int| #![trigger r[k]] pkgs.len() <= k < r.len() implies exists|m: int|
        0 <= m < k && lists(#[trigger] r[m], r[k].name) by {
        if exists|i: int| 0 <= i < pkgs.len() && lists(#[trigger] pkgs[i], r[k].name) {
            let i = choose|i: int| 0 <= i < pkgs.len() && lists(#[trigger] pkgs[i], r[k].name);
            assert(r[i] == pkgs[i]);
        }
    }
}

} // verus!
