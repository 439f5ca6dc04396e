use vstd::prelude::*;
use vstd::string::StringExecFns;

use crate::closure::{
    dependency_closure, is_prefix, lemma_find_in_dbs_found, lemma_prefix_names,
    lemma_unseen_bound, lemma_unseen_shrinks, unseen, visit, close_over,
};
use crate::database::{databases_in_order, db_names, dbs_view, find_in_dbs, lookup_in, Database, PackageDb};
use crate::error::{error_of, Error, ErrorKind};
use crate::ops::{all_found, found_packages, sizes_total};
use crate::package::{packages_view, Package, PackageReason, PackageView};

verus! {

/// The names of a sequence of string slices.
pub open spec fn strs_view(s: Seq<&str>) -> Seq<Seq<char>> {
    s.map_values(|t: &str| t@)
}

/// The message of the error for a name that no database has.
pub open spec fn not_found_message(name: Seq<char>) -> Seq<char> {
    "Could not find package "@ + name
}

/// How many of the packages are installed.
pub open spec fn count_installed(s: Seq<PackageView>) -> int
    decreases s.len(),
{
    if s.len() == 0 {
        0
    } else {
        count_installed(s.drop_last()) + if s.last().install_date is Some {
            1int
        } else {
            0int
        }
    }
}

/// How many of the packages are installed, for the given reason.
pub open spec fn count_installed_for(s: Seq<PackageView>, reason: PackageReason) -> int
    decreases s.len(),
{
    if s.len() == 0 {
        0
    } else {
        count_installed_for(s.drop_last(), reason) + if s.last().install_date is Some
            && s.last().install_reason == reason {
            1int
        } else {
            0int
        }
    }
}

/// Whether `s[k]` is the first of the packages of greatest installed size.
pub open spec fn is_largest_at(s: Seq<PackageView>, k: int) -> bool {
    &&& 0 <= k < s.len()
    &&& forall|i: int| 0 <= i < s.len() ==> (#[trigger] s[i]).installed_size <= s[k].installed_size
    &&& forall|i: int| 0 <= i < k ==> (#[trigger] s[i]).installed_size < s[k].installed_size
}

/// Figures about a list of packages.
#[derive(Debug)]
pub struct PackagesReport {
    /// How many packages there are.
    pub packages: usize,
    /// How many of them are installed.
    pub installed: usize,
    /// How many of them are installed explicitly.
    pub explicit: usize,
    /// How many of them are installed as dependencies.
    pub dependencies: usize,
    /// The sum of their installed sizes, in bytes.
    pub bytes: usize,
    /// The first of the packages of greatest installed size.
    pub largest: Package,
}

/// Whether the report gives the figures of the packages `s`.
pub open spec fn reports(r: PackagesReport, s: Seq<PackageView>) -> bool {
    &&& r.packages == s.len()
    &&& r.installed == count_installed(s)
    &&& r.explicit == count_installed_for(s, PackageReason::Explicit)
    &&& r.dependencies == count_installed_for(s, PackageReason::Depend)
    &&& r.bytes == sizes_total(s) as usize
    &&& exists|k: int| is_largest_at(s, k) && r.largest@ == s[k]
}

/// The counts of a prefix are at most its length.
pub proof fn lemma_counts_bounded(s: Seq<PackageView>)
    ensures
        0 <= count_installed_for(s, PackageReason::Explicit) <= count_installed(s) <= s.len(),
        0 <= count_installed_for(s, PackageReason::Depend) <= count_installed(s),
    decreases s.len(),
{
    if s.len() > 0 {
        lemma_counts_bounded(s.drop_last());
    }
}

/// The sum of `f` over the packages.
pub open spec fn sum_of(s: Seq<PackageView>, f: spec_fn(PackageView) -> int) -> int
    decreases s.len(),
{
    if s.len() == 0 {
        0
    } else {
        sum_of(s.drop_last(), f) + f(s.last())
    }
}

/// The greatest installed size among the packages (zero for none).
pub open spec fn max_size(s: Seq<PackageView>) -> int
    decreases s.len(),
{
    if s.len() == 0 {
        0
    } else if max_size(s.drop_last()) >= s.last().installed_size {
        max_size(s.drop_last())
    } else {
        s.last().installed_size as int
    }
}

/// The counts and the total size are sums over the packages.
pub proof fn lemma_figures_are_sums(s: Seq<PackageView>)
    ensures
        count_installed(s) == sum_of(
            s,
            |p: PackageView| if p.install_date is Some { 1int } else { 0int },
        ),
        count_installed_for(s, PackageReason::Explicit) == sum_of(
            s,
            |p: PackageView|
                if p.install_date is Some && p.install_reason == PackageReason::Explicit {
                    1int
                } else {
                    0int
                },
        ),
        count_installed_for(s, PackageReason::Depend) == sum_of(
            s,
            |p: PackageView|
                if p.install_date is Some && p.install_reason == PackageReason::Depend {
                    1int
                } else {
                    0int
                },
        ),
        sizes_total(s) == sum_of(s, |p: PackageView| p.installed_size as int),
    decreases s.len(),
{
    if s.len() > 0 {
        lemma_figures_are_sums(s.drop_last());
    }
}

/// Taking one package out of the list takes its part out of a sum and leaves the greatest size
/// of the rest.
pub proof fn lemma_remove_one(s: Seq<PackageView>, f: spec_fn(PackageView) -> int, i: int)
    requires
        0 <= i < s.len(),
    ensures
        sum_of(s, f) == sum_of(s.remove(i), f) + f(s[i]),
        max_size(s) == if max_size(s.remove(i)) >= s[i].installed_size {
            max_size(s.remove(i))
        } else {
            s[i].installed_size as int
        },
    decreases s.len(),
{
    if i == s.len() - 1 {
        assert(s.remove(i) =~= s.drop_last());
    } else {
        let t = s.drop_last();
        lemma_remove_one(t, f, i);
        assert(s.remove(i).drop_last() =~= t.remove(i));
        assert(s.remove(i).last() == s.last());
        assert(t[i] == s[i]);
        lemma_max_size_nonneg(t.remove(i));
    }
}

/// The greatest size is never negative.
pub proof fn lemma_max_size_nonneg(s: Seq<PackageView>)
    ensures
        max_size(s) >= 0,
    decreases s.len(),
{
    if s.len() > 0 {
        lemma_max_size_nonneg(s.drop_last());
    }
}

/// Sums and the greatest size do not depend on the order of the packages.
pub proof fn lemma_sums_permutation(
    s1: Seq<PackageView>,
    s2: Seq<PackageView>,
    f: spec_fn(PackageView) -> int,
)
    requires
        s1.to_multiset() == s2.to_multiset(),
    ensures
        sum_of(s1, f) == sum_of(s2, f),
        max_size(s1) == max_size(s2),
    decreases s1.len(),
{
    s1.to_multiset_ensures();
    s2.to_multiset_ensures();
    if s1.len() == 0 {
        assert(s2.len() == 0);
    } else {
        let x = s1.last();
        let t1 = s1.drop_last();
        assert(t1.push(x) =~= s1);
        t1.to_multiset_ensures();
        assert(s2.to_multiset().count(x) > 0);
        assert(s2.contains(x));
        let i = choose|i: int| 0 <= i < s2.len() && s2[i] == x;
        assert(s2.remove(i).to_multiset() =~= s2.to_multiset().remove(x));
        assert(t1.to_multiset() =~= s1.to_multiset().remove(x));
        lemma_sums_permutation(t1, s2.remove(i), f);
        lemma_remove_one(s2, f, i);
    }
}

/// The greatest size is the size of a first package of greatest size.
pub proof fn lemma_largest_is_max(s: Seq<PackageView>, k: int)
    requires
        is_largest_at(s, k),
    ensures
        s[k].installed_size == max_size(s),
    decreases s.len(),
{
    let t = s.drop_last();
    if k == s.len() - 1 {
        lemma_max_below(t, s[k].installed_size as int);
    } else {
        assert forall|i: int| 0 <= i < t.len() implies (#[trigger] t[i]).installed_size
            <= t[k].installed_size by {
            assert(t[i] == s[i]);
        }
        assert forall|i: int| 0 <= i < k implies (#[trigger] t[i]).installed_size
            < t[k].installed_size by {
            assert(t[i] == s[i]);
        }
        assert(t[k] == s[k]);
        lemma_largest_is_max(t, k);
    }
}

/// The greatest size is at most any bound on all sizes, and is reached when there is a package.
pub proof fn lemma_max_below(s: Seq<PackageView>, b: int)
    requires
        0 <= b,
        forall|i: int| 0 <= i < s.len() ==> (#[trigger] s[i]).installed_size <= b,
    ensures
        max_size(s) <= b,
    decreases s.len(),
{
    if s.len() > 0 {
        let t = s.drop_last();
        assert forall|i: int| 0 <= i < t.len() implies (#[trigger] t[i]).installed_size <= b by {
            assert(t[i] == s[i]);
        }
        lemma_max_below(t, b);
    }
}

/// The law of the figures: two reports of the same packages, listed in any two orders, give the
/// same figures, and their largest packages have the same installed size.
pub proof fn lemma_report_permutation(
    r1: PackagesReport,
    s1: Seq<PackageView>,
    r2: PackagesReport,
    s2: Seq<PackageView>,
)
    requires
        s1.to_multiset() == s2.to_multiset(),
        reports(r1, s1),
        reports(r2, s2),
    ensures
        r1.packages == r2.packages,
        r1.installed == r2.installed,
        r1.explicit == r2.explicit,
        r1.dependencies == r2.dependencies,
        r1.bytes == r2.bytes,
        r1.largest.installed_size == r2.largest.installed_size,
{
    s1.to_multiset_ensures();
    s2.to_multiset_ensures();
    lemma_figures_are_sums(s1);
    lemma_figures_are_sums(s2);
    lemma_sums_permutation(s1, s2, |p: PackageView| if p.install_date is Some { 1int } else { 0int });
    lemma_sums_permutation(
        s1,
        s2,
        |p: PackageView|
            if p.install_date is Some && p.install_reason == PackageReason::Explicit {
                1int
            } else {
                0int
            },
    );
    lemma_sums_permutation(
        s1,
        s2,
        |p: PackageView|
            if p.install_date is Some && p.install_reason == PackageReason::Depend {
                1int
            } else {
                0int
            },
    );
    lemma_sums_permutation(s1, s2, |p: PackageView| p.installed_size as int);
    let k1 = choose|k: int| is_largest_at(s1, k) && r1.largest@ == s1[k];
    let k2 = choose|k: int| is_largest_at(s2, k) && r2.largest@ == s2[k];
    lemma_largest_is_max(s1, k1);
    lemma_largest_is_max(s2, k2);
}

/// The operations of the package tool, over the local database and the sync databases.
pub struct PackageOps {
    dbs: Vec<PackageDb>,
}

impl PackageOps {
    /// The local database is always there, first.
    #[verifier::type_invariant]
    spec fn has_local_db(self) -> bool {
        self.dbs@.len() > 0
    }
}

impl PackageOps {
    /// The names of the databases, in the order of search.
    pub closed spec fn database_names(&self) -> Seq<Seq<char>> {
        db_names(self.dbs@)
    }
}

impl View for PackageOps {
    type V = Seq<Seq<PackageView>>;

    /// The packages of each database, in the order of search.
    closed spec fn view(&self) -> Seq<Seq<PackageView>> {
        dbs_view(self.dbs@)
    }
}

impl PackageOps {
    /// The tool over the local database and the sync databases, in that order.
    pub fn new(local: PackageDb, syncs: Vec<PackageDb>) -> (r: Self)
        ensures
            r@ == seq![packages_view(local.packages@)] + dbs_view(syncs@),
            r.database_names() == seq![local.name@] + db_names(syncs@),
    {
        let dbs = databases_in_order(local, syncs);
        PackageOps { dbs }
    }

    /// The databases, local one first.
    fn dbs(&self) -> (r: &Vec<PackageDb>)
        ensures
            dbs_view(r@) == self@,
            db_names(r@) == self.database_names(),
    {
        &self.dbs
    }

    /// The first package of that name in the databases, searched in order.
    pub fn find_package(&self, pkgname: &str) -> (r: Result<Package, String>)
        ensures
            match find_in_dbs(self@, pkgname@) {
                Some(p) => r matches Ok(q) && q@ == p,
                None => r matches Err(m) && m@ == not_found_message(pkgname@),
            },
    {
        let name = String::from_str(pkgname);
        match lookup_in(self.dbs(), &name) {
            Some(p) => Ok(p),
            None => {
                let mut message = String::from_str("Could not find package ");
                message.append(pkgname);
                Err(message)
            },
        }
    }

    /// The packages of those names, in order; fails with the message for the first name that
    /// no database has.
    pub fn find_packages(&self, pkgs: &Vec<&str>) -> (r: Result<Vec<Package>, String>)
        ensures
            r is Ok <==> all_found(self@, strs_view(pkgs@)),
            r matches Ok(v) ==> packages_view(v@) == found_packages(self@, strs_view(pkgs@)),
            r matches Err(m) ==> exists|i: int|
                0 <= i < pkgs.len() && all_found(self@, strs_view(pkgs@).take(i)) && find_in_dbs(
                    self@,
                    #[trigger] strs_view(pkgs@)[i],
                ) is None && m@ == not_found_message(pkgs@[i]@),
    {
        let ghost names = strs_view(pkgs@);
        let mut packages: Vec<Package> = Vec::new();
        let mut i: usize = 0;
        while i < pkgs.len()
            invariant
                i <= pkgs.len(),
                names == strs_view(pkgs@),
                all_found(self@, names.take(i as int)),
                packages_view(packages@) == found_packages(self@, names.take(i as int)),
            decreases pkgs.len() - i,
        {
            assert(names.take(i + 1) =~= names.take(i as int).push(pkgs@[i as int]@));
            match self.find_package(pkgs[i]) {
                Ok(p) => {
                    packages.push(p);
                    assert(found_packages(self@, names.take(i + 1)) =~= found_packages(
                        self@,
                        names.take(i as int),
                    ).push(find_in_dbs(self@, pkgs@[i as int]@).unwrap()));
                    assert forall|m: int| 0 <= m < names.take(i + 1).len() implies (
                    #[trigger] find_in_dbs(self@, names.take(i + 1)[m])) is Some by {
                        if m < i {
                            assert(names.take(i + 1)[m] == names.take(i as int)[m]);
                        }
                    }
                },
                Err(e) => {
                    assert(names[i as int] == pkgs@[i as int]@);
                    return Err(e);
                },
            }
            i = i + 1;
        }
        assert(names.take(i as int) =~= names);
        Ok(packages)
    }

    /// Adds to `deps`, depth first, each dependency of `pkg` whose name no package of `deps`
    /// has and that a database has, with its own dependencies.
    fn recurse_dependencies(&self, pkg: Package, deps: &mut Vec<Package>, Ghost(fuel): Ghost<nat>)
        requires
            fuel >= unseen(self@.flatten(), packages_view(old(deps)@)),
        ensures
            packages_view(final(deps)@) == visit(self@, fuel, pkg@.depends, packages_view(old(deps)@)),
            is_prefix(packages_view(old(deps)@), packages_view(final(deps)@)),
        decreases fuel,
    {
        let ghost u = self@.flatten();
        let ghost start = packages_view(deps@);
        let ghost pending = pkg@.depends;
        let mut j: usize = 0;
        assert(pending.skip(0) =~= pending);
        while j < pkg.depends.len()
            invariant
                j <= pkg.depends.len(),
                pending == pkg@.depends,
                u == self@.flatten(),
                fuel >= unseen(u, start),
                is_prefix(start, packages_view(deps@)),
                visit(self@, fuel, pending, start) == visit(
                    self@,
                    fuel,
                    pending.skip(j as int),
                    packages_view(deps@),
                ),
            decreases pkg.depends.len() - j,
        {
            let ghost now = packages_view(deps@);
            assert(pending.skip(j as int)[0] == pkg.depends@[j as int]@);
            assert(pending.skip(j as int).drop_first() =~= pending.skip(j + 1));
            let mut present = false;
            let mut k: usize = 0;
            while k < deps.len()
                invariant
                    j < pkg.depends.len(),
                    k <= deps.len(),
                    now == packages_view(deps@),
                    present <==> exists|m: int|
                        0 <= m < k && (#[trigger] now[m]).name == pkg.depends@[j as int].name@,
                decreases deps.len() - k,
            {
                assert(now[k as int] == deps@[k as int]@);
                if deps[k].name == pkg.depends[j].name {
                    present = true;
                }
                k = k + 1;
            }
            if !present {
                match self.find_package(pkg.depends[j].name.as_str()) {
                    Ok(dep_pkg) => {
                        let ghost p = dep_pkg@;
                        proof {
                            lemma_find_in_dbs_found(self@, pkg.depends@[j as int].name@);
                            let idx = choose|idx: int| 0 <= idx < u.len() && u[idx] == p;
                            lemma_prefix_names(start, now);
                            lemma_unseen_shrinks(u, start, now, idx);
                            assert(is_prefix(now, now.push(p)));
                            lemma_prefix_names(now, now.push(p));
                            assert(now.push(p)[now.len() as int] == p);
                            lemma_unseen_shrinks(u, now, now.push(p), idx);
                        }
                        deps.push(dep_pkg.clone());
                        assert(packages_view(deps@) =~= now.push(p));
                        self.recurse_dependencies(dep_pkg, deps, Ghost((fuel - 1) as nat));
                    },
                    Err(_) => {},
                }
            }
            j = j + 1;
        }
        assert(pending.skip(j as int).len() == 0);
    }

    /// The packages, then, depth first, everything that they depend on that a database has,
    /// once per name.
    fn get_dependencies(&self, pkgs: Vec<Package>) -> (r: Vec<Package>)
        ensures
            packages_view(r@) == dependency_closure(self@, packages_view(pkgs@)),
            is_prefix(packages_view(pkgs@), packages_view(r@)),
    {
        let ghost roots = packages_view(pkgs@);
        let mut deps: Vec<Package> = Vec::new();
        let mut i: usize = 0;
        while i < pkgs.len()
            invariant
                i <= pkgs.len(),
                roots == packages_view(pkgs@),
                packages_view(deps@) =~= roots.take(i as int),
            decreases pkgs.len() - i,
        {
            deps.push(pkgs[i].clone());
            assert(roots.take(i + 1) =~= roots.take(i as int).push(pkgs@[i as int]@));
            i = i + 1;
        }
        assert(roots.take(i as int) =~= roots);
        let mut i: usize = 0;
        while i < pkgs.len()
            invariant
                i <= pkgs.len(),
                roots == packages_view(pkgs@),
                packages_view(deps@) == close_over(self@, roots.take(i as int), roots),
                is_prefix(roots, packages_view(deps@)),
            decreases pkgs.len() - i,
        {
            assert(roots.take(i + 1).drop_last() =~= roots.take(i as int));
            assert(roots.take(i + 1).last() == pkgs@[i as int]@);
            proof {
                lemma_unseen_bound(self@.flatten(), packages_view(deps@));
            }
            let ghost before = packages_view(deps@);
            self.recurse_dependencies(pkgs[i].clone(), &mut deps, Ghost(self@.flatten().len()));
            assert forall|m: int| 0 <= m < roots.len() implies #[trigger] packages_view(deps@)[m] == roots[m] by {
                assert(before[m] == roots[m]);
            }
            i = i + 1;
        }
        assert(roots.take(i as int) =~= roots);
        deps
    }



    /// The figures of a non-empty list of packages.
    pub fn summary_pkgs(&self, pkgs: &Vec<Package>) -> (r: PackagesReport)
        requires
            pkgs.len() > 0,
            sizes_total(packages_view(pkgs@)) <= i64::MAX,
        ensures
            reports(r, packages_view(pkgs@)),
    {
        let ghost all = packages_view(pkgs@);
        let mut n_installed: usize = 0;
        let mut n_explicit: usize = 0;
        let mut n_dependencies: usize = 0;
        let mut n_bytes: i64 = 0;
        let mut largest: usize = 0;
        let mut i: usize = 0;
        while i < pkgs.len()
            invariant
                0 < pkgs.len(),
                i <= pkgs.len(),
                all == packages_view(pkgs@),
                sizes_total(all) <= i64::MAX,
                n_installed == count_installed(all.take(i as int)),
                n_explicit == count_installed_for(all.take(i as int), PackageReason::Explicit),
                n_dependencies == count_installed_for(all.take(i as int), PackageReason::Depend),
                n_bytes == sizes_total(all.take(i as int)),
                i > 0 ==> is_largest_at(all.take(i as int), largest as int),
            decreases pkgs.len() - i,
        {
            let ghost prefix = all.take(i + 1);
            assert(prefix.drop_last() =~= all.take(i as int));
            assert(prefix.last() == pkgs@[i as int]@);
            proof {
                lemma_counts_bounded(prefix);
                crate::ops::lemma_sizes_total_prefix(all, i + 1);
                crate::ops::lemma_sizes_total_nonneg(all.take(i as int));
            }
            assert(sizes_total(prefix) == sizes_total(all.take(i as int)) + pkgs@[i as int].installed_size);
            if i == 0 || pkgs[i].installed_size > pkgs[largest].installed_size {
                largest = i;
            }
            if pkgs[i].install_date.is_some() {
                n_installed = n_installed + 1;
                if pkgs[i].install_reason == PackageReason::Explicit {
                    n_explicit = n_explicit + 1;
                }
                if pkgs[i].install_reason == PackageReason::Depend {
                    n_dependencies = n_dependencies + 1;
                }
            }
            n_bytes = n_bytes + pkgs[i].installed_size as i64;
            assert forall|m: int| 0 <= m < prefix.len() implies (#[trigger] prefix[m]).installed_size
                <= prefix[largest as int].installed_size by {
                if m < i {
                    assert(prefix[m] == all.take(i as int)[m]);
                }
            }
            assert forall|m: int| 0 <= m < largest implies (#[trigger] prefix[m]).installed_size
                < prefix[largest as int].installed_size by {
                assert(prefix[m] == all.take(i as int)[m]);
            }
            i = i + 1;
        }
        assert(all.take(i as int) =~= all);
        #[verifier::truncate]
        let bytes = n_bytes as usize;
        PackagesReport {
            packages: pkgs.len(),
            installed: n_installed,
            explicit: n_explicit,
            dependencies: n_dependencies,
            bytes,
            largest: pkgs[largest].clone(),
        }
    }

    /// The figures of the named packages with all that they depend on or, when no name is
    /// given, of the packages of the local database.
    pub fn summary(self, pkgs: &Vec<&str>) -> (r: PackagesReport)
        requires
            pkgs.len() > 0 ==> all_found(self@, strs_view(pkgs@)) && sizes_total(
                dependency_closure(self@, found_packages(self@, strs_view(pkgs@))),
            ) <= i64::MAX,
            pkgs.len() == 0 ==> self@[0].len() > 0 && sizes_total(self@[0]) <= i64::MAX,
        ensures
            pkgs.len() > 0 ==> reports(
                r,
                dependency_closure(self@, found_packages(self@, strs_view(pkgs@))),
            ),
            pkgs.len() == 0 ==> reports(r, self@[0]),
    {
        proof {
            use_type_invariant(&self);
        }
        if pkgs.len() > 0 {
            let found = self.find_packages(pkgs).unwrap();
            let deps = self.get_dependencies(found);
            self.summary_pkgs(&deps)
        } else {
            let local = self.dbs[0].all_packages();
            self.summary_pkgs(&local)
        }
    }

    /// The named packages with all that they depend on, as the databases resolve it.
    pub fn dependencies(&self, pkgs: &Vec<&str>) -> (r: Vec<Package>)
        requires
            all_found(self@, strs_view(pkgs@)),
        ensures
            packages_view(r@) == dependency_closure(self@, found_packages(self@, strs_view(pkgs@))),
    {
        let found = self.find_packages(pkgs).unwrap();
        self.get_dependencies(found)
    }

    /// Installing is not implemented: always answers so.
    pub fn install(&self, _pkgs: &Vec<&str>) -> (r: Result<(), Error>)
        ensures
            r matches Err(e) && e.kind == ErrorKind::NotYetImplemented && e.parent is None,
    {
        Err(error_of(ErrorKind::NotYetImplemented))
    }
}

} // verus!
