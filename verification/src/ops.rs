use vstd::prelude::*;

use crate::database::{databases_in_order, 
    db_names, dbs_view, distinct, find_in_dbs, lemma_distinct, lookup_answer, lookup_in, names_view,
    opt_package_view, Aur, Database, PackageDb,
};
use crate::error::{error_of, Error, ErrorKind};
use crate::package::{
    dependencies_view, packages_view, same_package, Dependency, DependencyView, Package, PackageView,
};

verus! {

/// Whether every name is found in the databases.
pub open spec fn all_found(dbs: Seq<Seq<PackageView>>, names: Seq<Seq<char>>) -> bool {
    forall|i: int| 0 <= i < names.len() ==> (#[trigger] find_in_dbs(dbs, names[i])) is Some
}

/// The packages found under the names, in the order of the names.
pub open spec fn found_packages(dbs: Seq<Seq<PackageView>>, names: Seq<Seq<char>>) -> Seq<PackageView> {
    names.map_values(|n: Seq<char>| find_in_dbs(dbs, n).unwrap())
}

/// Whether `s` holds the same package as `p` (same name and version).
pub open spec fn holds_same(s: Seq<PackageView>, p: PackageView) -> bool {
    exists|i: int| 0 <= i < s.len() && same_package(#[trigger] s[i], p)
}

/// The packages of `s`, each package once: of packages with the same name and version,
/// the first one stays, in the order in which they first occur.
pub open spec fn unique_packages(s: Seq<PackageView>) -> Seq<PackageView>
    decreases s.len(),
{
    if s.len() == 0 {
        Seq::empty()
    } else {
        let d = unique_packages(s.drop_last());
        if holds_same(d, s.last()) {
            d
        } else {
            d.push(s.last())
        }
    }
}

/// The sum of the installed sizes of the packages.
pub open spec fn sizes_total(s: Seq<PackageView>) -> int
    decreases s.len(),
{
    if s.len() == 0 {
        0
    } else {
        sizes_total(s.drop_last()) + s.last().installed_size
    }
}

/// The dependencies of the packages, package after package, each in its listed order.
pub open spec fn all_depends(s: Seq<PackageView>) -> Seq<DependencyView>
    decreases s.len(),
{
    if s.len() == 0 {
        Seq::empty()
    } else {
        all_depends(s.drop_last()) + s.last().depends
    }
}

/// The packages that a set of names resolves to: the packages found, each once.
pub open spec fn resolved(dbs: Seq<Seq<PackageView>>, names: Seq<Seq<char>>) -> Seq<PackageView> {
    unique_packages(found_packages(dbs, names))
}

/// The dependencies of resolved packages: each dependency once, in the order in which it is first
/// listed.
pub open spec fn dependency_keys(dbs: Seq<Seq<PackageView>>, names: Seq<Seq<char>>) -> Seq<
    DependencyView,
> {
    distinct(all_depends(resolved(dbs, names)))
}

/// The law of resolution: no package twice, and every package found is among them, and
/// nothing else is.
pub proof fn lemma_unique_packages(s: Seq<PackageView>)
    ensures
        forall|i: int, j: int|
            0 <= i < j < unique_packages(s).len() ==> !same_package(
                unique_packages(s)[i],
                unique_packages(s)[j],
            ),
        forall|k: int| 0 <= k < s.len() ==> holds_same(unique_packages(s), #[trigger] s[k]),
        forall|k: int| 0 <= k < unique_packages(s).len() ==> s.contains(#[trigger] unique_packages(s)[k]),
        unique_packages(s).len() <= s.len(),
    decreases s.len(),
{
    if s.len() > 0 {
        let t = s.drop_last();
        lemma_unique_packages(t);
        let d = unique_packages(t);
        assert forall|k: int| 0 <= k < s.len() implies holds_same(unique_packages(s), #[trigger] s[k]) by {
            if k < s.len() - 1 {
                assert(t[k] == s[k]);
                let m = choose|m: int| 0 <= m < d.len() && same_package(#[trigger] d[m], t[k]);
                assert(unique_packages(s)[m] == d[m]);
            } else if !holds_same(d, s.last()) {
                assert(unique_packages(s)[d.len() as int] == s.last());
            }
        }
        assert forall|k: int| 0 <= k < unique_packages(s).len() implies s.contains(
            #[trigger] unique_packages(s)[k],
        ) by {
            if k < d.len() {
                assert(unique_packages(s)[k] == d[k]);
                let m = choose|m: int| 0 <= m < t.len() && t[m] == d[k];
                assert(s[m] == t[m]);
            } else {
                assert(s[s.len() - 1] == s.last());
            }
        }
    }
}

/// Summary of a set of packages: how many there are and the sum of their installed sizes.
#[derive(Debug, Clone, Copy, PartialEq, Eq, Structural)]
pub struct PackageSummary {
    pub count: u32,
    pub total_size: usize,
}

/// The package manager: the pacman databases, local one first, then the AUR.
pub struct Opman {
    databases: Vec<PackageDb>,
    aur_db: Aur,
}

impl View for Opman {
    type V = Seq<Seq<PackageView>>;

    /// The packages of each pacman database, in the order of search.
    closed spec fn view(&self) -> Seq<Seq<PackageView>> {
        dbs_view(self.databases@)
    }
}

impl Opman {
    /// The names of the pacman databases, in the order of search.
    pub closed spec fn database_names(&self) -> Seq<Seq<char>> {
        db_names(self.databases@)
    }
}

/// Whether two dependencies are the same: same name and same version constraint.
fn same_dependency(a: &Dependency, b: &Dependency) -> (r: bool)
    ensures
        r == (a@ == b@),
{
    let same_version = match (&a.version, &b.version) {
        (Some(x), Some(y)) => *x == *y,
        (None, None) => true,
        _ => false,
    };
    a.name == b.name && same_version
}

impl Opman {
    /// A package manager over the local database and the sync databases, in that order.
    pub fn new(local: PackageDb, syncs: Vec<PackageDb>) -> (r: Self)
        ensures
            r@ == seq![packages_view(local.packages@)] + dbs_view(syncs@),
            r.database_names() == seq![local.name@] + db_names(syncs@),
    {
        let databases = databases_in_order(local, syncs);
        Opman { databases, aur_db: Aur::new() }
    }

    /// The pacman databases, in the order of search.
    pub fn alpm_databases(&self) -> (r: &Vec<PackageDb>)
        ensures
            dbs_view(r@) == self@,
            db_names(r@) == self.database_names(),
    {
        &self.databases
    }

    /// Count and total size of the packages that the names resolve to.
    pub fn summary(&self, packages: Vec<String>) -> (r: Result<PackageSummary, Error>)
        requires
            all_found(self@, names_view(packages@)) ==> sizes_total(
                resolved(self@, names_view(packages@)),
            ) <= usize::MAX,
        ensures
            r is Ok <==> all_found(self@, names_view(packages@)),
            r matches Ok(s) ==> {
                &&& s.count == resolved(self@, names_view(packages@)).len() as u32
                &&& s.total_size == sizes_total(resolved(self@, names_view(packages@)))
            },
            r matches Err(e) ==> e.kind == ErrorKind::PackageNotFound && e.parent is None,
    {
        let packages = match self.get_packages(&packages) {
            Ok(p) => p,
            Err(e) => {
                return Err(e);
            },
        };
        let ghost all = packages_view(packages@);
        let mut total: usize = 0;
        let mut i: usize = 0;
        while i < packages.len()
            invariant
                i <= packages.len(),
                all == packages_view(packages@),
                sizes_total(all) <= usize::MAX,
                total == sizes_total(all.take(i as int)),
            decreases packages.len() - i,
        {
            assert(all.take(i + 1).drop_last() =~= all.take(i as int));
            proof {
                lemma_sizes_total_prefix(all, i as int + 1);
            }
            total = total + packages[i].installed_size;
            i = i + 1;
        }
        assert(all.take(i as int) =~= all);
        #[verifier::truncate]
        let count = packages.len() as u32;
        Ok(PackageSummary { count, total_size: total })
    }

    /// Get a package by its name: from the first pacman database that has it, else from the AUR.
    pub fn get_package(&self, package_name: &String) -> (r: Result<Package, Error>)
        ensures
            lookup_answer(find_in_dbs(self@, package_name@), r),
    {
        match lookup_in(&self.databases, package_name) {
            Some(p) => Ok(p),
            None => self.aur_db.get_package(package_name),
        }
    }

    /// Get the packages that the names resolve to, each package once; fails on the first name
    /// that is not found.
    pub fn get_packages(&self, package_names: &Vec<String>) -> (r: Result<Vec<Package>, Error>)
        ensures
            r is Ok <==> all_found(self@, names_view(package_names@)),
            r matches Ok(v) ==> packages_view(v@) == resolved(self@, names_view(package_names@)),
            r matches Err(e) ==> e.kind == ErrorKind::PackageNotFound && e.parent is None,
    {
        let mut packages: Vec<Package> = Vec::new();
        let mut i: usize = 0;
        while i < package_names.len()
            invariant
                i <= package_names.len(),
                all_found(self@, names_view(package_names@.take(i as int))),
                packages_view(packages@) == resolved(self@, names_view(package_names@.take(i as int))),
            decreases package_names.len() - i,
        {
            let ghost names_before = names_view(package_names@.take(i as int));
            let ghost names_after = names_view(package_names@.take(i + 1));
            assert(names_after =~= names_before.push(package_names@[i as int]@));
            let p = match self.get_package(&package_names[i]) {
                Ok(p) => p,
                Err(e) => {
                    assert(names_view(package_names@)[i as int] == package_names@[i as int]@);
                    assert(find_in_dbs(self@, names_view(package_names@)[i as int]) is None);
                    return Err(e);
                },
            };
            let ghost d = packages_view(packages@);
            let mut present = false;
            let mut k: usize = 0;
            while k < packages.len()
                invariant
                    k <= packages.len(),
                    d == packages_view(packages@),
                    present <==> exists|m: int| 0 <= m < k && same_package(#[trigger] d[m], p@),
                decreases packages.len() - k,
            {
                assert(d[k as int] == packages@[k as int]@);
                if packages[k].name == p.name && packages[k].version == p.version {
                    present = true;
                }
                k = k + 1;
            }
            assert(found_packages(self@, names_after) =~= found_packages(self@, names_before).push(p@));
            assert(found_packages(self@, names_after).drop_last() =~= found_packages(self@, names_before));
            if !present {
                packages.push(p);
                assert(packages_view(packages@) =~= d.push(p@));
            }
            assert forall|m: int| 0 <= m < names_after.len() implies (#[trigger] find_in_dbs(
                self@,
                names_after[m],
            )) is Some by {
                if m < names_before.len() {
                    assert(names_after[m] == names_before[m]);
                }
            }
            i = i + 1;
        }
        assert(package_names@.take(i as int) =~= package_names@);
        Ok(packages)
    }

    /// The dependencies of the packages that the names resolve to, each once, with the package
    /// that each one resolves to, if any; fails on the first name that is not found.
    pub fn dependencies(&self, package_names: &Vec<String>) -> (r: Result<
        Vec<(Dependency, Option<Package>)>,
        Error,
    >)
        ensures
            r is Ok <==> all_found(self@, names_view(package_names@)),
            r matches Ok(v) ==> {
                &&& v.len() == dependency_keys(self@, names_view(package_names@)).len()
                &&& forall|k: int|
                    0 <= k < v.len() ==> {
                        &&& (#[trigger] v@[k]).0@ == dependency_keys(
                            self@,
                            names_view(package_names@),
                        )[k]
                        &&& opt_package_view(v@[k].1) == find_in_dbs(self@, v@[k].0.name@)
                    }
            },
            r matches Err(e) ==> e.kind == ErrorKind::PackageNotFound && e.parent is None,
    {
        let packages = match self.get_packages(package_names) {
            Ok(p) => p,
            Err(e) => {
                return Err(e);
            },
        };
        let ghost pkgs = packages_view(packages@);
        let mut ret: Vec<(Dependency, Option<Package>)> = Vec::new();
        let mut i: usize = 0;
        while i < packages.len()
            invariant
                i <= packages.len(),
                pkgs == packages_view(packages@),
                ret.len() == distinct(all_depends(pkgs.take(i as int))).len(),
                forall|k: int|
                    0 <= k < ret.len() ==> {
                        &&& (#[trigger] ret@[k]).0@ == distinct(all_depends(pkgs.take(i as int)))[k]
                        &&& opt_package_view(ret@[k].1) == find_in_dbs(self@, ret@[k].0.name@)
                    },
            decreases packages.len() - i,
        {
            assert(pkgs.take(i + 1).drop_last() =~= pkgs.take(i as int));
            assert(pkgs.take(i + 1).last() == packages@[i as int]@);
            let ghost base = all_depends(pkgs.take(i as int));
            let deps = &packages[i].depends;
            let mut j: usize = 0;
            while j < deps.len()
                invariant
                    j <= deps.len(),
                    ret.len() == distinct(base + dependencies_view(deps@).take(j as int)).len(),
                    forall|k: int|
                        0 <= k < ret.len() ==> {
                            &&& (#[trigger] ret@[k]).0@ == distinct(
                                base + dependencies_view(deps@).take(j as int),
                            )[k]
                            &&& opt_package_view(ret@[k].1) == find_in_dbs(self@, ret@[k].0.name@)
                        },
                decreases deps.len() - j,
            {
                let ghost before = base + dependencies_view(deps@).take(j as int);
                let ghost after = base + dependencies_view(deps@).take(j + 1);
                assert(after =~= before.push(deps@[j as int]@));
                assert(after.drop_last() =~= before);
                let ghost dist = distinct(before);
                let mut seen = false;
                let mut k: usize = 0;
                while k < ret.len()
                    invariant
                        j < deps.len(),
                        k <= ret.len(),
                        ret.len() == dist.len(),
                        forall|m: int| 0 <= m < ret.len() ==> (#[trigger] ret@[m]).0@ == dist[m],
                        seen <==> exists|m: int| 0 <= m < k && dist[m] == deps@[j as int]@,
                    decreases ret.len() - k,
                {
                    if same_dependency(&ret[k].0, &deps[j]) {
                        seen = true;
                    }
                    k = k + 1;
                }
                if !seen {
                    let found = match self.get_package(&deps[j].name) {
                        Ok(p) => Some(p),
                        Err(_) => None,
                    };
                    ret.push((deps[j].clone(), found));
                    assert(!dist.contains(deps@[j as int]@));
                } else {
                    assert(dist.contains(deps@[j as int]@));
                }
                j = j + 1;
            }
            assert(dependencies_view(deps@).take(deps.len() as int) =~= dependencies_view(deps@));
            i = i + 1;
        }
        assert(pkgs.take(i as int) =~= pkgs);
        Ok(ret)
    }

    /// Searching by keywords is not implemented: always answers so.
    pub fn search(&self, keywords: Vec<String>) -> (r: Result<Vec<Package>, Error>)
        ensures
            r matches Err(e) && e.kind == ErrorKind::NotYetImplemented && e.parent is None,
    {
        Err(error_of(ErrorKind::NotYetImplemented))
    }

    /// Installing is not implemented: always answers so.
    pub fn install(&self, packages: Vec<String>) -> (r: Result<(), Error>)
        ensures
            r matches Err(e) && e.kind == ErrorKind::NotYetImplemented && e.parent is None,
    {
        Err(error_of(ErrorKind::NotYetImplemented))
    }
}

/// A total of sizes is never negative.
pub proof fn lemma_sizes_total_nonneg(s: Seq<PackageView>)
    ensures
        0 <= sizes_total(s),
    decreases s.len(),
{
    if s.len() > 0 {
        lemma_sizes_total_nonneg(s.drop_last());
    }
}

/// The total of a prefix is at most the total of the whole.
pub proof fn lemma_sizes_total_prefix(s: Seq<PackageView>, n: int)
    requires
        0 <= n <= s.len(),
    ensures
        sizes_total(s.take(n)) <= sizes_total(s),
    decreases s.len() - n,
{
    if n < s.len() {
        lemma_sizes_total_prefix(s, n + 1);
        assert(s.take(n + 1).drop_last() =~= s.take(n));
    } else {
        assert(s.take(n) =~= s);
    }
}

/// The law of resolution by name: when every name is found, the packages that the names resolve
/// to hold no package twice (by name and version), hold the same package as each one found, and
/// hold only packages found under one of the names.
pub proof fn lemma_resolved(dbs: Seq<Seq<PackageView>>, names: Seq<Seq<char>>)
    requires
        all_found(dbs, names),
    ensures
        forall|i: int, j: int|
            0 <= i < j < resolved(dbs, names).len() ==> !same_package(
                resolved(dbs, names)[i],
                resolved(dbs, names)[j],
            ),
        forall|k: int|
            0 <= k < names.len() ==> holds_same(
                resolved(dbs, names),
                (#[trigger] find_in_dbs(dbs, names[k])).unwrap(),
            ),
        forall|k: int|
            0 <= k < resolved(dbs, names).len() ==> exists|i: int|
                0 <= i < names.len() && find_in_dbs(dbs, #[trigger] names[i]) == Some(
                    #[trigger] resolved(dbs, names)[k],
                ),
{
    let f = found_packages(dbs, names);
    lemma_unique_packages(f);
    assert forall|k: int| 0 <= k < names.len() implies holds_same(
        resolved(dbs, names),
        (#[trigger] find_in_dbs(dbs, names[k])).unwrap(),
    ) by {
        assert(f[k] == find_in_dbs(dbs, names[k]).unwrap());
    }
    assert forall|k: int| 0 <= k < resolved(dbs, names).len() implies exists|i: int|
        0 <= i < names.len() && find_in_dbs(dbs, #[trigger] names[i]) == Some(
            #[trigger] resolved(dbs, names)[k],
        ) by {
        let i = choose|i: int| 0 <= i < f.len() && f[i] == resolved(dbs, names)[k];
        assert(find_in_dbs(dbs, names[i]) is Some);
    }
}

/// A dependency is among the dependencies of the packages exactly when one of them lists it.
pub proof fn lemma_all_depends(s: Seq<PackageView>)
    ensures
        forall|d: DependencyView|
            all_depends(s).contains(d) <==> exists|k: int, j: int|
                0 <= k < s.len() && 0 <= j < s[k].depends.len() && #[trigger] s[k].depends[j] == d,
    decreases s.len(),
{
    if s.len() > 0 {
        let t = s.drop_last();
        lemma_all_depends(t);
        let a = all_depends(t);
        let l = s.last().depends;
        assert forall|d: DependencyView| all_depends(s).contains(d) <==> exists|k: int, j: int|
            0 <= k < s.len() && 0 <= j < s[k].depends.len() && #[trigger] s[k].depends[j] == d by {
            if all_depends(s).contains(d) {
                let x = choose|x: int| 0 <= x < (a + l).len() && (a + l)[x] == d;
                if x < a.len() {
                    assert(a.contains(d));
                    let (k, j) = choose|k: int, j: int|
                        0 <= k < t.len() && 0 <= j < t[k].depends.len() && #[trigger] t[k].depends[j] == d;
                    assert(s[k] == t[k]);
                } else {
                    assert(s[s.len() - 1].depends[x - a.len()] == d);
                }
            }
            if exists|k: int, j: int|
                0 <= k < s.len() && 0 <= j < s[k].depends.len() && #[trigger] s[k].depends[j] == d {
                let (k, j) = choose|k: int, j: int|
                    0 <= k < s.len() && 0 <= j < s[k].depends.len() && #[trigger] s[k].depends[j] == d;
                if k < s.len() - 1 {
                    assert(t[k] == s[k]);
                    assert(t[k].depends[j] == d);
                    assert(exists|k2: int, j2: int|
                        0 <= k2 < t.len() && 0 <= j2 < t[k2].depends.len() && #[trigger] t[k2].depends[j2] == d);
                    assert(a.contains(d));
                    let x = choose|x: int| 0 <= x < a.len() && a[x] == d;
                    assert((a + l)[x] == d);
                } else {
                    assert((a + l)[a.len() + j] == d);
                }
            }
        }
    }
}

/// The law of the dependencies of resolved packages: no dependency twice, and exactly the
/// dependencies that the resolved packages list.
pub proof fn lemma_dependency_keys(dbs: Seq<Seq<PackageView>>, names: Seq<Seq<char>>)
    ensures
        forall|i: int, j: int|
            0 <= i < j < dependency_keys(dbs, names).len() ==> dependency_keys(dbs, names)[i]
                != dependency_keys(dbs, names)[j],
        forall|d: DependencyView|
            dependency_keys(dbs, names).contains(d) <==> exists|k: int, j: int|
                0 <= k < resolved(dbs, names).len() && 0 <= j < resolved(dbs, names)[k].depends.len()
                    && #[trigger] resolved(dbs, names)[k].depends[j] == d,
{
    let r = resolved(dbs, names);
    lemma_distinct(all_depends(r));
    lemma_all_depends(r);
    assert forall|d: DependencyView|
        dependency_keys(dbs, names).contains(d) <==> exists|k: int, j: int|
            0 <= k < r.len() && 0 <= j < r[k].depends.len() && #[trigger] r[k].depends[j] == d by {
        assert(dependency_keys(dbs, names).contains(d) <==> all_depends(r).contains(d));
    }
}

/// What the dependencies of resolved packages are, in terms of the names: when every name is
/// found, a dependency is among them exactly when the package found under one of the names lists
/// it.
pub proof fn lemma_dependency_keys_by_name(dbs: Seq<Seq<PackageView>>, names: Seq<Seq<char>>)
    requires
        all_found(dbs, names),
    ensures
        forall|d: DependencyView|
            dependency_keys(dbs, names).contains(d) <==> exists|i: int, j: int|
                0 <= i < names.len() && 0 <= j < find_in_dbs(dbs, names[i]).unwrap().depends.len()
                    && #[trigger] find_in_dbs(dbs, names[i]).unwrap().depends[j] == d,
{
    let r = resolved(dbs, names);
    lemma_resolved(dbs, names);
    lemma_dependency_keys(dbs, names);
    assert forall|d: DependencyView|
        dependency_keys(dbs, names).contains(d) <==> exists|i: int, j: int|
            0 <= i < names.len() && 0 <= j < find_in_dbs(dbs, names[i]).unwrap().depends.len()
                && #[trigger] find_in_dbs(dbs, names[i]).unwrap().depends[j] == d by {
        if dependency_keys(dbs, names).contains(d) {
            let (k, j) = choose|k: int, j: int|
                0 <= k < r.len() && 0 <= j < r[k].depends.len() && #[trigger] r[k].depends[j] == d;
            let i = choose|i: int|
                0 <= i < names.len() && find_in_dbs(dbs, #[trigger] names[i]) == Some(r[k]);
            assert(find_in_dbs(dbs, names[i]).unwrap().depends[j] == d);
        }
        if exists|i: int, j: int|
            0 <= i < names.len() && 0 <= j < find_in_dbs(dbs, names[i]).unwrap().depends.len()
                && #[trigger] find_in_dbs(dbs, names[i]).unwrap().depends[j] == d {
            let (i, j) = choose|i: int, j: int|
                0 <= i < names.len() && 0 <= j < find_in_dbs(dbs, names[i]).unwrap().depends.len()
                    && #[trigger] find_in_dbs(dbs, names[i]).unwrap().depends[j] == d;
            let p = find_in_dbs(dbs, names[i]).unwrap();
            assert(find_in_dbs(dbs, names[i]) is Some);
            assert(holds_same(r, p));
            let k = choose|k: int| 0 <= k < r.len() && same_package(#[trigger] r[k], p);
            let i2 = choose|i2: int|
                0 <= i2 < names.len() && find_in_dbs(dbs, #[trigger] names[i2]) == Some(r[k]);
            crate::closure::lemma_find_in_dbs_found(dbs, names[i]);
            crate::closure::lemma_find_in_dbs_found(dbs, names[i2]);
            assert(names[i2] == names[i]);
            assert(r[k] == p);
            assert(r[k].depends[j] == d);
        }
    }
}

/// The law of name lists: two lists of the same names, in any order and with any repetition,
/// succeed or fail alike, and when they succeed they give the same dependencies (each with the
/// package of its name, as `Opman::dependencies` states).
pub proof fn lemma_dependencies_same_names(
    dbs: Seq<Seq<PackageView>>,
    names1: Seq<Seq<char>>,
    names2: Seq<Seq<char>>,
)
    requires
        forall|n: Seq<char>| names1.contains(n) <==> names2.contains(n),
    ensures
        all_found(dbs, names1) <==> all_found(dbs, names2),
        all_found(dbs, names1) ==> forall|d: DependencyView|
            dependency_keys(dbs, names1).contains(d) <==> dependency_keys(dbs, names2).contains(d),
{
    assert(all_found(dbs, names1) ==> all_found(dbs, names2)) by {
        if all_found(dbs, names1) {
            assert forall|i: int| 0 <= i < names2.len() implies (#[trigger] find_in_dbs(
                dbs,
                names2[i],
            )) is Some by {
                assert(names2.contains(names2[i]));
                let k = choose|k: int| 0 <= k < names1.len() && names1[k] == names2[i];
                assert(find_in_dbs(dbs, names1[k]) is Some);
            }
        }
    }
    assert(all_found(dbs, names2) ==> all_found(dbs, names1)) by {
        if all_found(dbs, names2) {
            assert forall|i: int| 0 <= i < names1.len() implies (#[trigger] find_in_dbs(
                dbs,
                names1[i],
            )) is Some by {
                assert(names1.contains(names1[i]));
                let k = choose|k: int| 0 <= k < names2.len() && names2[k] == names1[i];
                assert(find_in_dbs(dbs, names2[k]) is Some);
            }
        }
    }
    if all_found(dbs, names1) {
        lemma_dependency_keys_by_name(dbs, names1);
        lemma_dependency_keys_by_name(dbs, names2);
        assert forall|d: DependencyView|
            dependency_keys(dbs, names1).contains(d) <==> dependency_keys(dbs, names2).contains(
                d,
            ) by {
            if dependency_keys(dbs, names1).contains(d) {
                let (i, j) = choose|i: int, j: int|
                    0 <= i < names1.len() && 0 <= j < find_in_dbs(dbs, names1[i]).unwrap().depends.len()
                        && #[trigger] find_in_dbs(dbs, names1[i]).unwrap().depends[j] == d;
                assert(names1.contains(names1[i]));
                let k = choose|k: int| 0 <= k < names2.len() && names2[k] == names1[i];
                assert(find_in_dbs(dbs, names2[k]).unwrap().depends[j] == d);
            }
            if dependency_keys(dbs, names2).contains(d) {
                let (i, j) = choose|i: int, j: int|
                    0 <= i < names2.len() && 0 <= j < find_in_dbs(dbs, names2[i]).unwrap().depends.len()
                        && #[trigger] find_in_dbs(dbs, names2[i]).unwrap().depends[j] == d;
                assert(names2.contains(names2[i]));
                let k = choose|k: int| 0 <= k < names1.len() && names1[k] == names2[i];
                assert(find_in_dbs(dbs, names1[k]).unwrap().depends[j] == d);
            }
        }
    }
}

} // verus!
