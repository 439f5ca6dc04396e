use vstd::prelude::*;
use vstd::string::StringExecFns;

use crate::error::opt_string_view;

verus! {

/// A dependency of a package: the name of what is needed and, optionally,
/// the version constraint on it.
#[derive(Debug)]
pub struct Dependency {
    pub name: String,
    pub version: Option<String>,
}

/// The mathematical value of a [`Dependency`].
pub struct DependencyView {
    pub name: Seq<char>,
    pub version: Option<Seq<char>>,
}

impl View for Dependency {
    type V = DependencyView;

    open spec fn view(&self) -> DependencyView {
        DependencyView { name: self.name@, version: opt_string_view(self.version) }
    }
}

/// The text shown for a dependency: its name, then its version after a space.
pub open spec fn dependency_text(d: DependencyView) -> Seq<char> {
    match d.version {
        Some(v) => d.name + " "@ + v,
        None => d.name,
    }
}

/// A copy of an optional string.
pub fn copy_opt_string(s: &Option<String>) -> (r: Option<String>)
    ensures
        opt_string_view(r) == opt_string_view(*s),
{
    match s {
        Some(t) => Some(t.clone()),
        None => None,
    }
}

impl Clone for Dependency {
    fn clone(&self) -> (r: Self)
        ensures
            r@ == self@,
    {
        Dependency { name: self.name.clone(), version: copy_opt_string(&self.version) }
    }
}

impl Dependency {
    /// The human-readable text of this dependency.
    pub fn to_string(&self) -> (s: String)
        ensures
            s@ == dependency_text(self@),
    {
        let mut s = self.name.clone();
        match &self.version {
            Some(v) => {
                s.append(" ");
                s.append(v.as_str());
            },
            None => {},
        }
        s
    }
}

/// Why a package was installed.
#[derive(Debug, Clone, Copy, PartialEq, Eq, Structural)]
pub enum PackageReason {
    /// Installed on its own, by request.
    Explicit,
    /// Installed as a dependency of another package.
    Depend,
}

/// The ways in which a package was validated, as the bits of a flag set.
#[derive(Debug, Clone, Copy, PartialEq, Eq, Structural)]
pub struct PackageValidation {
    pub bits: u32,
}

/// A package as the databases describe it.
#[derive(Debug)]
pub struct Package {
    pub name: String,
    pub version: String,
    pub desc: Option<String>,
    pub arch: Option<String>,
    pub db_name: String,
    pub url: Option<String>,
    pub licenses: Vec<String>,
    pub groups: Vec<String>,
    pub provides: Vec<Dependency>,
    pub depends: Vec<Dependency>,
    pub depends_optional: Vec<Dependency>,
    pub required_by: Vec<String>,
    pub required_by_optional: Vec<String>,
    pub conflicts: Vec<Dependency>,
    pub replaces: Vec<Dependency>,
    pub installed_size: usize,
    pub packager: Option<String>,
    pub build_date: usize,
    pub install_date: Option<usize>,
    pub install_reason: PackageReason,
    pub validation: PackageValidation,
}

/// The mathematical value of a [`Package`].
pub struct PackageView {
    pub name: Seq<char>,
    pub version: Seq<char>,
    pub desc: Option<Seq<char>>,
    pub arch: Option<Seq<char>>,
    pub db_name: Seq<char>,
    pub url: Option<Seq<char>>,
    pub licenses: Seq<Seq<char>>,
    pub groups: Seq<Seq<char>>,
    pub provides: Seq<DependencyView>,
    pub depends: Seq<DependencyView>,
    pub depends_optional: Seq<DependencyView>,
    pub required_by: Seq<Seq<char>>,
    pub required_by_optional: Seq<Seq<char>>,
    pub conflicts: Seq<DependencyView>,
    pub replaces: Seq<DependencyView>,
    pub installed_size: usize,
    pub packager: Option<Seq<char>>,
    pub build_date: usize,
    pub install_date: Option<usize>,
    pub install_reason: PackageReason,
    pub validation: PackageValidation,
}

/// The views of a sequence of strings.
pub open spec fn strings_view(s: Seq<String>) -> Seq<Seq<char>> {
    s.map_values(|t: String| t@)
}

/// The views of a sequence of dependencies.
pub open spec fn dependencies_view(s: Seq<Dependency>) -> Seq<DependencyView> {
    s.map_values(|d: Dependency| d@)
}

/// The views of a sequence of packages.
pub open spec fn packages_view(s: Seq<Package>) -> Seq<PackageView> {
    s.map_values(|p: Package| p@)
}

impl View for Package {
    type V = PackageView;

    open spec fn view(&self) -> PackageView {
        PackageView {
            name: self.name@,
            version: self.version@,
            desc: opt_string_view(self.desc),
            arch: opt_string_view(self.arch),
            db_name: self.db_name@,
            url: opt_string_view(self.url),
            licenses: strings_view(self.licenses@),
            groups: strings_view(self.groups@),
            provides: dependencies_view(self.provides@),
            depends: dependencies_view(self.depends@),
            depends_optional: dependencies_view(self.depends_optional@),
            required_by: strings_view(self.required_by@),
            required_by_optional: strings_view(self.required_by_optional@),
            conflicts: dependencies_view(self.conflicts@),
            replaces: dependencies_view(self.replaces@),
            installed_size: self.installed_size,
            packager: opt_string_view(self.packager),
            build_date: self.build_date,
            install_date: self.install_date,
            install_reason: self.install_reason,
            validation: self.validation,
        }
    }
}

/// A copy of a list of strings.
pub fn copy_strings(v: &Vec<String>) -> (r: Vec<String>)
    ensures
        strings_view(r@) == strings_view(v@),
{
    let r = v.clone();
    assert(strings_view(r@) =~= strings_view(v@));
    r
}

/// A copy of a list of dependencies.
pub fn copy_dependencies(v: &Vec<Dependency>) -> (r: Vec<Dependency>)
    ensures
        dependencies_view(r@) == dependencies_view(v@),
{
    let r = v.clone();
    assert(dependencies_view(r@) =~= dependencies_view(v@));
    r
}

impl Clone for Package {
    fn clone(&self) -> (r: Self)
        ensures
            r@ == self@,
    {
        Package {
            name: self.name.clone(),
            version: self.version.clone(),
            desc: copy_opt_string(&self.desc),
            arch: copy_opt_string(&self.arch),
            db_name: self.db_name.clone(),
            url: copy_opt_string(&self.url),
            licenses: copy_strings(&self.licenses),
            groups: copy_strings(&self.groups),
            provides: copy_dependencies(&self.provides),
            depends: copy_dependencies(&self.depends),
            depends_optional: copy_dependencies(&self.depends_optional),
            required_by: copy_strings(&self.required_by),
            required_by_optional: copy_strings(&self.required_by_optional),
            conflicts: copy_dependencies(&self.conflicts),
            replaces: copy_dependencies(&self.replaces),
            installed_size: self.installed_size,
            packager: copy_opt_string(&self.packager),
            build_date: self.build_date,
            install_date: self.install_date,
            install_reason: self.install_reason,
            validation: self.validation,
        }
    }
}

/// Two packages are the same package when their names and versions agree.
pub open spec fn same_package(a: PackageView, b: PackageView) -> bool {
    a.name == b.name && a.version == b.version
}

impl PartialEq for Package {
    fn eq(&self, other: &Self) -> (r: bool) {
        self.name == other.name && self.version == other.version
    }
}

impl vstd::std_specs::cmp::PartialEqSpecImpl for Package {
    open spec fn obeys_eq_spec() -> bool {
        true
    }

    open spec fn eq_spec(&self, other: &Package) -> bool {
        same_package(self@, other@)
    }
}

impl Eq for Package {}

} // verus!
