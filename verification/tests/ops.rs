use opman::{
    Dependency, ErrorKind, Opman, Package, PackageDb, PackageReason, PackageSummary,
    PackageValidation,
};

fn dep(name: &str, version: Option<&str>) -> Dependency {
    Dependency { name: name.to_string(), version: version.map(|v| v.to_string()) }
}

fn package(db: &str, name: &str, version: &str, size: usize, depends: Vec<Dependency>) -> Package {
    Package {
        name: name.to_string(),
        version: version.to_string(),
        desc: Some(format!("the {} package", name)),
        arch: Some("x86_64".to_string()),
        db_name: db.to_string(),
        url: None,
        licenses: vec!["GPL".to_string()],
        groups: vec![],
        provides: vec![],
        depends,
        depends_optional: vec![],
        required_by: vec![],
        required_by_optional: vec![],
        conflicts: vec![],
        replaces: vec![],
        installed_size: size,
        packager: None,
        build_date: 1_700_000_000,
        install_date: None,
        install_reason: PackageReason::Explicit,
        validation: PackageValidation { bits: 0 },
    }
}

fn names(list: &[&str]) -> Vec<String> {
    list.iter().map(|s| s.to_string()).collect()
}

/// A system as pacman sees it: git and bash installed, their dependencies in the sync databases.
fn system() -> Opman {
    let git_deps = vec![
        dep("curl", None),
        dep("expat", None),
        dep("grep", None),
        dep("openssl", None),
        dep("pcre2", None),
        dep("perl", Some(">=5.14.0")),
        dep("perl-error", None),
        dep("perl-mailtools", None),
        dep("shadow", None),
        dep("zlib", None),
    ];
    let bash_deps = vec![
        dep("readline", None),
        dep("libreadline.so", Some("=8-64")),
        dep("glibc", None),
        dep("ncurses", None),
    ];
    let local = PackageDb::new(
        "local".to_string(),
        vec![
            package("local", "git", "2.42.0-1", 20_000_000, git_deps),
            package("local", "bash", "5.1.016-4", 9_000_000, bash_deps),
        ],
    );
    let core = PackageDb::new(
        "core".to_string(),
        vec![
            package("core", "curl", "8.3.0-1", 1_000, vec![dep("zlib", None), dep("openssl", None)]),
            package("core", "openssl", "3.1.3-1", 2_000, vec![dep("glibc", None)]),
            package("core", "zlib", "1:1.3-1", 300, vec![dep("glibc", None)]),
            package("core", "glibc", "2.38-5", 50_000, vec![]),
            package("core", "readline", "8.2.001-2", 800, vec![dep("glibc", None), dep("ncurses", None)]),
            package("core", "ncurses", "6.4-1", 900, vec![dep("glibc", None)]),
            package("core", "grep", "3.11-1", 700, vec![dep("pcre2", None)]),
            package("core", "pcre2", "10.42-2", 600, vec![]),
        ],
    );
    let extra = PackageDb::new(
        "extra".to_string(),
        vec![
            package("extra", "perl", "5.38.0-1", 60_000, vec![]),
            package("extra", "git", "2.43.0-1", 21_000_000, vec![]),
        ],
    );
    Opman::new(local, vec![core, extra])
}

#[test]
fn dependencies() {
    let opman = system();

    let git_deps = opman.dependencies(&vec!["git".to_string()]).unwrap();
    assert_eq!(git_deps.len(), 10);

    let bash_deps = opman.dependencies(&vec!["bash".to_string()]).unwrap();
    assert_eq!(bash_deps.len(), 4);
}

#[test]
fn dependencies_should_fail() {
    let opman = system();

    let deps = opman.dependencies(&vec!["this-package-does-not-exist".to_string()]);
    assert!(deps.is_err());
    assert_eq!(deps.unwrap_err().kind, ErrorKind::PackageNotFound);
}

#[test]
fn dependencies_resolve_each_dependency_to_its_package() {
    let opman = system();
    let deps = opman.dependencies(&names(&["bash"])).unwrap();
    let listed: Vec<(String, Option<String>)> = deps
        .iter()
        .map(|(d, p)| (d.to_string(), p.as_ref().map(|p| p.db_name.clone())))
        .collect();
    assert_eq!(
        listed,
        vec![
            ("readline".to_string(), Some("core".to_string())),
            ("libreadline.so =8-64".to_string(), None),
            ("glibc".to_string(), Some("core".to_string())),
            ("ncurses".to_string(), Some("core".to_string())),
        ]
    );
}

#[test]
fn dependencies_of_several_packages_are_listed_once() {
    let opman = system();
    let deps = opman.dependencies(&names(&["curl", "openssl", "curl"])).unwrap();
    let listed: Vec<String> = deps.iter().map(|(d, _)| d.name.clone()).collect();
    assert_eq!(listed, vec!["zlib", "openssl", "glibc"]);
}

#[test]
fn get_package_prefers_the_local_database() {
    let opman = system();
    let git = opman.get_package(&"git".to_string()).unwrap();
    assert_eq!(git.db_name, "local");
    assert_eq!(git.version, "2.42.0-1");
    let perl = opman.get_package(&"perl".to_string()).unwrap();
    assert_eq!(perl.db_name, "extra");
}

#[test]
fn get_package_of_an_unknown_name_is_not_found() {
    let opman = system();
    let err = opman.get_package(&"nope".to_string()).unwrap_err();
    assert_eq!(err.kind, ErrorKind::PackageNotFound);
    assert!(err.parent.is_none());
}

#[test]
fn get_packages_keeps_each_package_once() {
    let opman = system();
    let pkgs = opman.get_packages(&names(&["git", "zlib", "git", "zlib"])).unwrap();
    let listed: Vec<String> = pkgs.iter().map(|p| p.name.clone()).collect();
    assert_eq!(listed, vec!["git", "zlib"]);
}

#[test]
fn get_packages_fails_on_a_missing_name() {
    let opman = system();
    let err = opman.get_packages(&names(&["git", "missing", "zlib"])).unwrap_err();
    assert_eq!(err.kind, ErrorKind::PackageNotFound);
}

#[test]
fn summary_counts_and_sums() {
    let opman = system();
    let summary = opman.summary(names(&["curl", "zlib", "curl"])).unwrap();
    assert_eq!(summary, PackageSummary { count: 2, total_size: 1_300 });
    let empty = opman.summary(vec![]).unwrap();
    assert_eq!(empty, PackageSummary { count: 0, total_size: 0 });
}

#[test]
fn summary_of_a_missing_package_fails() {
    let opman = system();
    let err = opman.summary(names(&["missing"])).unwrap_err();
    assert_eq!(err.kind, ErrorKind::PackageNotFound);
}

#[test]
fn alpm_databases_are_local_first() {
    let opman = system();
    let listed: Vec<String> = opman.alpm_databases().iter().map(|d| d.name.clone()).collect();
    assert_eq!(listed, vec!["local", "core", "extra"]);
}

#[test]
fn search_and_install_are_not_implemented() {
    let opman = system();
    assert_eq!(opman.search(names(&["git"])).unwrap_err().kind, ErrorKind::NotYetImplemented);
    assert_eq!(opman.install(names(&["git"])).unwrap_err().kind, ErrorKind::NotYetImplemented);
}

#[test]
fn dependencies_depend_only_on_the_set_of_names() {
    let opman = system();
    let one = opman.dependencies(&names(&["curl", "bash"])).unwrap();
    let two = opman.dependencies(&names(&["bash", "curl", "bash"])).unwrap();
    let mut keys_one: Vec<(String, bool)> =
        one.iter().map(|(d, p)| (d.to_string(), p.is_some())).collect();
    let mut keys_two: Vec<(String, bool)> =
        two.iter().map(|(d, p)| (d.to_string(), p.is_some())).collect();
    keys_one.sort();
    keys_two.sort();
    assert_eq!(keys_one, keys_two);
    assert!(opman.dependencies(&names(&["bash", "nope"])).is_err());
    assert!(opman.dependencies(&names(&["nope", "bash", "bash"])).is_err());
}
