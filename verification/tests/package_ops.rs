use opman::display::format_package;
use opman::{
    Aur, Database, Dependency, Error, ErrorKind, Package, PackageDb, PackageOps, PackageReason,
    PackageValidation,
};

fn dep(name: &str) -> Dependency {
    Dependency { name: name.to_string(), version: None }
}

fn package(db: &str, name: &str, size: usize, depends: &[&str]) -> Package {
    Package {
        name: name.to_string(),
        version: "1.0-1".to_string(),
        desc: Some(format!("about {}", name)),
        arch: None,
        db_name: db.to_string(),
        url: None,
        licenses: vec![],
        groups: vec![],
        provides: vec![],
        depends: depends.iter().map(|d| dep(d)).collect(),
        depends_optional: vec![],
        required_by: vec![],
        required_by_optional: vec![],
        conflicts: vec![],
        replaces: vec![],
        installed_size: size,
        packager: None,
        build_date: 0,
        install_date: None,
        install_reason: PackageReason::Explicit,
        validation: PackageValidation { bits: 1 },
    }
}

fn installed(mut p: Package, reason: PackageReason) -> Package {
    p.install_date = Some(1_600_000_000);
    p.install_reason = reason;
    p
}

/// app -> lib -> (base, util); util -> (base, missing); base -> (app): a cycle through app.
fn tool() -> PackageOps {
    let local = PackageDb::new(
        "local".to_string(),
        vec![
            installed(package("local", "app", 10, &["lib", "ghost"]), PackageReason::Explicit),
            installed(package("local", "lib", 30, &["base", "util"]), PackageReason::Depend),
        ],
    );
    let core = PackageDb::new(
        "core".to_string(),
        vec![
            package("core", "base", 30, &["app"]),
            package("core", "util", 5, &["base", "missing"]),
            package("core", "lib", 99, &[]),
        ],
    );
    PackageOps::new(local, vec![core])
}

fn names_of(pkgs: &[Package]) -> Vec<String> {
    pkgs.iter().map(|p| p.name.clone()).collect()
}

#[test]
fn todo_test() {
    let ops = tool();
    let found = ops.find_packages(&vec!["app", "base"]).unwrap();
    assert_eq!(names_of(&found), vec!["app", "base"]);
    assert_eq!(found[0].db_name, "local");
}

#[test]
fn find_package_reports_the_missing_name() {
    let ops = tool();
    assert_eq!(ops.find_package("util").unwrap().db_name, "core");
    assert_eq!(ops.find_package("lib").unwrap().db_name, "local");
    assert_eq!(ops.find_package("nothing").unwrap_err(), "Could not find package nothing");
}

#[test]
fn find_packages_fails_on_the_first_missing_name() {
    let ops = tool();
    let err = ops.find_packages(&vec!["app", "first", "second"]).unwrap_err();
    assert_eq!(err, "Could not find package first");
}

#[test]
fn dependencies_walk_depth_first_once_per_name() {
    let ops = tool();
    let deps = ops.dependencies(&vec!["app"]);
    assert_eq!(names_of(&deps), vec!["app", "lib", "base", "util"]);
    assert_eq!(deps[1].db_name, "local");
}

#[test]
fn dependencies_keep_the_given_packages_first() {
    let ops = tool();
    let deps = ops.dependencies(&vec!["util", "util"]);
    assert_eq!(names_of(&deps), vec!["util", "util", "base", "app", "lib"]);
}

#[test]
fn dependency_closure_is_closed() {
    let ops = tool();
    let deps = ops.dependencies(&vec!["lib"]);
    let names = names_of(&deps);
    for p in &deps {
        for d in &p.depends {
            assert!(names.contains(&d.name) || ops.find_package(&d.name).is_err());
        }
    }
}

#[test]
fn summary_of_named_packages() {
    let ops = tool();
    let report = ops.summary(&vec!["app"]);
    assert_eq!(report.packages, 4);
    assert_eq!(report.installed, 2);
    assert_eq!(report.explicit, 1);
    assert_eq!(report.dependencies, 1);
    assert_eq!(report.bytes, 75);
    assert_eq!(report.largest.name, "lib");
}

#[test]
fn summary_of_the_local_database() {
    let ops = tool();
    let report = ops.summary(&vec![]);
    assert_eq!(report.packages, 2);
    assert_eq!(report.installed, 2);
    assert_eq!(report.bytes, 40);
    assert_eq!(report.largest.name, "lib");
}

#[test]
fn install_is_not_implemented() {
    let ops = tool();
    assert_eq!(ops.install(&vec!["app"]).unwrap_err().kind, ErrorKind::NotYetImplemented);
}

#[test]
fn database_lookups() {
    let db = PackageDb::new(
        "core".to_string(),
        vec![package("core", "a", 1, &["b", "c"]), package("core", "b", 2, &["c"]), package("core", "a", 3, &[])],
    );
    assert_eq!(db.db_name(), "core");
    assert_eq!(db.get_package(&"a".to_string()).unwrap().installed_size, 1);
    assert_eq!(db.get_package(&"z".to_string()).unwrap_err().kind, ErrorKind::PackageNotFound);
    assert_eq!(db.resolve_dependency(&dep("b")).unwrap().installed_size, 2);
    assert_eq!(names_of(&db.all_packages()), vec!["a", "b", "a"]);
    let listed: Vec<String> = db
        .dependencies(&vec![package("x", "b", 0, &[]), package("x", "z", 0, &[]), package("x", "a", 0, &[])])
        .iter()
        .map(|d| d.name.clone())
        .collect();
    assert_eq!(listed, vec!["c", "b", "c"]);
    let answers = db.get_packages(&vec!["b".to_string(), "z".to_string(), "b".to_string()]);
    assert_eq!(answers.len(), 2);
    assert_eq!(answers[0].0, "b");
    assert!(answers[0].1.is_ok());
    assert_eq!(answers[1].0, "z");
    assert!(answers[1].1.is_err());
}

#[test]
fn aur_has_no_package() {
    let aur = Aur::new();
    assert_eq!(aur.db_name(), "aur");
    assert_eq!(aur.get_package(&"yay".to_string()).unwrap_err().kind, ErrorKind::PackageNotFound);
    assert!(aur.all_packages().is_empty());
    assert!(aur.dependencies(&vec![package("x", "a", 0, &[])]).is_empty());
    assert!(aur.search_packages(vec!["yay".to_string()]).unwrap().is_empty());
}

#[test]
fn error_texts() {
    assert_eq!(ErrorKind::Success.to_string(), "Ok");
    assert_eq!(ErrorKind::NotYetImplemented.to_string(), "Not yet implemented");
    assert_eq!(ErrorKind::Unknown.to_string(), "Unknown error");
    let plain = Error::from(ErrorKind::PackageNotFound);
    assert_eq!(plain.kind, ErrorKind::PackageNotFound);
    assert!(plain.parent.is_none());
    assert_eq!(plain.to_string(), "Package not found");
    let caused = Error { kind: ErrorKind::Unknown, parent: Some("disk full".to_string()) };
    assert_eq!(caused.to_string(), "Unknown error: disk full");
}

#[test]
fn dependency_text() {
    assert_eq!(dep("glibc").to_string(), "glibc");
    let versioned = Dependency { name: "perl".to_string(), version: Some(">=5.14".to_string()) };
    assert_eq!(versioned.to_string(), "perl >=5.14");
    assert_eq!(versioned.clone().to_string(), "perl >=5.14");
}

#[test]
fn package_identity_is_name_and_version() {
    let a = package("core", "a", 1, &[]);
    let mut b = package("extra", "a", 2, &["x"]);
    assert!(a == b);
    b.version = "2.0-1".to_string();
    assert!(a != b);
    let c = a.clone();
    assert_eq!(c.name, "a");
    assert_eq!(c.desc, a.desc);
}

#[test]
fn package_lines() {
    let p = package("core", "zlib", 1, &[]);
    assert_eq!(format_package(&p, true), "core/zlib 1.0-1\n");
    assert_eq!(format_package(&p, false), "core/zlib 1.0-1\n\tabout zlib\n");
}

#[test]
fn summary_does_not_depend_on_order() {
    let pkgs = vec![
        installed(package("local", "a", 7, &[]), PackageReason::Depend),
        package("local", "b", 9, &[]),
        installed(package("local", "c", 9, &[]), PackageReason::Explicit),
    ];
    let reversed: Vec<Package> = pkgs.iter().rev().cloned().collect();
    let one = PackageOps::new(PackageDb::new("local".to_string(), pkgs), vec![]).summary(&vec![]);
    let two = PackageOps::new(PackageDb::new("local".to_string(), reversed), vec![]).summary(&vec![]);
    assert_eq!(
        (one.packages, one.installed, one.explicit, one.dependencies, one.bytes),
        (two.packages, two.installed, two.explicit, two.dependencies, two.bytes)
    );
    assert_eq!(one.largest.installed_size, two.largest.installed_size);
    assert_eq!(one.largest.name, "b");
    assert_eq!(two.largest.name, "c");
}

#[test]
fn aur_error_has_no_cause() {
    let err = Aur::new().get_package(&"yay".to_string()).unwrap_err();
    assert!(err.parent.is_none());
    assert_eq!(err.to_string(), "Package not found");
}

#[test]
fn summary_pkgs_does_not_depend_on_order() {
    let ops = tool();
    let pkgs = vec![package("x", "a", 3, &[]), package("x", "b", 8, &[]), package("x", "c", 1, &[])];
    let reversed: Vec<Package> = pkgs.iter().rev().cloned().collect();
    let one = ops.summary_pkgs(&pkgs);
    let two = ops.summary_pkgs(&reversed);
    assert_eq!((one.packages, one.bytes, one.installed), (two.packages, two.bytes, two.installed));
    assert_eq!(one.bytes, 12);
    assert_eq!(one.largest.name, "b");
    assert_eq!(two.largest.name, "b");
}
