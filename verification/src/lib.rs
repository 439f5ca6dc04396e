//! Package queries over snapshots of pacman databases: lookup of packages across the
//! databases in order, resolution of names and dependencies, the closure of a set of
//! packages under their dependencies, and summaries of package sets.

pub mod closure;
pub mod database;
pub mod display;
pub mod error;
pub mod ops;
pub mod package;
pub mod package_ops;

pub use database::{Aur, Database, PackageDb};
pub use error::{Error, ErrorKind};
pub use ops::{Opman, PackageSummary};
pub use package::{Dependency, Package, PackageReason, PackageValidation};
pub use package_ops::{PackageOps, PackagesReport};
