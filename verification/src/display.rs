use vstd::prelude::*;
use vstd::string::StringExecFns;

use crate::package::{Package, PackageView};

verus! {

/// The text that shows a package: `db/name version`, then, unless compact, its description on
/// an indented line of its own.
pub open spec fn package_text(p: PackageView, compact: bool) -> Seq<char> {
    let head = p.db_name + "/"@ + p.name + " "@ + p.version;
    if compact {
        head + "\n"@
    } else {
        head + "\n\t"@ + p.desc.unwrap() + "\n"@
    }
}

/// The text that shows a package; a full one needs the package's description.
pub fn format_package(pkg: &Package, compact: bool) -> (s: String)
    requires
        compact || pkg.desc is Some,
    ensures
        s@ == package_text(pkg@, compact),
{
    let mut s = pkg.db_name.clone();
    s.append("/");
    s.append(pkg.name.as_str());
    s.append(" ");
    s.append(pkg.version.as_str());
    if !compact {
        s.append("\n\t");
        match &pkg.desc {
            Some(d) => s.append(d.as_str()),
            None => {},
        }
    }
    s.append("\n");
    s
}

} // verus!
