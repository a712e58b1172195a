//! Package metadata records.
use vstd::prelude::*;

verus! {

/// Whether a package carries sources or binaries.
#[derive(Clone, Copy, Debug, PartialEq, Eq, Structural)]
pub enum PackageType {
    SourcePackage,
    BinaryPackage,
}

/// The one distribution package format the builder produces.
#[derive(Clone, Copy, Debug, PartialEq, Eq, Structural)]
pub enum PackageFormat {
    RpmPackage,
}

/// Identity of a distribution package.
#[derive(Debug)]
pub struct PackageInfo {
    pub name: String,
    pub kind: PackageType,
    pub arch: String,
    pub epoch: String,
    pub version: String,
    pub release: String,
    pub license: String,
    pub source_pkg: String,
}

impl PackageInfo {
    /// `<name>-<version>-<release>`.
    pub fn short_name(&self) -> (r: String)
        ensures
            r@ == self.name@ + "-"@ + self.version@ + "-"@ + self.release@,
    {
        let mut r = self.name.clone();
        r.append("-");
        r.append(self.version.as_str());
        r.append("-");
        r.append(self.release.as_str());
        r
    }

    /// `<name>-<version>-<release>.<arch>`.
    pub fn full_name(&self) -> (r: String)
        ensures
            r@ == self.name@ + "-"@ + self.version@ + "-"@ + self.release@ + "."@ + self.arch@,
    {
        let mut r = self.short_name();
        r.append(".");
        r.append(self.arch.as_str());
        r
    }

    /// This source package is the source of the given binary package.
    pub fn is_source_of(&self, pkg_info: &PackageInfo) -> (r: bool)
        ensures
            r == (self.kind == PackageType::SourcePackage && pkg_info.kind
                == PackageType::BinaryPackage && self.source_pkg@ == pkg_info.source_pkg@),
    {
        matches!(self.kind, PackageType::SourcePackage) && matches!(
            pkg_info.kind,
            PackageType::BinaryPackage,
        ) && self.source_pkg.eq(&pkg_info.source_pkg)
    }
}

} // verus!
