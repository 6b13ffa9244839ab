//! What the program tells the driver about itself.

use vstd::prelude::*;

use crate::text;

verus! {

broadcast use vstd::string::group_string_axioms;

/// `ash::vk::make_api_version` packs the four parts of a version: the variant from
/// bit 29 up, the major version from bit 22, the minor one from bit 12, and the
/// patch.
pub assume_specification[ ash::vk::make_api_version ](
    variant: u32,
    major: u32,
    minor: u32,
    patch: u32,
) -> (r: u32)
    ensures
        r == (variant << 29) | (major << 22) | (minor << 12) | patch,
;

/// The name and the version of a program, as its package states them.
#[derive(Debug, Clone, Copy)]
pub struct Package<'a> {
    pub name: &'a str,
    pub version_major: &'a str,
    pub version_minor: &'a str,
    pub version_patch: &'a str,
}

/// What is wrong with a package.
#[derive(Debug, Clone, Copy, PartialEq, Eq, Structural)]
pub enum PackageError {
    Name,
    Major,
    Minor,
    Patch,
}

impl PackageError {
    /// The error as a message to the user.
    pub open spec fn text(self) -> Seq<char> {
        match self {
            PackageError::Name => "invalid package name"@,
            PackageError::Major => "invalid major version"@,
            PackageError::Minor => "invalid minor version"@,
            PackageError::Patch => "invalid patch version"@,
        }
    }

    /// The error as a message to the user.
    pub fn message(&self) -> (r: &'static str)
        ensures
            r@ == self.text(),
    {
        match self {
            PackageError::Name => "invalid package name",
            PackageError::Major => "invalid major version",
            PackageError::Minor => "invalid minor version",
            PackageError::Patch => "invalid patch version",
        }
    }
}

/// What the program tells the driver about itself.
#[derive(Debug)]
pub struct ApplicationInfo {
    pub application_name: Option<String>,
    pub application_version: u32,
    pub api_version: u32,
}

/// The first thing that is wrong with a package.
pub open spec fn package_error(p: Package) -> Option<PackageError> {
    if p.name@.contains('\0') {
        Some(PackageError::Name)
    } else if text::number_of(p.version_major@) is None {
        Some(PackageError::Major)
    } else if text::number_of(p.version_minor@) is None {
        Some(PackageError::Minor)
    } else if text::number_of(p.version_patch@) is None {
        Some(PackageError::Patch)
    } else {
        None
    }
}

/// The version of a package, as one number.
pub open spec fn package_version(p: Package) -> u32 {
    (0u32 << 29) | (text::number_of(p.version_major@)->0 << 22) | (text::number_of(
        p.version_minor@,
    )->0 << 12) | text::number_of(p.version_patch@)->0
}

/// Taking over the name and the version of a package.
pub trait ApplicationInfoExt: Sized {
    /// `after` is `self` with the name and the version of `p`.
    spec fn is_from_env(self, p: Package, after: Self) -> bool;

    /// With the name and the version of `package`.
    fn application_from_env(self, package: &Package) -> (r: Result<Self, PackageError>)
        ensures
            match package_error(*package) {
                Some(e) => r is Err && r->Err_0 == e,
                None => r is Ok && self.is_from_env(*package, r->Ok_0),
            },
    ;
}

impl ApplicationInfoExt for ApplicationInfo {
    open spec fn is_from_env(self, p: Package, after: Self) -> bool {
        &&& after.application_name is Some
        &&& after.application_name->0@ == p.name@
        &&& after.application_version == package_version(p)
        &&& after.api_version == self.api_version
    }

    fn application_from_env(self, package: &Package) -> (r: Result<Self, PackageError>) {
        if text::has_nul(package.name) {
            return Err(PackageError::Name);
        }
        let major: u32 = match text::parse_number(package.version_major) {
            Some(n) => n,
            None => {
                return Err(PackageError::Major);
            },
        };
        let minor: u32 = match text::parse_number(package.version_minor) {
            Some(n) => n,
            None => {
                return Err(PackageError::Minor);
            },
        };
        let patch: u32 = match text::parse_number(package.version_patch) {
            Some(n) => n,
            None => {
                return Err(PackageError::Patch);
            },
        };
        Ok(
            ApplicationInfo {
                application_name: Some(package.name.to_owned()),
                application_version: ash::vk::make_api_version(0, major, minor, patch),
                api_version: self.api_version,
            },
        )
    }
}

/// A package is refused if and only if its name has a zero in it or one of the parts of
/// its version is no number, and the first of these is what is wrong with it.
pub proof fn first_flaw_counts(p: Package)
    ensures
        package_error(p) == Some(PackageError::Name) <==> p.name@.contains('\0'),
        package_error(p) == Some(PackageError::Major) <==> !p.name@.contains('\0')
            && text::number_of(p.version_major@) is None,
        package_error(p) == Some(PackageError::Minor) <==> !p.name@.contains('\0')
            && text::number_of(p.version_major@) is Some && text::number_of(p.version_minor@) is None,
        package_error(p) == Some(PackageError::Patch) <==> !p.name@.contains('\0')
            && text::number_of(p.version_major@) is Some && text::number_of(p.version_minor@) is Some
            && text::number_of(p.version_patch@) is None,
{
}

/// The version of a package is one number, in which the patch has twelve bits, the minor
/// version the ten above them and the major version those above that, where they fit. The
/// name is taken over as it is, and the version of the interface stays.
pub proof fn versions_are_packed(info: ApplicationInfo, p: Package, after: ApplicationInfo)
    requires
        info.is_from_env(p, after),
        text::number_of(p.version_major@) matches Some(major) && major < 0x400,
        text::number_of(p.version_minor@) matches Some(minor) && minor < 0x400,
        text::number_of(p.version_patch@) matches Some(patch) && patch < 0x1000,
    ensures
        after.application_version == 0x40_0000 * text::number_of(p.version_major@)->0 + 0x1000
            * text::number_of(p.version_minor@)->0 + text::number_of(p.version_patch@)->0,
        after.application_name matches Some(name) && name@ == p.name@,
        after.api_version == info.api_version,
{
    let major = text::number_of(p.version_major@)->0;
    let minor = text::number_of(p.version_minor@)->0;
    let patch = text::number_of(p.version_patch@)->0;
    assert((0u32 << 29) | (major << 22) | (minor << 12) | patch == 0x40_0000 * major + 0x1000 * minor
        + patch) by (bit_vector)
        requires
            major < 0x400,
            minor < 0x400,
            patch < 0x1000,
    ;
}

} // verus!
