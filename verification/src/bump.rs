//! Bump levels, and what each does to a version.
use crate::version::{Version, VersionView};
use vstd::prelude::*;

verus! {

/// A semver bump level. Ordered so that the greatest is the biggest bump
/// (`Patch < Minor < Major`).
#[derive(Debug, Clone, Copy, PartialEq, Eq, PartialOrd, Ord, Structural)]
pub enum Bump {
    Patch,
    Minor,
    Major,
}

impl Bump {
    /// Every level, smallest first.
    pub const ALL: [Bump; 3] = [Bump::Patch, Bump::Minor, Bump::Major];

    /// The place of the level in the order.
    pub open spec fn severity(self) -> nat {
        match self {
            Bump::Patch => 1,
            Bump::Minor => 2,
            Bump::Major => 3,
        }
    }

    /// What the level is called.
    pub open spec fn spec_label(self) -> Seq<char> {
        match self {
            Bump::Patch => "patch"@,
            Bump::Minor => "minor"@,
            Bump::Major => "major"@,
        }
    }

    /// Whether the number that the bump increments can still grow.
    pub open spec fn fits(self, version: VersionView) -> bool {
        match self {
            Bump::Patch => version.patch < u64::MAX,
            Bump::Minor => version.minor < u64::MAX,
            Bump::Major => version.major < u64::MAX,
        }
    }

    /// The version with the level's number incremented and the lower ones zeroed. The
    /// pre-release and the build metadata stay.
    pub open spec fn applied(self, version: VersionView) -> VersionView {
        match self {
            Bump::Patch => VersionView { patch: (version.patch + 1) as u64, ..version },
            Bump::Minor => VersionView { minor: (version.minor + 1) as u64, patch: 0, ..version },
            Bump::Major => VersionView {
                major: (version.major + 1) as u64,
                minor: 0,
                patch: 0,
                ..version
            },
        }
    }

    /// The place of the level in the order.
    pub fn rank(self) -> (r: u8)
        ensures
            r == self.severity(),
    {
        match self {
            Bump::Patch => 1,
            Bump::Minor => 2,
            Bump::Major => 3,
        }
    }

    /// What the level is called.
    pub fn label(self) -> (r: &'static str)
        ensures
            r@ == self.spec_label(),
    {
        match self {
            Bump::Patch => "patch",
            Bump::Minor => "minor",
            Bump::Major => "major",
        }
    }

    /// Applies the bump to a version. Apply it to the version before any bump that is not
    /// released yet: a patch bump of an already patched version increments it a second time.
    #[must_use]
    pub fn apply_to(self, version: &Version) -> (r: Version)
        requires
            self.fits(version@),
        ensures
            r@ == self.applied(version@),
    {
        match self {
            Bump::Patch => version.with_numbers(
                version.major(),
                version.minor(),
                version.patch() + 1,
            ),
            Bump::Minor => version.with_numbers(version.major(), version.minor() + 1, 0),
            Bump::Major => version.with_numbers(version.major() + 1, 0, 0),
        }
    }
}

/// A bump always moves the version up, whatever its level.
pub proof fn bump_increases_version(bump: Bump, version: VersionView)
    requires
        bump.fits(version),
    ensures
        version.numbers_less(bump.applied(version)),
        !version.same_numbers(bump.applied(version)),
{
}

/// A bigger bump of the same version gives a bigger version.
pub proof fn bigger_bump_gives_bigger_version(small: Bump, big: Bump, version: VersionView)
    requires
        small.fits(version),
        big.fits(version),
        small.severity() < big.severity(),
    ensures
        small.applied(version).numbers_less(big.applied(version)),
{
}

/// A version with a valid pre-release and build metadata keeps them through a bump.
pub proof fn bump_keeps_version_valid(bump: Bump, version: VersionView)
    requires
        version.valid(),
    ensures
        bump.applied(version).valid(),
        bump.applied(version).pre == version.pre,
        bump.applied(version).build == version.build,
{
}

/// A bump goes no further than it has to: between a version and its bump lie only versions that
/// differ from it in a smaller number than the one that is bumped.
pub proof fn a_bump_gives_the_next_version(bump: Bump, version: VersionView, between: VersionView)
    requires
        bump.fits(version),
        version.numbers_less(between),
        between.numbers_less(bump.applied(version)),
    ensures
        bump != Bump::Patch,
        between.major == version.major,
        bump == Bump::Minor ==> between.minor == version.minor,
{
}

/// A major bump weighs more than a minor one, and that more than a patch.
pub proof fn levels_are_ordered()
    ensures
        0 < Bump::Patch.severity() < Bump::Minor.severity() < Bump::Major.severity(),
{
}

} // verus!
