//! The document version tag: an ordered (major, minor, patch) triple.
//!
//! A `Version` is stamped once per document and compared against the
//! per-field and per-variant "introduced in" thresholds. The triple is
//! ordered lexicographically, and each component must fit in sixteen bits
//! because the wire header stores the triple as three big-endian `u16`s.

use vstd::prelude::*;

verus! {

/// An ordered (major, minor, patch) triple.
///
/// It serves both as the format version stamped on a whole document and as
/// the "introduced in" marker attached to each field or variant.
#[derive(Clone, Copy, Debug, PartialEq, Eq, Structural)]
pub struct Version {
    /// The major component, compared first.
    pub major: u16,
    /// The minor component, compared second.
    pub minor: u16,
    /// The patch component, compared last.
    pub patch: u16,
}

impl DeepView for Version {
    type V = Version;

    open spec fn deep_view(&self) -> Version {
        *self
    }
}

/// Lexicographic strict order on (major, minor, patch).
pub open spec fn version_lt(a: Version, b: Version) -> bool {
    ||| a.major < b.major
    ||| (a.major == b.major && a.minor < b.minor)
    ||| (a.major == b.major && a.minor == b.minor && a.patch < b.patch)
}

/// Lexicographic order on (major, minor, patch), reflexive form.
pub open spec fn version_le(a: Version, b: Version) -> bool {
    version_lt(a, b) || a == b
}

impl Version {
    /// Build a version tag from its three components.
    pub fn new(major: u16, minor: u16, patch: u16) -> (r: Version)
        ensures
            r == (Version { major, minor, patch }),
    {
        Version { major, minor, patch }
    }

    /// Decide the lexicographic strict order against another version.
    pub fn lt(&self, other: &Version) -> (r: bool)
        ensures
            r == version_lt(*self, *other),
    {
        if self.major != other.major {
            self.major < other.major
        } else if self.minor != other.minor {
            self.minor < other.minor
        } else {
            self.patch < other.patch
        }
    }

    /// Decide the lexicographic order, reflexive form.
    pub fn le(&self, other: &Version) -> (r: bool)
        ensures
            r == version_le(*self, *other),
    {
        if self.major != other.major {
            self.major < other.major
        } else if self.minor != other.minor {
            self.minor < other.minor
        } else {
            self.patch <= other.patch
        }
    }
}

/// The lexicographic order on version tags is total and transitive.
pub proof fn lemma_version_order_total(a: Version, b: Version, c: Version)
    ensures
        version_le(a, b) || version_le(b, a),
        version_le(a, b) && version_le(b, c) ==> version_le(a, c),
        version_le(a, b) && version_le(b, a) ==> a == b,
{
}

} // verus!
