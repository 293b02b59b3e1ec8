//! Goldleaf versions and their order.

use vstd::prelude::*;
use crate::text::{append_chars, decimal, decimal_chars, string_of};

verus! {

/// A `major.minor.micro` version of Goldleaf.
#[derive(Clone, Copy, Debug, PartialEq, Eq, Structural)]
pub struct Version {
    pub major: u8,
    pub minor: u8,
    pub micro: u8,
}

/// The lexicographic order on `(major, minor, micro)`.
pub open spec fn version_lt(a: Version, b: Version) -> bool {
    ||| a.major < b.major
    ||| (a.major == b.major && a.minor < b.minor)
    ||| (a.major == b.major && a.minor == b.minor && a.micro < b.micro)
}

/// The oldest Goldleaf version that this client accepts.
pub open spec fn current_version() -> Version {
    Version { major: 1, minor: 1, micro: 0 }
}

/// How a version is written: `major.minor.micro` in decimal.
pub open spec fn version_text(v: Version) -> Seq<char> {
    decimal(v.major as nat) + seq!['.'] + decimal(v.minor as nat) + seq!['.'] + decimal(
        v.micro as nat,
    )
}

impl Version {
    /// The oldest Goldleaf that this client talks to: 1.1.0.
    pub fn current() -> (v: Version)
        ensures
            v == current_version(),
    {
        Version { major: 1, minor: 1, micro: 0 }
    }

    pub fn new(major: u8, minor: u8, micro: u8) -> (v: Self)
        ensures
            v.major == major,
            v.minor == minor,
            v.micro == micro,
    {
        Version { major, minor, micro }
    }

    pub fn older_than(self, other: Version) -> (r: bool)
        ensures
            r == version_lt(self, other),
    {
        if self.major != other.major {
            return self.major < other.major;
        }
        if self.minor != other.minor {
            return self.minor < other.minor;
        }
        self.micro < other.micro
    }

    pub fn same(self, other: Version) -> (r: bool)
        ensures
            r == (self == other),
    {
        self == other
    }

    /// `major.minor.micro` in decimal.
    pub fn to_string(&self) -> (s: String)
        ensures
            s@ == version_text(*self),
    {
        let mut out = decimal_chars(self.major);
        out.push('.');
        let minor = decimal_chars(self.minor);
        append_chars(&mut out, minor.as_slice());
        out.push('.');
        let micro = decimal_chars(self.micro);
        append_chars(&mut out, micro.as_slice());
        assert(out@ =~= version_text(*self));
        string_of(out.as_slice())
    }

    pub fn newer_than(self, other: Version) -> (r: bool)
        ensures
            r == !(version_lt(self, other) || self == other),
    {
        !(self.older_than(other) || self == other)
    }
}

/// Exactly one of "older", "same" and "newer" holds of two versions.
pub proof fn lemma_version_trichotomy(a: Version, b: Version)
    ensures
        version_lt(a, b) || a == b || version_lt(b, a),
        !(version_lt(a, b) && a == b),
        !(version_lt(a, b) && version_lt(b, a)),
{
}

/// "Newer than" is "older than" with its arguments swapped.
pub proof fn lemma_newer_is_converse_of_older(a: Version, b: Version)
    ensures
        !(version_lt(a, b) || a == b) == version_lt(b, a),
{
}

/// "Older than" is a strict order: irreflexive and transitive.
pub proof fn lemma_older_is_strict_order(a: Version, b: Version, c: Version)
    ensures
        !version_lt(a, a),
        version_lt(a, b) && version_lt(b, c) ==> version_lt(a, c),
{
}

} // verus!
