use vstd::prelude::*;
use vstd::string::*;
use crate::text::{
    decimal, lemma_parse_decimal, lemma_split_three, parse_u32_chars, parse_u32_spec, push_decimal,
    split_chars, split_on,
};

verus! {

/// Semantic version: major.minor.patch.
#[derive(Clone, Copy, Debug, PartialEq, Eq, Hash, Structural)]
pub struct SkillVersion {
    pub major: u32,
    pub minor: u32,
    pub patch: u32,
}

/// `a` comes strictly after `b` in the lexicographic order of
/// (major, minor, patch).
pub open spec fn version_gt(a: SkillVersion, b: SkillVersion) -> bool {
    ||| a.major > b.major
    ||| (a.major == b.major && a.minor > b.minor)
    ||| (a.major == b.major && a.minor == b.minor && a.patch > b.patch)
}

/// Two versions are compatible when their major versions agree.
pub open spec fn versions_compatible(a: SkillVersion, b: SkillVersion) -> bool {
    a.major == b.major
}

/// `a` is `b` or comes after it.
pub open spec fn version_ge(a: SkillVersion, b: SkillVersion) -> bool {
    version_gt(a, b) || a == b
}

/// The text form "major.minor.patch", each part in decimal.
pub open spec fn version_text(v: SkillVersion) -> Seq<char> {
    decimal(v.major as nat) + seq!['.'] + decimal(v.minor as nat) + seq!['.'] + decimal(
        v.patch as nat,
    )
}

/// What reading "major.minor.patch" from `s` gives: `s` must split on '.' into
/// exactly three pieces, each of which reads as a `u32`.
pub open spec fn parse_version_spec(s: Seq<char>) -> Option<SkillVersion> {
    let parts = split_on(s, '.');
    if parts.len() != 3 {
        None
    } else {
        match (parse_u32_spec(parts[0]), parse_u32_spec(parts[1]), parse_u32_spec(parts[2])) {
            (Some(major), Some(minor), Some(patch)) => Some(SkillVersion { major, minor, patch }),
            _ => None,
        }
    }
}

impl SkillVersion {
    pub fn new(major: u32, minor: u32, patch: u32) -> (v: Self)
        ensures
            v.major == major,
            v.minor == minor,
            v.patch == patch,
    {
        SkillVersion { major, minor, patch }
    }

    /// Parse from "major.minor.patch" string.
    pub fn parse(s: &str) -> (r: Option<Self>)
        ensures
            r == parse_version_spec(s@),
    {
        let parts = split_chars(s, '.');
        let ghost pv = parts@.map_values(|p: Vec<char>| p@);
        if parts.len() != 3 {
            return None;
        }
        assert(pv[0] == parts@[0]@ && pv[1] == parts@[1]@ && pv[2] == parts@[2]@);
        let major = match parse_u32_chars(&parts[0]) {
            Some(x) => x,
            None => return None,
        };
        let minor = match parse_u32_chars(&parts[1]) {
            Some(x) => x,
            None => return None,
        };
        let patch = match parse_u32_chars(&parts[2]) {
            Some(x) => x,
            None => return None,
        };
        Some(SkillVersion { major, minor, patch })
    }

    /// The text form "major.minor.patch".
    pub fn to_string(&self) -> (s: String)
        ensures
            s@ == version_text(*self),
    {
        let mut out = String::new();
        push_decimal(&mut out, self.major);
        proof { reveal_strlit("."); }
        out.append(".");
        push_decimal(&mut out, self.minor);
        out.append(".");
        push_decimal(&mut out, self.patch);
        proof {
            assert(out@ =~= version_text(*self));
        }
        out
    }

    /// Is this version compatible with another (same major version)?
    pub fn is_compatible_with(&self, other: &SkillVersion) -> (b: bool)
        ensures
            b == versions_compatible(*self, *other),
    {
        self.major == other.major
    }

    /// Is this a newer version than another?
    pub fn is_newer_than(&self, other: &SkillVersion) -> (b: bool)
        ensures
            b == version_gt(*self, *other),
    {
        if self.major != other.major {
            self.major > other.major
        } else if self.minor != other.minor {
            self.minor > other.minor
        } else {
            self.patch > other.patch
        }
    }
}

/// Reading a version's text form gives the version back.
pub proof fn law_parse_text_roundtrip(v: SkillVersion)
    ensures
        parse_version_spec(version_text(v)) == Some(v),
{
    lemma_parse_decimal(v.major);
    lemma_parse_decimal(v.minor);
    lemma_parse_decimal(v.patch);
    lemma_split_three(decimal(v.major as nat), decimal(v.minor as nat), decimal(v.patch as nat), '.');
}

/// "Newer than" is a strict total order on versions: never reflexive, never
/// both ways, transitive, and any two distinct versions are ordered.
pub proof fn law_newer_is_strict_total_order(a: SkillVersion, b: SkillVersion, c: SkillVersion)
    ensures
        !version_gt(a, a),
        version_gt(a, b) ==> !version_gt(b, a),
        version_gt(a, b) && version_gt(b, c) ==> version_gt(a, c),
        a != b ==> version_gt(a, b) || version_gt(b, a),
{
}

/// "Newer than" is decided by the numbers, most significant first: a larger
/// major wins outright; with equal majors a larger minor wins; with equal
/// majors and minors a larger patch wins; equal versions are not newer.
/// Together with the strict total order above this fixes every answer.
pub proof fn law_newer_by_components(a: SkillVersion, b: SkillVersion)
    ensures
        a.major > b.major ==> version_gt(a, b),
        a.major < b.major ==> !version_gt(a, b),
        a.major == b.major && a.minor > b.minor ==> version_gt(a, b),
        a.major == b.major && a.minor < b.minor ==> !version_gt(a, b),
        a.major == b.major && a.minor == b.minor && a.patch > b.patch ==> version_gt(a, b),
        a.major == b.major && a.minor == b.minor && a.patch <= b.patch ==> !version_gt(a, b),
        version_ge(a, b) <==> (version_gt(a, b) || (a.major == b.major && a.minor == b.minor
            && a.patch == b.patch)),
{
}

/// Compatibility looks at the major version alone: versions with the same
/// major are compatible whatever their minor and patch, and versions with
/// different majors never are.
pub proof fn law_compatibility_by_major(a: SkillVersion, b: SkillVersion, minor: u32, patch: u32)
    ensures
        versions_compatible(a, SkillVersion { major: a.major, minor, patch }),
        a.major != b.major ==> !versions_compatible(a, b),
        a.major == b.major ==> versions_compatible(a, b),
{
}

/// Compatibility (same major version) is an equivalence relation.
pub proof fn law_compatibility_is_equivalence(a: SkillVersion, b: SkillVersion, c: SkillVersion)
    ensures
        versions_compatible(a, a),
        versions_compatible(a, b) == versions_compatible(b, a),
        versions_compatible(a, b) && versions_compatible(b, c) ==> versions_compatible(a, c),
{
}

} // verus!
