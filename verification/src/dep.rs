//! Dependency declarations and conflict declarations between skills.
use vstd::prelude::*;
use crate::text::text_eq;
use crate::version::{version_ge, version_gt, SkillVersion};

verus! {

/// A dependency declaration: another skill with optional version constraint.
#[derive(Clone, Debug, PartialEq)]
pub struct SkillDep {
    pub skill_name: String,
    pub min_version: Option<SkillVersion>,
    pub max_version: Option<SkillVersion>,
    pub optional: bool,
}

impl SkillDep {
    /// The version bounds of this dependency admit `v`: it is no older than the
    /// minimum and no newer than the maximum, where those are given.
    pub open spec fn allows(self, v: SkillVersion) -> bool {
        &&& match self.min_version {
            Some(min) => version_ge(v, min),
            None => true,
        }
        &&& match self.max_version {
            Some(max) => !version_gt(v, max),
            None => true,
        }
    }

    pub fn required(name: &str) -> (d: Self)
        ensures
            d.skill_name@ == name@,
            d.min_version is None,
            d.max_version is None,
            !d.optional,
    {
        Self { skill_name: name.to_owned(), min_version: None, max_version: None, optional: false }
    }

    pub fn optional(name: &str) -> (d: Self)
        ensures
            d.skill_name@ == name@,
            d.min_version is None,
            d.max_version is None,
            d.optional,
    {
        Self { skill_name: name.to_owned(), min_version: None, max_version: None, optional: true }
    }

    pub fn with_min_version(self, v: SkillVersion) -> (d: Self)
        ensures
            d == (SkillDep { min_version: Some(v), ..self }),
    {
        SkillDep { min_version: Some(v), ..self }
    }

    pub fn with_max_version(self, v: SkillVersion) -> (d: Self)
        ensures
            d == (SkillDep { max_version: Some(v), ..self }),
    {
        SkillDep { max_version: Some(v), ..self }
    }

    /// Does a given version satisfy this dependency?
    pub fn is_satisfied_by(&self, version: &SkillVersion) -> (b: bool)
        ensures
            b == self.allows(*version),
    {
        if let Some(min) = &self.min_version {
            if !version.is_newer_than(min) && *version != *min {
                return false;
            }
        }
        if let Some(max) = &self.max_version {
            if version.is_newer_than(max) {
                return false;
            }
        }
        true
    }
}

/// A dependency with a minimum and a maximum admits exactly the versions
/// between the two, both included; one without bounds admits every version.
pub proof fn law_dependency_bounds(d: SkillDep, min: SkillVersion, max: SkillVersion, v: SkillVersion)
    ensures
        (SkillDep { min_version: None, max_version: None, ..d }).allows(v),
        (SkillDep { min_version: Some(min), max_version: Some(max), ..d }).allows(v) <==> (
        version_ge(v, min) && version_ge(max, v)),
        (SkillDep { min_version: Some(min), max_version: None, ..d }).allows(v) <==> version_ge(
            v,
            min,
        ),
        (SkillDep { min_version: None, max_version: Some(max), ..d }).allows(v) <==> version_ge(
            max,
            v,
        ),
{
}

/// A conflict between two skills.
#[derive(Clone, Debug, PartialEq)]
pub struct SkillConflict {
    pub skill_a: String,
    pub skill_b: String,
    pub reason: String,
}

impl SkillConflict {
    /// The conflict names `name` on one of its two sides.
    pub open spec fn names(self, name: Seq<char>) -> bool {
        self.skill_a@ == name || self.skill_b@ == name
    }

    pub fn new(a: &str, b: &str, reason: &str) -> (c: Self)
        ensures
            c.skill_a@ == a@,
            c.skill_b@ == b@,
            c.reason@ == reason@,
    {
        Self { skill_a: a.to_owned(), skill_b: b.to_owned(), reason: reason.to_owned() }
    }

    /// Check if a given skill is involved in this conflict.
    pub fn involves(&self, skill_name: &str) -> (b: bool)
        ensures
            b == self.names(skill_name@),
    {
        text_eq(self.skill_a.as_str(), skill_name) || text_eq(self.skill_b.as_str(), skill_name)
    }
}

/// A conflict names exactly its two sides, compared as whole names: a name
/// that only shares a prefix, or any other text, is not named.
pub proof fn law_conflict_names_only_its_sides(c: SkillConflict, x: Seq<char>)
    ensures
        c.names(c.skill_a@),
        c.names(c.skill_b@),
        x != c.skill_a@ && x != c.skill_b@ ==> !c.names(x),
{
}

} // verus!
