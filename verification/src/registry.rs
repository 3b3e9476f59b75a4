//! The registry of skills: versions, dependencies, deprecation and conflicts.
use vstd::prelude::*;
use vstd::string::*;
use crate::dep::{SkillConflict, SkillDep};
use crate::seq_facts::{lemma_filter_membership, lemma_index_of_unique};
use crate::text::text_eq;
use crate::version::{law_newer_is_strict_total_order, version_gt, version_text, SkillVersion};

verus! {

/// Entry in the registry.
#[derive(Clone, Debug)]
struct RegistryEntry {
    version: SkillVersion,
    dependencies: Vec<SkillDep>,
    deprecated: bool,
}

/// What the registry knows of one skill.
pub struct EntryView {
    pub version: SkillVersion,
    pub dependencies: Seq<SkillDep>,
    pub deprecated: bool,
}

/// The enhanced registry.
#[derive(Clone, Debug)]
pub struct RegistryV2 {
    entries: Vec<(String, RegistryEntry)>,
    conflicts: Vec<SkillConflict>,
}

pub open spec fn missing_skill_message(name: Seq<char>) -> Seq<char> {
    "skill '"@ + name + "' not found"@
}

pub open spec fn unregistered_dependency_message(name: Seq<char>) -> Seq<char> {
    "dependency '"@ + name + "' not registered"@
}

pub open spec fn deprecated_dependency_message(name: Seq<char>) -> Seq<char> {
    "dependency '"@ + name + "' is deprecated"@
}

pub open spec fn unsatisfied_dependency_message(name: Seq<char>, v: SkillVersion) -> Seq<char> {
    "dependency '"@ + name + "' version "@ + version_text(v) + " does not satisfy constraint"@
}

/// Why `dep` is not met by the skills in `skills`, if it is not: a required
/// dependency must be registered, not deprecated, and at an admitted version.
/// An optional one is never checked.
pub open spec fn dependency_failure(skills: Map<Seq<char>, EntryView>, dep: SkillDep) -> Option<
    Seq<char>,
> {
    let name = dep.skill_name@;
    if dep.optional {
        None
    } else if !skills.contains_key(name) {
        Some(unregistered_dependency_message(name))
    } else if skills[name].deprecated {
        Some(deprecated_dependency_message(name))
    } else if !dep.allows(skills[name].version) {
        Some(unsatisfied_dependency_message(name, skills[name].version))
    } else {
        None
    }
}

/// The failure of the first dependency in `deps` that is not met, if any.
pub open spec fn first_dependency_failure(
    skills: Map<Seq<char>, EntryView>,
    deps: Seq<SkillDep>,
) -> Option<Seq<char>>
    decreases deps.len(),
{
    if deps.len() == 0 {
        None
    } else if dependency_failure(skills, deps[0]) is Some {
        dependency_failure(skills, deps[0])
    } else {
        first_dependency_failure(skills, deps.drop_first())
    }
}

/// What `dependencies_of` lists for `name`: the dependencies it was last
/// registered with, in the given order, or none for an unknown name.
pub open spec fn listed_dependencies(skills: Map<Seq<char>, EntryView>, name: Seq<char>) -> Seq<
    SkillDep,
> {
    if skills.contains_key(name) {
        skills[name].dependencies
    } else {
        Seq::empty()
    }
}

/// `dependencies_of` gives back exactly the dependencies of the last
/// `register` of a name, optional ones included and in their order; a
/// deprecation leaves them as they were; a name never registered has none.
pub proof fn law_dependencies_of_after_writes(
    before: Map<Seq<char>, EntryView>,
    name: Seq<char>,
    version: SkillVersion,
    deps: Seq<SkillDep>,
)
    ensures
        listed_dependencies(
            before.insert(name, EntryView { version, dependencies: deps, deprecated: false }),
            name,
        ) == deps,
        before.contains_key(name) ==> listed_dependencies(
            before.insert(name, EntryView { deprecated: true, ..before[name] }),
            name,
        ) == listed_dependencies(before, name),
        !before.contains_key(name) ==> listed_dependencies(before, name) == Seq::<SkillDep>::empty(),
        listed_dependencies(Map::<Seq<char>, EntryView>::empty(), name) == Seq::<SkillDep>::empty(),
{
}

/// The conflicts that name `a`, in the order of declaration.
pub open spec fn conflicts_naming(conflicts: Seq<SkillConflict>, a: Seq<char>) -> Seq<SkillConflict> {
    conflicts.filter(|y: SkillConflict| y.names(a))
}

/// Some conflict in `conflicts` names both `a` and `b`.
pub open spec fn in_conflict(conflicts: Seq<SkillConflict>, a: Seq<char>, b: Seq<char>) -> bool {
    exists|i: int| 0 <= i < conflicts.len() && #[trigger] conflicts[i].names(a) && conflicts[i].names(b)
}

/// Skipping a prefix of dependencies that are all met does not change the
/// first failure.
proof fn lemma_first_failure_skip(skills: Map<Seq<char>, EntryView>, deps: Seq<SkillDep>, i: int)
    requires
        0 <= i <= deps.len(),
        forall|j: int| 0 <= j < i ==> dependency_failure(skills, #[trigger] deps[j]) is None,
    ensures
        first_dependency_failure(skills, deps) == first_dependency_failure(skills, deps.skip(i)),
    decreases i,
{
    if i > 0 {
        assert(dependency_failure(skills, deps[0]) is None);
        let rest = deps.drop_first();
        assert forall|j: int| 0 <= j < i - 1 implies dependency_failure(
            skills,
            #[trigger] rest[j],
        ) is None by {
            assert(rest[j] == deps[j + 1]);
        }
        lemma_first_failure_skip(skills, rest, i - 1);
        assert(rest.skip(i - 1) =~= deps.skip(i));
    } else {
        assert(deps.skip(0) =~= deps);
    }
}

/// Dependencies pass the check exactly when each of them is met.
pub proof fn law_dependencies_pass_iff_each_met(
    skills: Map<Seq<char>, EntryView>,
    deps: Seq<SkillDep>,
)
    ensures
        first_dependency_failure(skills, deps) is None <==> forall|j: int|
            0 <= j < deps.len() ==> dependency_failure(skills, #[trigger] deps[j]) is None,
    decreases deps.len(),
{
    if deps.len() > 0 {
        let rest = deps.drop_first();
        law_dependencies_pass_iff_each_met(skills, rest);
        if first_dependency_failure(skills, deps) is None {
            assert forall|j: int| 0 <= j < deps.len() implies dependency_failure(
                skills,
                #[trigger] deps[j],
            ) is None by {
                if j > 0 {
                    assert(deps[j] == rest[j - 1]);
                }
            }
        }
        if forall|j: int| 0 <= j < deps.len() ==> dependency_failure(skills, #[trigger] deps[j]) is None {
            assert(dependency_failure(skills, deps[0]) is None);
            assert forall|j: int| 0 <= j < rest.len() implies dependency_failure(
                skills,
                #[trigger] rest[j],
            ) is None by {
                assert(rest[j] == deps[j + 1]);
            }
        }
    }
}


/// What a read gives back after `register`: the registered version, the
/// given dependencies, not deprecated; other skills as they were; one more
/// skill in the count exactly when the name was new.
pub proof fn law_register_then_read(
    before: RegistryV2,
    after: RegistryV2,
    name: Seq<char>,
    version: SkillVersion,
    deps: Seq<SkillDep>,
    other: Seq<char>,
)
    requires
        before.wf(),
        after.wf(),
        after.skills() == before.skills().insert(
            name,
            EntryView { version, dependencies: deps, deprecated: false },
        ),
    ensures
        after.skills().contains_key(name),
        after.skills()[name].version == version,
        after.skills()[name].dependencies == deps,
        !after.skills()[name].deprecated,
        other != name ==> after.skills().contains_key(other) == before.skills().contains_key(other),
        other != name && before.skills().contains_key(other) ==> after.skills()[other]
            == before.skills()[other],
        after.skills().len() == before.skills().len() + (if before.skills().contains_key(name) {
            0int
        } else {
            1int
        }),
{
    before.lemma_names_are_keys();
}

/// What a read gives back after `deprecate` of a registered skill: deprecated,
/// at the same version, with the same dependencies; other skills untouched.
pub proof fn law_deprecate_then_read(before: RegistryV2, after: RegistryV2, name: Seq<char>, other: Seq<char>)
    requires
        before.skills().contains_key(name),
        after.skills() == before.skills().insert(
            name,
            EntryView { deprecated: true, ..before.skills()[name] },
        ),
    ensures
        after.skills()[name].deprecated,
        after.skills()[name].version == before.skills()[name].version,
        after.skills()[name].dependencies == before.skills()[name].dependencies,
        other != name ==> after.skills().contains_key(other) == before.skills().contains_key(other),
        other != name && before.skills().contains_key(other) ==> after.skills()[other]
            == before.skills()[other],
{
}

/// Coexistence is symmetric.
pub proof fn law_coexistence_symmetric(conflicts: Seq<SkillConflict>, a: Seq<char>, b: Seq<char>)
    ensures
        in_conflict(conflicts, a, b) == in_conflict(conflicts, b, a),
{
    if in_conflict(conflicts, a, b) {
        let i = choose|i: int| 0 <= i < conflicts.len() && #[trigger] conflicts[i].names(a) && conflicts[i].names(b);
        assert(conflicts[i].names(b) && conflicts[i].names(a));
    }
    if in_conflict(conflicts, b, a) {
        let i = choose|i: int| 0 <= i < conflicts.len() && #[trigger] conflicts[i].names(b) && conflicts[i].names(a);
        assert(conflicts[i].names(a) && conflicts[i].names(b));
    }
}

/// Once a conflict between `a` and `b` is declared, the two can no longer
/// coexist (either way round), and the conflict is listed for each of them.
pub proof fn law_declared_conflict_blocks(conflicts: Seq<SkillConflict>, c: SkillConflict)
    ensures
        in_conflict(conflicts.push(c), c.skill_a@, c.skill_b@),
        in_conflict(conflicts.push(c), c.skill_b@, c.skill_a@),
        conflicts_naming(conflicts.push(c), c.skill_a@).contains(c),
        conflicts_naming(conflicts.push(c), c.skill_b@).contains(c),
{
    let s = conflicts.push(c);
    let n = conflicts.len() as int;
    assert(s[n] == c);
    assert(s[n].names(c.skill_a@) && s[n].names(c.skill_b@));
    lemma_filter_membership(s, |x: SkillConflict| x.names(c.skill_a@), c);
    lemma_filter_membership(s, |x: SkillConflict| x.names(c.skill_b@), c);
    assert(s.contains(s[n]));
}

/// Two skills cannot coexist exactly when the conflicts listed for the first
/// include one that names the second.
pub proof fn law_conflict_listing_agrees(conflicts: Seq<SkillConflict>, a: Seq<char>, b: Seq<char>)
    ensures
        in_conflict(conflicts, a, b) <==> exists|x: SkillConflict|
            #[trigger] conflicts_naming(conflicts, a).contains(x) && x.names(b),
{
    let p = |y: SkillConflict| y.names(a);
    let f = conflicts_naming(conflicts, a);
    assert(f == conflicts.filter(p));
    if in_conflict(conflicts, a, b) {
        let i = choose|i: int| 0 <= i < conflicts.len() && #[trigger] conflicts[i].names(a) && conflicts[i].names(b);
        lemma_filter_membership(conflicts, p, conflicts[i]);
        assert(f.contains(conflicts[i]));
    }
    if exists|x: SkillConflict| #[trigger] f.contains(x) && x.names(b) {
        let x = choose|x: SkillConflict| #[trigger] f.contains(x) && x.names(b);
        lemma_filter_membership(conflicts, p, x);
        let i = choose|i: int| 0 <= i < conflicts.len() && conflicts[i] == x;
        assert(conflicts[i].names(a) && conflicts[i].names(b));
    }
}

/// For a required dependency on a registered, non-deprecated skill at version
/// `v`, the check fails exactly when `v` is older than the minimum or newer
/// than the maximum (each where given), and then reports that version; a skill
/// with such a dependency fails `check_dependencies`.
pub proof fn law_bounds_decide_check(
    skills: Map<Seq<char>, EntryView>,
    dep: SkillDep,
    deps: Seq<SkillDep>,
)
    requires
        !dep.optional,
        skills.contains_key(dep.skill_name@),
        !skills[dep.skill_name@].deprecated,
    ensures
        ({
            let v = skills[dep.skill_name@].version;
            let too_old = dep.min_version matches Some(min) && version_gt(min, v);
            let too_new = dep.max_version matches Some(max) && version_gt(v, max);
            &&& (too_old || too_new) ==> dependency_failure(skills, dep) == Some(
                unsatisfied_dependency_message(dep.skill_name@, v),
            )
            &&& !(too_old || too_new) ==> dependency_failure(skills, dep) is None
            &&& (too_old || too_new) && deps.contains(dep) ==> first_dependency_failure(skills, deps) is Some
        }),
{
    let v = skills[dep.skill_name@].version;
    law_newer_is_strict_total_order(v, v, v);
    match dep.min_version {
        Some(min) => { law_newer_is_strict_total_order(min, v, v); },
        None => {},
    }
    law_dependencies_pass_iff_each_met(skills, deps);
    if deps.contains(dep) {
        let j = choose|j: int| 0 <= j < deps.len() && deps[j] == dep;
        assert(dependency_failure(skills, deps[j]) == dependency_failure(skills, dep));
    }
}

/// Two skills can coexist unless some declared conflict has both of them among
/// its two sides (as whole names).
pub proof fn law_coexist_unless_both_sides(conflicts: Seq<SkillConflict>, a: Seq<char>, b: Seq<char>)
    ensures
        in_conflict(conflicts, a, b) <==> exists|i: int|
            0 <= i < conflicts.len() && (a == (#[trigger] conflicts[i]).skill_a@ || a == conflicts[i].skill_b@)
                && (b == conflicts[i].skill_a@ || b == conflicts[i].skill_b@),
{
    if in_conflict(conflicts, a, b) {
        let i = choose|i: int| 0 <= i < conflicts.len() && #[trigger] conflicts[i].names(a) && conflicts[i].names(b);
        assert(conflicts[i].names(a));
    }
    if exists|i: int|
        0 <= i < conflicts.len() && (a == (#[trigger] conflicts[i]).skill_a@ || a == conflicts[i].skill_b@)
            && (b == conflicts[i].skill_a@ || b == conflicts[i].skill_b@) {
        let i = choose|i: int|
            0 <= i < conflicts.len() && (a == (#[trigger] conflicts[i]).skill_a@ || a == conflicts[i].skill_b@)
                && (b == conflicts[i].skill_a@ || b == conflicts[i].skill_b@);
        assert(conflicts[i].names(a) && conflicts[i].names(b));
    }
}

/// The check reports the failure of the first dependency, in declared order,
/// that is not met: when the `j`-th fails and all before it pass, the error is
/// the `j`-th's.
pub proof fn law_first_failure_is_reported(skills: Map<Seq<char>, EntryView>, deps: Seq<SkillDep>, j: int)
    requires
        0 <= j < deps.len(),
        dependency_failure(skills, deps[j]) is Some,
        forall|k: int| 0 <= k < j ==> dependency_failure(skills, #[trigger] deps[k]) is None,
    ensures
        first_dependency_failure(skills, deps) == dependency_failure(skills, deps[j]),
{
    lemma_first_failure_skip(skills, deps, j);
    assert(deps.skip(j)[0] == deps[j]);
}

/// An optional dependency never makes the check fail.
pub proof fn law_optional_dependency_never_fails(skills: Map<Seq<char>, EntryView>, dep: SkillDep)
    requires
        dep.optional,
    ensures
        dependency_failure(skills, dep) is None,
{
}

impl RegistryEntry {
    spec fn view(self) -> EntryView {
        EntryView {
            version: self.version,
            dependencies: self.dependencies@,
            deprecated: self.deprecated,
        }
    }
}

impl RegistryV2 {
    /// The names of the registered skills, in the order of their first
    /// registration.
    pub closed spec fn names(self) -> Seq<Seq<char>> {
        self.entries@.map_values(|e: (String, RegistryEntry)| e.0@)
    }

    /// What the registry knows of each registered skill.
    pub closed spec fn skills(self) -> Map<Seq<char>, EntryView> {
        Map::new(
            |k: Seq<char>| self.names().contains(k),
            |k: Seq<char>| self.entries@[self.names().index_of(k)].1.view(),
        )
    }

    /// The declared conflicts, in the order of declaration.
    pub closed spec fn conflicts(self) -> Seq<SkillConflict> {
        self.conflicts@
    }

    /// No skill name is stored twice.
    pub closed spec fn wf(self) -> bool {
        self.names().no_duplicates()
    }

    /// The registered names are exactly the keys of `skills`, each once.
    pub proof fn lemma_names_are_keys(self)
        requires
            self.wf(),
        ensures
            self.names().no_duplicates(),
            forall|k: Seq<char>| #[trigger] self.skills().contains_key(k) <==> self.names().contains(k),
            self.skills().dom() == self.names().to_set(),
            self.skills().dom().finite(),
            self.skills().len() == self.names().len(),
    {
        assert(self.skills().dom() =~= self.names().to_set());
        self.names().unique_seq_to_set();
    }

    proof fn lemma_entry_at(self, i: int)
        requires
            self.wf(),
            0 <= i < self.entries@.len(),
        ensures
            self.names()[i] == self.entries@[i].0@,
            self.skills().contains_key(self.entries@[i].0@),
            self.skills()[self.entries@[i].0@] == self.entries@[i].1.view(),
    {
        lemma_index_of_unique(self.names(), i);
        assert(self.names().contains(self.names()[i]));
    }

    proof fn lemma_lookup(self, k: Seq<char>) -> (j: int)
        requires
            self.wf(),
            self.skills().contains_key(k),
        ensures
            0 <= j < self.entries@.len(),
            self.names()[j] == k,
            self.entries@[j].0@ == k,
            self.skills()[k] == self.entries@[j].1.view(),
    {
        let j = self.names().index_of(k);
        assert(self.names().contains(k));
        assert(0 <= j < self.names().len() && self.names()[j] == k);
        j
    }

    /// Position of the entry stored under `name`.
    fn find(&self, name: &str) -> (r: Option<usize>)
        requires
            self.wf(),
        ensures
            match r {
                Some(i) => i < self.entries@.len() && self.entries@[i as int].0@ == name@,
                None => !self.skills().contains_key(name@),
            },
    {
        let mut i: usize = 0;
        while i < self.entries.len()
            invariant
                i <= self.entries@.len(),
                forall|j: int| 0 <= j < i ==> self.entries@[j].0@ != name@,
            decreases self.entries@.len() - i,
        {
            if text_eq(self.entries[i].0.as_str(), name) {
                return Some(i);
            }
            i = i + 1;
        }
        proof {
            if self.names().contains(name@) {
                let j = self.names().index_of(name@);
                assert(self.names()[j] == self.entries@[j].0@);
            }
        }
        None
    }

    pub fn new() -> (r: Self)
        ensures
            r.wf(),
            r.names() == Seq::<Seq<char>>::empty(),
            r.skills() == Map::<Seq<char>, EntryView>::empty(),
            r.conflicts() == Seq::<SkillConflict>::empty(),
    {
        let r = Self { entries: Vec::new(), conflicts: Vec::new() };
        assert(r.names() =~= Seq::<Seq<char>>::empty());
        assert(r.skills() =~= Map::<Seq<char>, EntryView>::empty());
        r
    }

    /// Register a skill with version and dependencies.
    pub fn register(&mut self, name: &str, version: SkillVersion, deps: Vec<SkillDep>)
        requires
            old(self).wf(),
        ensures
            final(self).wf(),
            final(self).skills() == old(self).skills().insert(
                name@,
                EntryView { version, dependencies: deps@, deprecated: false },
            ),
            final(self).names() == (if old(self).skills().contains_key(name@) {
                old(self).names()
            } else {
                old(self).names().push(name@)
            }),
            final(self).conflicts() == old(self).conflicts(),
    {
        let ghost deps_view = deps@;
        let entry = RegistryEntry { version, dependencies: deps, deprecated: false };
        let ghost new_view = entry.view();
        let ghost before = *self;
        match self.find(name) {
            Some(i) => {
                self.entries.set(i, (name.to_owned(), entry));
                proof {
                    assert(self.names() =~= before.names());
                    assert forall|k: Seq<char>| #[trigger] self.skills().contains_key(k) implies
                        self.skills()[k] == before.skills().insert(name@, new_view)[k] by {
                        let j = self.lemma_lookup(k);
                        before.lemma_entry_at(j);
                        before.lemma_entry_at(i as int);
                    }
                    assert forall|k: Seq<char>| #[trigger] before.skills().insert(name@, new_view).contains_key(k)
                        implies self.skills().contains_key(k) by {
                        before.lemma_entry_at(i as int);
                    }
                    assert(self.skills() =~= before.skills().insert(name@, new_view));
                }
            },
            None => {
                self.entries.push((name.to_owned(), entry));
                proof {
                    assert(self.names() =~= before.names().push(name@));
                    assert(self.names().no_duplicates());
                    assert forall|k: Seq<char>| #[trigger] self.skills().contains_key(k) implies
                        self.skills()[k] == before.skills().insert(name@, new_view)[k] by {
                        let j = self.lemma_lookup(k);
                        if j < before.entries@.len() {
                            before.lemma_entry_at(j);
                        }
                    }
                    assert forall|k: Seq<char>| #[trigger] before.skills().insert(name@, new_view).contains_key(k)
                        implies self.skills().contains_key(k) by {
                        if k == name@ {
                            assert(self.names()[before.names().len() as int] == k);
                        } else {
                            let j = before.lemma_lookup(k);
                            assert(self.names()[j] == k);
                        }
                    }
                    assert(self.skills() =~= before.skills().insert(name@, new_view));
                }
            },
        }
    }

    /// Mark a skill as deprecated.
    pub fn deprecate(&mut self, name: &str) -> (found: bool)
        requires
            old(self).wf(),
        ensures
            final(self).wf(),
            found == old(self).skills().contains_key(name@),
            final(self).skills() == (if found {
                old(self).skills().insert(
                    name@,
                    EntryView { deprecated: true, ..old(self).skills()[name@] },
                )
            } else {
                old(self).skills()
            }),
            final(self).names() == old(self).names(),
            final(self).conflicts() == old(self).conflicts(),
    {
        let ghost before = *self;
        match self.find(name) {
            Some(i) => {
                proof { before.lemma_entry_at(i as int); }
                self.entries[i].1.deprecated = true;
                proof {
                    let new_view = EntryView { deprecated: true, ..before.skills()[name@] };
                    assert(self.names() =~= before.names());
                    assert forall|k: Seq<char>| #[trigger] self.skills().contains_key(k) implies
                        self.skills()[k] == before.skills().insert(name@, new_view)[k] by {
                        let j = self.lemma_lookup(k);
                        before.lemma_entry_at(j);
                    }
                    assert(self.skills() =~= before.skills().insert(name@, new_view));
                }
                true
            },
            None => false,
        }
    }

    /// Get the version of a registered skill.
    pub fn version_of(&self, name: &str) -> (r: Option<SkillVersion>)
        requires
            self.wf(),
        ensures
            r == (if self.skills().contains_key(name@) {
                Some(self.skills()[name@].version)
            } else {
                None
            }),
    {
        match self.find(name) {
            Some(i) => {
                proof { self.lemma_entry_at(i as int); }
                Some(self.entries[i].1.version)
            },
            None => None,
        }
    }

    /// Check if a skill is deprecated.
    pub fn is_deprecated(&self, name: &str) -> (r: bool)
        requires
            self.wf(),
        ensures
            r == (self.skills().contains_key(name@) && self.skills()[name@].deprecated),
    {
        match self.find(name) {
            Some(i) => {
                proof { self.lemma_entry_at(i as int); }
                self.entries[i].1.deprecated
            },
            None => false,
        }
    }

    /// Whether a skill of that name is registered.
    pub fn contains_skill(&self, name: &str) -> (r: bool)
        requires
            self.wf(),
        ensures
            r == self.skills().contains_key(name@),
    {
        match self.find(name) {
            Some(i) => {
                proof { self.lemma_entry_at(i as int); }
                true
            },
            None => false,
        }
    }

    /// List all registered skill names.
    pub fn skill_names(&self) -> (r: Vec<&str>)
        requires
            self.wf(),
        ensures
            r@.map_values(|s: &str| s@) == self.names(),
            r@.map_values(|s: &str| s@).no_duplicates(),
            r@.map_values(|s: &str| s@).to_set() == self.skills().dom(),
    {
        let mut r: Vec<&str> = Vec::new();
        let mut i: usize = 0;
        while i < self.entries.len()
            invariant
                i <= self.entries@.len(),
                r@.map_values(|s: &str| s@) == self.names().take(i as int),
            decreases self.entries@.len() - i,
        {
            let ghost before = r@.map_values(|s: &str| s@);
            r.push(self.entries[i].0.as_str());
            assert(r@.map_values(|s: &str| s@) =~= before.push(self.names()[i as int]));
            assert(self.names().take(i + 1) =~= self.names().take(i as int).push(self.names()[i as int]));
            i = i + 1;
        }
        assert(self.names().take(i as int) =~= self.names());
        proof { self.lemma_names_are_keys(); }
        r
    }

    /// Get dependencies of a skill.
    pub fn dependencies_of(&self, name: &str) -> (r: Vec<&SkillDep>)
        requires
            self.wf(),
        ensures
            r@.unref() == listed_dependencies(self.skills(), name@),
    {
        let mut r: Vec<&SkillDep> = Vec::new();
        match self.find(name) {
            Some(i) => {
                proof { self.lemma_entry_at(i as int); }
                let deps = &self.entries[i].1.dependencies;
                let mut j: usize = 0;
                while j < deps.len()
                    invariant
                        j <= deps@.len(),
                        r@.unref() == deps@.take(j as int),
                    decreases deps@.len() - j,
                {
                    let ghost before = r@;
                    r.push(&deps[j]);
                    assert(r@.unref() =~= before.unref().push(deps@[j as int]));
                    assert(deps@.take(j + 1) =~= deps@.take(j as int).push(deps@[j as int]));
                    j = j + 1;
                }
                assert(deps@.take(j as int) =~= deps@);
            },
            None => {
                assert(r@.unref() =~= Seq::<SkillDep>::empty());
            },
        }
        r
    }

    /// Why `dep` is not met, computed from the registry.
    fn dependency_error(&self, dep: &SkillDep) -> (r: Option<String>)
        requires
            self.wf(),
        ensures
            match dependency_failure(self.skills(), *dep) {
                Some(m) => r matches Some(e) && e@ == m,
                None => r is None,
            },
    {
        if dep.optional {
            return None;
        }
        let name = dep.skill_name.as_str();
        match self.find(name) {
            None => {
                let mut m = "dependency '".to_owned();
                m.append(name);
                m.append("' not registered");
                Some(m)
            },
            Some(i) => {
                proof { self.lemma_entry_at(i as int); }
                let entry = &self.entries[i].1;
                if entry.deprecated {
                    let mut m = "dependency '".to_owned();
                    m.append(name);
                    m.append("' is deprecated");
                    Some(m)
                } else if !dep.is_satisfied_by(&entry.version) {
                    let mut m = "dependency '".to_owned();
                    m.append(name);
                    m.append("' version ");
                    let text = entry.version.to_string();
                    m.append(text.as_str());
                    m.append(" does not satisfy constraint");
                    Some(m)
                } else {
                    None
                }
            },
        }
    }

    /// Check if all required dependencies of a skill are satisfied.
    pub fn check_dependencies(&self, name: &str) -> (r: Result<(), String>)
        requires
            self.wf(),
        ensures
            !self.skills().contains_key(name@) ==> (r matches Err(e) && e@
                == missing_skill_message(name@)),
            self.skills().contains_key(name@) ==> match first_dependency_failure(
                self.skills(),
                self.skills()[name@].dependencies,
            ) {
                Some(m) => r matches Err(e) && e@ == m,
                None => r is Ok,
            },
    {
        match self.find(name) {
            None => {
                let mut m = "skill '".to_owned();
                m.append(name);
                m.append("' not found");
                Err(m)
            },
            Some(i) => {
                proof { self.lemma_entry_at(i as int); }
                let deps = &self.entries[i].1.dependencies;
                let ghost skills = self.skills();
                let mut j: usize = 0;
                while j < deps.len()
                    invariant
                        self.wf(),
                        skills == self.skills(),
                        skills.contains_key(name@),
                        skills[name@].dependencies == deps@,
                        j <= deps@.len(),
                        forall|k: int| 0 <= k < j ==> dependency_failure(skills, #[trigger] deps@[k]) is None,
                    decreases deps@.len() - j,
                {
                    match self.dependency_error(&deps[j]) {
                        Some(e) => {
                            proof {
                                lemma_first_failure_skip(skills, deps@, j as int);
                                assert(deps@.skip(j as int)[0] == deps@[j as int]);
                            }
                            return Err(e);
                        },
                        None => {},
                    }
                    j = j + 1;
                }
                proof {
                    lemma_first_failure_skip(skills, deps@, j as int);
                }
                Ok(())
            },
        }
    }

    /// Declare a conflict between two skills.
    pub fn declare_conflict(&mut self, conflict: SkillConflict)
        requires
            old(self).wf(),
        ensures
            final(self).wf(),
            final(self).conflicts() == old(self).conflicts().push(conflict),
            final(self).skills() == old(self).skills(),
            final(self).names() == old(self).names(),
    {
        self.conflicts.push(conflict);
    }

    /// Find all conflicts involving a skill.
    pub fn conflicts_for(&self, name: &str) -> (r: Vec<&SkillConflict>)
        ensures
            r@.unref() == conflicts_naming(self.conflicts(), name@),
    {
        let ghost pred = |c: SkillConflict| c.names(name@);
        let mut r: Vec<&SkillConflict> = Vec::new();
        let mut i: usize = 0;
        assert(self.conflicts@.take(0).filter(pred) =~= Seq::<SkillConflict>::empty()) by {
            reveal(Seq::filter);
        }
        while i < self.conflicts.len()
            invariant
                i <= self.conflicts@.len(),
                pred == (|c: SkillConflict| c.names(name@)),
                r@.unref() == self.conflicts@.take(i as int).filter(pred),
            decreases self.conflicts@.len() - i,
        {
            let c = &self.conflicts[i];
            let ghost before = r@;
            assert(self.conflicts@.take(i + 1).drop_last() =~= self.conflicts@.take(i as int));
            assert(self.conflicts@.take(i + 1).last() == *c);
            let ghost prefix = self.conflicts@.take(i + 1);
            assert(prefix.filter(pred) == (if pred(prefix.last()) {
                prefix.drop_last().filter(pred).push(prefix.last())
            } else {
                prefix.drop_last().filter(pred)
            })) by {
                reveal(Seq::filter);
            }
            assert(pred(prefix.last()) == c.names(name@));
            if c.involves(name) {
                r.push(c);
                assert(r@.unref() =~= before.unref().push(*c));
                assert(r@.unref() == prefix.filter(pred));
            } else {
                assert(r@ == before);
                assert(r@.unref() == prefix.filter(pred));
            }
            i = i + 1;
        }
        assert(self.conflicts@.take(i as int) =~= self.conflicts@);
        r
    }

    /// Check if two skills can coexist.
    pub fn can_coexist(&self, a: &str, b: &str) -> (r: bool)
        ensures
            r == !in_conflict(self.conflicts(), a@, b@),
    {
        let mut i: usize = 0;
        while i < self.conflicts.len()
            invariant
                i <= self.conflicts@.len(),
                forall|j: int| 0 <= j < i ==> !(#[trigger] self.conflicts@[j].names(a@) && self.conflicts@[j].names(b@)),
            decreases self.conflicts@.len() - i,
        {
            if self.conflicts[i].involves(a) && self.conflicts[i].involves(b) {
                return false;
            }
            i = i + 1;
        }
        true
    }

    pub fn skill_count(&self) -> (n: usize)
        requires
            self.wf(),
        ensures
            n == self.skills().len(),
    {
        proof { self.lemma_names_are_keys(); }
        self.entries.len()
    }

    pub fn conflict_count(&self) -> (n: usize)
        ensures
            n == self.conflicts().len(),
    {
        self.conflicts.len()
    }
}

impl Default for RegistryV2 {
    fn default() -> (r: Self)
        ensures
            r.wf(),
            r.names() == Seq::<Seq<char>>::empty(),
            r.skills() == Map::<Seq<char>, EntryView>::empty(),
            r.conflicts() == Seq::<SkillConflict>::empty(),
    {
        Self::new()
    }
}

} // verus!
