//! Comparison of the registries of several rooms.
use vstd::prelude::*;
use crate::registry::RegistryV2;
use crate::seq_facts::{
    lemma_filter_membership, lemma_filter_no_duplicates, lemma_filter_take_step,
    lemma_index_of_unique,
};
use crate::text::text_eq;
use crate::version::SkillVersion;

verus! {

/// A set of skill names, each held once.
#[derive(Clone, Debug)]
pub struct NameSet {
    names: Vec<String>,
}

impl NameSet {
    /// The names, in the order in which they were found.
    pub closed spec fn elems(self) -> Seq<Seq<char>> {
        self.names@.map_values(|s: String| s@)
    }

    pub open spec fn view_set(self) -> Set<Seq<char>> {
        self.elems().to_set()
    }

    pub closed spec fn wf(self) -> bool {
        self.elems().no_duplicates()
    }

    pub fn contains(&self, name: &str) -> (r: bool)
        ensures
            r == self.view_set().contains(name@),
    {
        let mut i: usize = 0;
        while i < self.names.len()
            invariant
                i <= self.names@.len(),
                forall|j: int| 0 <= j < i ==> self.elems()[j] != name@,
            decreases self.names@.len() - i,
        {
            if text_eq(self.names[i].as_str(), name) {
                assert(self.elems()[i as int] == name@);
                return true;
            }
            i = i + 1;
        }
        false
    }

    pub fn len(&self) -> (n: usize)
        requires
            self.wf(),
        ensures
            n == self.view_set().len(),
    {
        proof { self.elems().unique_seq_to_set(); }
        self.names.len()
    }

    pub fn is_empty(&self) -> (r: bool)
        ensures
            r <==> self.view_set() == Set::<Seq<char>>::empty(),
    {
        if self.names.len() == 0 {
            assert(self.view_set() =~= Set::<Seq<char>>::empty());
            true
        } else {
            assert(self.view_set().contains(self.elems()[0]));
            false
        }
    }
}

/// Skill names listed per room, each room held once.
#[derive(Clone, Debug)]
pub struct SkillsByRoom {
    entries: Vec<(String, Vec<String>)>,
}

impl SkillsByRoom {
    /// The rooms with their lists, in the order in which they were found.
    pub closed spec fn pairs(self) -> Seq<(Seq<char>, Seq<Seq<char>>)> {
        self.entries@.map_values(
            |e: (String, Vec<String>)| (e.0@, e.1@.map_values(|s: String| s@)),
        )
    }

    pub open spec fn keys(self) -> Seq<Seq<char>> {
        self.pairs().map_values(|p: (Seq<char>, Seq<Seq<char>>)| p.0)
    }

    /// Each room's list, by room name.
    pub open spec fn view_map(self) -> Map<Seq<char>, Seq<Seq<char>>> {
        Map::new(
            |k: Seq<char>| self.keys().contains(k),
            |k: Seq<char>| self.pairs()[self.keys().index_of(k)].1,
        )
    }

    pub open spec fn wf(self) -> bool {
        self.keys().no_duplicates()
    }

    fn find(&self, name: &str) -> (r: Option<usize>)
        ensures
            match r {
                Some(i) => i < self.entries@.len() && self.keys()[i as int] == name@,
                None => !self.view_map().contains_key(name@),
            },
    {
        let mut i: usize = 0;
        while i < self.entries.len()
            invariant
                i <= self.entries@.len(),
                forall|j: int| 0 <= j < i ==> self.keys()[j] != name@,
            decreases self.entries@.len() - i,
        {
            if text_eq(self.entries[i].0.as_str(), name) {
                return Some(i);
            }
            i = i + 1;
        }
        None
    }

    pub fn contains_key(&self, name: &str) -> (r: bool)
        ensures
            r == self.view_map().contains_key(name@),
    {
        match self.find(name) {
            Some(i) => {
                assert(self.keys().contains(self.keys()[i as int]));
                true
            },
            None => false,
        }
    }

    pub fn get(&self, name: &str) -> (r: Option<&Vec<String>>)
        requires
            self.wf(),
        ensures
            match r {
                Some(v) => self.view_map().contains_key(name@) && v@.map_values(|s: String| s@)
                    == self.view_map()[name@],
                None => !self.view_map().contains_key(name@),
            },
    {
        match self.find(name) {
            Some(i) => {
                proof {
                    lemma_index_of_unique(self.keys(), i as int);
                    assert(self.keys().contains(self.keys()[i as int]));
                }
                Some(&self.entries[i].1)
            },
            None => None,
        }
    }

    pub fn len(&self) -> (n: usize)
        requires
            self.wf(),
        ensures
            n == self.view_map().len(),
    {
        proof {
            assert(self.view_map().dom() =~= self.keys().to_set());
            self.keys().unique_seq_to_set();
        }
        self.entries.len()
    }
}

/// The text view of a mismatch list: each skill with every room's version.
pub open spec fn report_view(r: Seq<(String, Vec<(String, SkillVersion)>)>) -> Seq<
    (Seq<char>, Seq<(Seq<char>, SkillVersion)>),
> {
    r.map_values(
        |e: (String, Vec<(String, SkillVersion)>)|
            (e.0@, e.1@.map_values(|q: (String, SkillVersion)| (q.0@, q.1))),
    )
}

/// Syncs registries across rooms.
#[derive(Clone, Debug)]
pub struct RegistrySync {
    /// Local registry snapshots per room.
    rooms: Vec<(String, RegistryV2)>,
}

impl RegistrySync {
    /// The rooms with their registries, in the order of first addition.
    pub closed spec fn room_list(self) -> Seq<(Seq<char>, RegistryV2)> {
        self.rooms@.map_values(|r: (String, RegistryV2)| (r.0@, r.1))
    }

    pub open spec fn room_names(self) -> Seq<Seq<char>> {
        self.room_list().map_values(|r: (Seq<char>, RegistryV2)| r.0)
    }

    /// Each room's registry, by room name.
    pub open spec fn rooms(self) -> Map<Seq<char>, RegistryV2> {
        Map::new(
            |k: Seq<char>| self.room_names().contains(k),
            |k: Seq<char>| self.room_list()[self.room_names().index_of(k)].1,
        )
    }

    /// No room is held twice, and every registry is well formed.
    pub open spec fn wf(self) -> bool {
        &&& self.room_names().no_duplicates()
        &&& forall|i: int| 0 <= i < self.room_list().len() ==> (#[trigger] self.room_list()[i]).1.wf()
    }

    /// Every room has a skill of that name.
    pub open spec fn in_every_room(self, k: Seq<char>) -> bool {
        forall|i: int| 0 <= i < self.room_list().len() ==> (#[trigger] self.room_list()[i]).1.skills().contains_key(k)
    }

    /// The skills that every room has, in the first room's order of
    /// registration; none where there is no room.
    pub open spec fn common_order(self) -> Seq<Seq<char>> {
        if self.room_list().len() == 0 {
            Seq::empty()
        } else {
            self.room_list()[0].1.names().filter(|k: Seq<char>| self.in_every_room(k))
        }
    }

    /// No room but the `i`-th has a skill of that name.
    pub open spec fn only_in_room(self, i: int, k: Seq<char>) -> bool {
        forall|j: int|
            0 <= j < self.room_list().len() && j != i ==> !(#[trigger] self.room_list()[j]).1.skills().contains_key(k)
    }

    /// The skills of the `i`-th room that no other room has, in that room's
    /// order of registration.
    pub open spec fn unique_in(self, i: int) -> Seq<Seq<char>> {
        self.room_list()[i].1.names().filter(|k: Seq<char>| self.only_in_room(i, k))
    }

    /// Each room's version of skill `k`, in room order.
    pub open spec fn versions_across(self, k: Seq<char>) -> Seq<(Seq<char>, SkillVersion)> {
        self.room_list().map_values(
            |r: (Seq<char>, RegistryV2)| (r.0, r.1.skills()[k].version),
        )
    }

    /// Not all rooms have skill `k` at the version of the first room.
    pub open spec fn has_mismatch(self, k: Seq<char>) -> bool {
        exists|i: int|
            0 <= i < self.room_list().len() && #[trigger] self.versions_across(k)[i].1
                != self.versions_across(k)[0].1
    }

    /// Each common skill whose versions differ, with every room's version.
    pub open spec fn mismatch_report(self) -> Seq<(Seq<char>, Seq<(Seq<char>, SkillVersion)>)> {
        self.common_order().filter(|k: Seq<char>| self.has_mismatch(k)).map_values(
            |k: Seq<char>| (k, self.versions_across(k)),
        )
    }

    proof fn lemma_room(self, i: int)
        requires
            0 <= i < self.rooms@.len(),
        ensures
            self.room_list()[i] == (self.rooms@[i].0@, self.rooms@[i].1),
            self.room_names()[i] == self.rooms@[i].0@,
            self.room_list().len() == self.rooms@.len(),
            self.room_names().len() == self.rooms@.len(),
    {
    }

    proof fn lemma_room_lookup(self, k: Seq<char>) -> (j: int)
        requires
            self.wf(),
            self.rooms().contains_key(k),
        ensures
            0 <= j < self.rooms@.len(),
            self.room_names()[j] == k,
            self.rooms()[k] == self.rooms@[j].1,
    {
        assert(self.room_names().contains(k));
        let j = self.room_names().index_of(k);
        j
    }

    proof fn lemma_room_at(self, i: int)
        requires
            self.wf(),
            0 <= i < self.rooms@.len(),
        ensures
            self.rooms().contains_key(self.rooms@[i].0@),
            self.rooms()[self.rooms@[i].0@] == self.rooms@[i].1,
    {
        lemma_index_of_unique(self.room_names(), i);
        assert(self.room_names().contains(self.room_names()[i]));
    }

    pub fn new() -> (r: Self)
        ensures
            r.wf(),
            r.room_list() == Seq::<(Seq<char>, RegistryV2)>::empty(),
    {
        let r = Self { rooms: Vec::new() };
        assert(r.room_list() =~= Seq::<(Seq<char>, RegistryV2)>::empty());
        r
    }

    fn find(&self, name: &str) -> (r: Option<usize>)
        requires
            self.wf(),
        ensures
            match r {
                Some(i) => i < self.rooms@.len() && self.rooms@[i as int].0@ == name@,
                None => !self.rooms().contains_key(name@),
            },
    {
        let mut i: usize = 0;
        while i < self.rooms.len()
            invariant
                i <= self.rooms@.len(),
                forall|j: int| 0 <= j < i ==> self.rooms@[j].0@ != name@,
            decreases self.rooms@.len() - i,
        {
            if text_eq(self.rooms[i].0.as_str(), name) {
                return Some(i);
            }
            i = i + 1;
        }
        proof {
            if self.rooms().contains_key(name@) {
                let j = self.lemma_room_lookup(name@);
                self.lemma_room(j);
            }
        }
        None
    }

    /// Register a room's registry.
    pub fn add_room(&mut self, room_name: &str, registry: RegistryV2)
        requires
            old(self).wf(),
            registry.wf(),
        ensures
            final(self).wf(),
            final(self).rooms() == old(self).rooms().insert(room_name@, registry),
            final(self).room_list() == (if old(self).rooms().contains_key(room_name@) {
                old(self).room_list().update(
                    old(self).room_names().index_of(room_name@),
                    (room_name@, registry),
                )
            } else {
                old(self).room_list().push((room_name@, registry))
            }),
    {
        let ghost before = *self;
        let ghost reg = registry;
        match self.find(room_name) {
            Some(i) => {
                proof {
                    before.lemma_room(i as int);
                    lemma_index_of_unique(before.room_names(), i as int);
                }
                self.rooms.set(i, (room_name.to_owned(), registry));
                proof {
                    assert(self.room_list() =~= before.room_list().update(i as int, (room_name@, reg)));
                    assert(self.room_names() =~= before.room_names());
                    assert forall|k: Seq<char>| #[trigger] self.rooms().contains_key(k) implies
                        self.rooms()[k] == before.rooms().insert(room_name@, reg)[k] by {
                        let j = self.lemma_room_lookup(k);
                        if j != i {
                            before.lemma_room_at(j);
                        }
                    }
                    assert forall|k: Seq<char>| #[trigger] before.rooms().insert(
                        room_name@,
                        reg,
                    ).contains_key(k) implies self.rooms().contains_key(k) by {
                        if k == room_name@ {
                            assert(self.room_names()[i as int] == k);
                        }
                    }
                    assert(self.rooms() =~= before.rooms().insert(room_name@, reg));
                }
            },
            None => {
                self.rooms.push((room_name.to_owned(), registry));
                proof {
                    assert(self.room_list() =~= before.room_list().push((room_name@, reg)));
                    assert(self.room_names() =~= before.room_names().push(room_name@));
                    assert forall|k: Seq<char>| #[trigger] self.rooms().contains_key(k) implies
                        self.rooms()[k] == before.rooms().insert(room_name@, reg)[k] by {
                        let j = self.lemma_room_lookup(k);
                        if j < before.rooms@.len() {
                            before.lemma_room_at(j);
                        }
                    }
                    assert forall|k: Seq<char>| #[trigger] before.rooms().insert(
                        room_name@,
                        reg,
                    ).contains_key(k) implies self.rooms().contains_key(k) by {
                        if k == room_name@ {
                            assert(self.room_names()[before.rooms@.len() as int] == k);
                        } else {
                            let j = before.lemma_room_lookup(k);
                            assert(self.room_names()[j] == k);
                        }
                    }
                    assert(self.rooms() =~= before.rooms().insert(room_name@, reg));
                }
            },
        }
    }

    /// Get a room's registry.
    pub fn room_registry(&self, room_name: &str) -> (r: Option<&RegistryV2>)
        requires
            self.wf(),
        ensures
            match r {
                Some(reg) => self.rooms().contains_key(room_name@) && *reg == self.rooms()[room_name@],
                None => !self.rooms().contains_key(room_name@),
            },
    {
        match self.find(room_name) {
            Some(i) => {
                proof { self.lemma_room_at(i as int); }
                Some(&self.rooms[i].1)
            },
            None => None,
        }
    }

    pub fn room_count(&self) -> (n: usize)
        requires
            self.wf(),
        ensures
            n == self.rooms().len(),
            n == self.room_list().len(),
    {
        proof {
            assert(self.rooms().dom() =~= self.room_names().to_set());
            self.room_names().unique_seq_to_set();
        }
        self.rooms.len()
    }

    /// Whether every room has a skill of that name.
    fn has_everywhere(&self, k: &str) -> (r: bool)
        requires
            self.wf(),
        ensures
            r == self.in_every_room(k@),
    {
        let mut i: usize = 0;
        while i < self.rooms.len()
            invariant
                self.wf(),
                i <= self.rooms@.len(),
                forall|j: int| 0 <= j < i ==> (#[trigger] self.room_list()[j]).1.skills().contains_key(k@),
            decreases self.rooms@.len() - i,
        {
            proof { self.lemma_room(i as int); }
            if !self.rooms[i].1.contains_skill(k) {
                return false;
            }
            i = i + 1;
        }
        true
    }

    /// Whether no room but the `i`-th has a skill of that name.
    fn only_in(&self, i: usize, k: &str) -> (r: bool)
        requires
            self.wf(),
            i < self.rooms@.len(),
        ensures
            r == self.only_in_room(i as int, k@),
    {
        let mut j: usize = 0;
        while j < self.rooms.len()
            invariant
                self.wf(),
                j <= self.rooms@.len(),
                forall|t: int|
                    0 <= t < j && t != i ==> !(#[trigger] self.room_list()[t]).1.skills().contains_key(k@),
            decreases self.rooms@.len() - j,
        {
            proof { self.lemma_room(j as int); }
            if j != i && self.rooms[j].1.contains_skill(k) {
                return false;
            }
            j = j + 1;
        }
        true
    }

    /// Find skills that exist in ALL rooms.
    pub fn common_skills(&self) -> (r: NameSet)
        requires
            self.wf(),
        ensures
            r.wf(),
            r.elems() == self.common_order(),
            forall|k: Seq<char>| #[trigger] r.view_set().contains(k) <==> (self.room_list().len() > 0
                && self.in_every_room(k)),
    {
        let mut out: Vec<String> = Vec::new();
        if self.rooms.len() == 0 {
            let r = NameSet { names: out };
            assert(r.elems() =~= Seq::<Seq<char>>::empty());
            return r;
        }
        proof { self.lemma_room(0); }
        let first = &self.rooms[0].1;
        let names = first.skill_names();
        let ghost ns = first.names();
        let ghost p = |k: Seq<char>| self.in_every_room(k);
        let mut i: usize = 0;
        assert(ns.take(0).filter(p) =~= Seq::<Seq<char>>::empty()) by {
            reveal(Seq::filter);
        }
        while i < names.len()
            invariant
                self.wf(),
                i <= names@.len(),
                names@.map_values(|s: &str| s@) == ns,
                p == (|k: Seq<char>| self.in_every_room(k)),
                out@.map_values(|s: String| s@) == ns.take(i as int).filter(p),
            decreases names@.len() - i,
        {
            let k = names[i];
            assert(ns[i as int] == k@);
            proof { lemma_filter_take_step(ns, p, i as int); }
            let ghost before = out@.map_values(|s: String| s@);
            if self.has_everywhere(k) {
                out.push(k.to_owned());
                assert(out@.map_values(|s: String| s@) =~= before.push(k@));
            }
            i = i + 1;
        }
        assert(ns.take(i as int) =~= ns);
        let r = NameSet { names: out };
        proof {
            first.lemma_names_are_keys();
            lemma_filter_no_duplicates(ns, p);
            assert forall|k: Seq<char>| #[trigger] r.view_set().contains(k) <==> (self.room_list().len() > 0
                && self.in_every_room(k)) by {
                lemma_filter_membership(ns, p, k);
                if self.in_every_room(k) {
                    assert(self.room_list()[0].1.skills().contains_key(k));
                }
            }
        }
        r
    }

    /// Find version mismatches for common skills across rooms.
    pub fn version_mismatches(&self) -> (r: Vec<(String, Vec<(String, SkillVersion)>)>)
        requires
            self.wf(),
        ensures
            report_view(r@) == self.mismatch_report(),
    {
        let common = self.common_skills();
        let ghost cs = common.elems();
        let ghost p = |k: Seq<char>| self.has_mismatch(k);
        let ghost f = |k: Seq<char>| (k, self.versions_across(k));
        let mut mismatches: Vec<(String, Vec<(String, SkillVersion)>)> = Vec::new();
        let mut i: usize = 0;
        assert(cs.take(0).filter(p) =~= Seq::<Seq<char>>::empty()) by {
            reveal(Seq::filter);
        }
        while i < common.names.len()
            invariant
                self.wf(),
                cs == common.elems(),
                cs == self.common_order(),
                i <= cs.len(),
                p == (|k: Seq<char>| self.has_mismatch(k)),
                f == (|k: Seq<char>| (k, self.versions_across(k))),
                report_view(mismatches@) == cs.take(i as int).filter(p).map_values(f),
            decreases cs.len() - i,
        {
            let skill = &common.names[i];
            let ghost k = skill@;
            assert(cs[i as int] == k);
            proof {
                lemma_filter_take_step(cs, p, i as int);
                if self.room_list().len() > 0 {
                    self.lemma_room(0);
                    lemma_filter_membership(
                        self.room_list()[0].1.names(),
                        |k: Seq<char>| self.in_every_room(k),
                        k,
                    );
                }
            }
            assert(self.in_every_room(k));
            let mut versions: Vec<(String, SkillVersion)> = Vec::new();
            let mut j: usize = 0;
            while j < self.rooms.len()
                invariant
                    self.wf(),
                    self.in_every_room(k),
                    k == skill@,
                    j <= self.rooms@.len(),
                    versions@.map_values(|q: (String, SkillVersion)| (q.0@, q.1)) == self.versions_across(
                        k,
                    ).take(j as int),
                decreases self.rooms@.len() - j,
            {
                proof { self.lemma_room(j as int); }
                let ghost before = versions@.map_values(|q: (String, SkillVersion)| (q.0@, q.1));
                match self.rooms[j].1.version_of(skill.as_str()) {
                    Some(v) => {
                        versions.push((self.rooms[j].0.clone(), v));
                        assert(versions@.map_values(|q: (String, SkillVersion)| (q.0@, q.1))
                            =~= before.push((self.room_names()[j as int], v)));
                    },
                    None => {
                        assert(self.room_list()[j as int].1.skills().contains_key(k));
                    },
                }
                assert(self.versions_across(k).take(j + 1) =~= self.versions_across(k).take(
                    j as int,
                ).push(self.versions_across(k)[j as int]));
                j = j + 1;
            }
            let ghost vs = self.versions_across(k);
            assert(vs.take(j as int) =~= vs);
            proof {
                if self.room_list().len() == 0 {
                    assert(cs.len() == 0);
                }
            }
            let first_ver = versions[0].1;
            let mut any = false;
            let mut t: usize = 0;
            while t < versions.len()
                invariant
                    t <= versions@.len(),
                    versions@.len() == vs.len(),
                    vs.len() == self.room_list().len(),
                    first_ver == vs[0].1,
                    forall|u: int| 0 <= u < vs.len() ==> #[trigger] vs[u].1 == versions@[u].1,
                    any == exists|u: int| 0 <= u < t && #[trigger] vs[u].1 != vs[0].1,
                decreases versions@.len() - t,
            {
                assert(vs[t as int].1 == versions@[t as int].1);
                if versions[t].1 != first_ver {
                    any = true;
                }
                t = t + 1;
            }
            assert(any == self.has_mismatch(k));
            let ghost before = report_view(mismatches@);
            if any {
                mismatches.push((skill.clone(), versions));
                assert(report_view(mismatches@) =~= before.push(f(k)));
                assert(cs.take(i as int).filter(p).push(k).map_values(f)
                    =~= cs.take(i as int).filter(p).map_values(f).push(f(k)));
            }
            i = i + 1;
        }
        assert(cs.take(i as int) =~= cs);
        mismatches
    }

    /// Find skills that only exist in one room.
    pub fn unique_skills(&self) -> (r: SkillsByRoom)
        requires
            self.wf(),
        ensures
            r.wf(),
            forall|n: Seq<char>| #[trigger] r.view_map().contains_key(n) ==> self.room_names().contains(n),
            forall|i: int|
                0 <= i < self.room_list().len() ==> (r.view_map().contains_key(
                    #[trigger] self.room_names()[i],
                ) <==> self.unique_in(i).len() > 0),
            forall|i: int|
                0 <= i < self.room_list().len() && self.unique_in(i).len() > 0 ==> r.view_map()[
                #[trigger] self.room_names()[i]] == self.unique_in(i),
    {
        let mut out: Vec<(String, Vec<String>)> = Vec::new();
        let ghost mut origin: Seq<int> = Seq::empty();
        let mut i: usize = 0;
        while i < self.rooms.len()
            invariant
                self.wf(),
                i <= self.rooms@.len(),
                (SkillsByRoom { entries: out }).wf(),
                origin.len() == out@.len(),
                forall|q: int|
                    0 <= q < out@.len() ==> 0 <= #[trigger] origin[q] < i && (SkillsByRoom {
                        entries: out,
                    }).pairs()[q] == (
                        self.room_names()[origin[q]],
                        self.unique_in(origin[q]),
                    ) && self.unique_in(origin[q]).len() > 0,
                forall|t: int|
                    0 <= t < i && self.unique_in(t).len() > 0 ==> #[trigger] (SkillsByRoom {
                        entries: out,
                    }).keys().contains(self.room_names()[t]),
            decreases self.rooms@.len() - i,
        {
            proof { self.lemma_room(i as int); }
            let reg = &self.rooms[i].1;
            let names = reg.skill_names();
            let ghost ns = reg.names();
            let ghost p = |k: Seq<char>| self.only_in_room(i as int, k);
            let mut list: Vec<String> = Vec::new();
            let mut j: usize = 0;
            assert(ns.take(0).filter(p) =~= Seq::<Seq<char>>::empty()) by {
                reveal(Seq::filter);
            }
            while j < names.len()
                invariant
                    self.wf(),
                    i < self.rooms@.len(),
                    j <= names@.len(),
                    names@.map_values(|s: &str| s@) == ns,
                    p == (|k: Seq<char>| self.only_in_room(i as int, k)),
                    list@.map_values(|s: String| s@) == ns.take(j as int).filter(p),
                decreases names@.len() - j,
            {
                let k = names[j];
                assert(ns[j as int] == k@);
                proof { lemma_filter_take_step(ns, p, j as int); }
                let ghost before = list@.map_values(|s: String| s@);
                if self.only_in(i, k) {
                    list.push(k.to_owned());
                    assert(list@.map_values(|s: String| s@) =~= before.push(k@));
                }
                j = j + 1;
            }
            assert(ns.take(j as int) =~= ns);
            assert(self.room_list()[i as int].1 == *reg);
            assert(list@.map_values(|s: String| s@) == self.unique_in(i as int));
            let ghost old_map = SkillsByRoom { entries: out };
            if list.len() > 0 {
                let ghost uniq = list@.map_values(|s: String| s@);
                let room = self.rooms[i].0.clone();
                assert(room@ == self.room_names()[i as int]);
                out.push((room, list));
                proof {
                    let new_map = SkillsByRoom { entries: out };
                    let key = self.room_names()[i as int];
                    assert(new_map.pairs() =~= old_map.pairs().push((key, uniq)));
                    assert(new_map.keys() =~= old_map.keys().push(key));
                    assert(!old_map.keys().contains(key)) by {
                        if old_map.keys().contains(key) {
                            let q = choose|q: int| 0 <= q < old_map.keys().len() && old_map.keys()[q] == key;
                            assert(old_map.pairs()[q].0 == key);
                            assert(self.room_names()[origin[q]] == self.room_names()[i as int]);
                        }
                    }
                    origin = origin.push(i as int);
                    assert forall|t: int|
                        0 <= t < i + 1 && self.unique_in(t).len() > 0 implies #[trigger] new_map.keys().contains(
                        self.room_names()[t],
                    ) by {
                        if t < i {
                            assert(old_map.keys().contains(self.room_names()[t]));
                            let q = choose|q: int| 0 <= q < old_map.keys().len() && old_map.keys()[q] == self.room_names()[t];
                            assert(new_map.keys()[q] == self.room_names()[t]);
                        } else {
                            assert(new_map.keys()[old_map.keys().len() as int] == self.room_names()[t]);
                        }
                    }
                }
            }
            i = i + 1;
        }
        let r = SkillsByRoom { entries: out };
        proof {
            assert forall|n: Seq<char>| #[trigger] r.view_map().contains_key(n) implies self.room_names().contains(n) by {
                let q = choose|q: int| 0 <= q < r.keys().len() && r.keys()[q] == n;
                assert(r.keys()[q] == r.pairs()[q].0);
                assert(self.room_names()[origin[q]] == n);
            }
            assert forall|t: int|
                0 <= t < self.room_list().len() && self.unique_in(t).len() > 0 implies r.view_map()[
                #[trigger] self.room_names()[t]] == self.unique_in(t) by {
                let n = self.room_names()[t];
                assert(r.keys().contains(n));
                let q = r.keys().index_of(n);
                assert(r.keys()[q] == r.pairs()[q].0);
                assert(self.room_names()[origin[q]] == self.room_names()[t]);
            }
            assert forall|t: int| 0 <= t < self.room_list().len() implies (r.view_map().contains_key(
                #[trigger] self.room_names()[t],
            ) <==> self.unique_in(t).len() > 0) by {
                let n = self.room_names()[t];
                if r.view_map().contains_key(n) {
                    let q = choose|q: int| 0 <= q < r.keys().len() && r.keys()[q] == n;
                    assert(r.keys()[q] == r.pairs()[q].0);
                    assert(self.room_names()[origin[q]] == self.room_names()[t]);
                }
            }
        }
        r
    }
}

/// A skill is reported as mismatched exactly when every room has it and not
/// all rooms have it at the same version; each report lists every room once.
pub proof fn law_mismatch_report_members(s: RegistrySync, k: Seq<char>)
    requires
        s.wf(),
    ensures
        s.mismatch_report().map_values(|e: (Seq<char>, Seq<(Seq<char>, SkillVersion)>)| e.0).contains(k)
            <==> (s.room_list().len() > 0 && s.in_every_room(k) && s.has_mismatch(k)),
        forall|q: int|
            0 <= q < s.mismatch_report().len() ==> (#[trigger] s.mismatch_report()[q]).1.len()
                == s.room_list().len(),
{
    let keys = s.mismatch_report().map_values(|e: (Seq<char>, Seq<(Seq<char>, SkillVersion)>)| e.0);
    let p = |k: Seq<char>| s.has_mismatch(k);
    let fl = s.common_order().filter(p);
    assert(keys =~= fl);
    lemma_filter_membership(s.common_order(), p, k);
    if s.room_list().len() > 0 {
        let names = s.room_list()[0].1.names();
        let q = |k: Seq<char>| s.in_every_room(k);
        lemma_filter_membership(names, q, k);
        s.room_list()[0].1.lemma_names_are_keys();
        if s.in_every_room(k) {
            assert(s.room_list()[0].1.skills().contains_key(k));
        }
    }
}

/// A skill is reported as mismatched exactly when every room has it and two
/// rooms hold it at versions that differ in any part (major, minor or patch);
/// if all rooms hold the same version it is not reported.
pub proof fn law_mismatch_means_versions_differ(s: RegistrySync, k: Seq<char>)
    requires
        s.wf(),
    ensures
        s.mismatch_report().map_values(|e: (Seq<char>, Seq<(Seq<char>, SkillVersion)>)| e.0).contains(k)
            <==> (s.room_list().len() > 0 && s.in_every_room(k) && exists|i: int, j: int|
            0 <= i < s.room_list().len() && 0 <= j < s.room_list().len()
                && (#[trigger] s.room_list()[i]).1.skills()[k].version != (#[trigger] s.room_list()[j]).1.skills()[k].version),
{
    law_mismatch_report_members(s, k);
    let vs = s.versions_across(k);
    if s.has_mismatch(k) {
        let i = choose|i: int| 0 <= i < s.room_list().len() && #[trigger] vs[i].1 != vs[0].1;
        assert(vs[i].1 == s.room_list()[i].1.skills()[k].version);
        assert(vs[0].1 == s.room_list()[0].1.skills()[k].version);
    }
    if exists|i: int, j: int|
        0 <= i < s.room_list().len() && 0 <= j < s.room_list().len()
            && (#[trigger] s.room_list()[i]).1.skills()[k].version != (#[trigger] s.room_list()[j]).1.skills()[k].version {
        let (i, j) = choose|i: int, j: int|
            0 <= i < s.room_list().len() && 0 <= j < s.room_list().len()
                && (#[trigger] s.room_list()[i]).1.skills()[k].version != (#[trigger] s.room_list()[j]).1.skills()[k].version;
        assert(vs[i].1 == s.room_list()[i].1.skills()[k].version);
        assert(vs[j].1 == s.room_list()[j].1.skills()[k].version);
        if vs[i].1 == vs[0].1 {
            assert(vs[j].1 != vs[0].1);
        }
    }
}

/// A skill listed as unique to room `i` is registered in room `i` and in no
/// other room at all; every skill registered in room `i` and in no other room
/// is listed.
pub proof fn law_unique_means_held_by_one_room(s: RegistrySync, i: int, k: Seq<char>)
    requires
        s.wf(),
        0 <= i < s.room_list().len(),
    ensures
        s.unique_in(i).contains(k) <==> (s.room_list()[i].1.skills().contains_key(k) && forall|j: int|
            0 <= j < s.room_list().len() && j != i ==> !(#[trigger] s.room_list()[j]).1.skills().contains_key(k)),
{
    let reg = s.room_list()[i].1;
    assert(reg.wf());
    reg.lemma_names_are_keys();
    lemma_filter_membership(reg.names(), |x: Seq<char>| s.only_in_room(i, x), k);
}

/// A skill is common exactly when there is a room and no room lacks it.
pub proof fn law_common_means_no_room_lacks_it(s: RegistrySync, k: Seq<char>)
    requires
        s.wf(),
    ensures
        (s.room_list().len() > 0 && s.in_every_room(k)) <==> (s.room_list().len() > 0 && !exists|i: int|
            0 <= i < s.room_list().len() && !(#[trigger] s.room_list()[i]).1.skills().contains_key(k)),
{
}

/// With no room there is nothing in common, nothing unique and no mismatch.
pub proof fn law_no_rooms(s: RegistrySync)
    requires
        s.room_list().len() == 0,
    ensures
        s.common_order().len() == 0,
        s.mismatch_report().len() == 0,
{
    assert(s.common_order() =~= Seq::<Seq<char>>::empty());
    assert(Seq::<Seq<char>>::empty().filter(|k: Seq<char>| s.has_mismatch(k)) =~= Seq::<Seq<char>>::empty()) by {
        reveal(Seq::filter);
    }
}

impl Default for RegistrySync {
    fn default() -> (r: Self)
        ensures
            r.wf(),
            r.room_list() == Seq::<(Seq<char>, RegistryV2)>::empty(),
    {
        Self::new()
    }
}

} // verus!
