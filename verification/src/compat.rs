//! A symmetric matrix of which skill pairs are known compatible or not.
use vstd::prelude::*;
use crate::seq_facts::lemma_index_of_unique;
use crate::text::text_eq;

verus! {

/// The other side of a stored pair `e` that is marked incompatible and names
/// `name` on one side; `None` for any other pair.
pub open spec fn incompatible_partner(name: Seq<char>, e: (Seq<char>, Seq<char>, bool)) -> Option<
    Seq<char>,
> {
    if !e.2 && (e.0 == name || e.1 == name) {
        Some(
            if e.0 == name {
                e.1
            } else {
                e.0
            },
        )
    } else {
        None
    }
}

/// The pair part of each entry.
pub open spec fn entry_keys(es: Seq<(Seq<char>, Seq<char>, bool)>) -> Seq<(Seq<char>, Seq<char>)> {
    es.map_values(|e: (Seq<char>, Seq<char>, bool)| (e.0, e.1))
}

/// The entries after marking the ordered pair (a, b) with `c`: an entry already
/// stored for the pair is overwritten in place, else one is appended.
pub open spec fn put_entry(
    es: Seq<(Seq<char>, Seq<char>, bool)>,
    a: Seq<char>,
    b: Seq<char>,
    c: bool,
) -> Seq<(Seq<char>, Seq<char>, bool)> {
    if entry_keys(es).contains((a, b)) {
        es.update(entry_keys(es).index_of((a, b)), (a, b, c))
    } else {
        es.push((a, b, c))
    }
}

/// If `f` maps an element of `s` to `x`, then `x` is among the results.
proof fn lemma_filter_map_has<A, B>(s: Seq<A>, f: spec_fn(A) -> Option<B>, t: int, x: B)
    requires
        0 <= t < s.len(),
        f(s[t]) == Some(x),
    ensures
        s.filter_map(f).contains(x),
    decreases s.len(),
{
    let rest = s.drop_last();
    if t == s.len() - 1 {
        let out = rest.filter_map(f) + seq![x];
        assert(out[out.len() - 1] == x);
    } else {
        assert(rest[t] == s[t]);
        lemma_filter_map_has(rest, f, t, x);
        let k = choose|k: int| 0 <= k < rest.filter_map(f).len() && rest.filter_map(f)[k] == x;
        match f(s.last()) {
            Some(y) => {
                assert((rest.filter_map(f) + seq![y])[k] == x);
            },
            None => {},
        }
    }
}

/// The matrix that `new()` followed by `set(a, b, c)` for each `(a, b, c)` of
/// `ops`, in order, leaves behind.
pub open spec fn history_matrix(ops: Seq<(Seq<char>, Seq<char>, bool)>) -> Map<
    (Seq<char>, Seq<char>),
    bool,
>
    decreases ops.len(),
{
    if ops.len() == 0 {
        Map::empty()
    } else {
        let op = ops.last();
        history_matrix(ops.drop_last()).insert((op.0, op.1), op.2).insert((op.1, op.0), op.2)
    }
}

/// The mark of the last call in `ops` that set the pair {a, b}, in either
/// order; `None` if no call did.
pub open spec fn last_mark(ops: Seq<(Seq<char>, Seq<char>, bool)>, a: Seq<char>, b: Seq<char>) -> Option<bool>
    decreases ops.len(),
{
    if ops.len() == 0 {
        None
    } else {
        let op = ops.last();
        if (op.0 == a && op.1 == b) || (op.0 == b && op.1 == a) {
            Some(op.2)
        } else {
            last_mark(ops.drop_last(), a, b)
        }
    }
}

/// The unordered pairs {a, b} that the calls in `ops` set.
pub open spec fn set_pairs(ops: Seq<(Seq<char>, Seq<char>, bool)>) -> Set<Set<Seq<char>>>
    decreases ops.len(),
{
    if ops.len() == 0 {
        Set::empty()
    } else {
        set_pairs(ops.drop_last()).insert(set![ops.last().0, ops.last().1])
    }
}

/// Every call in `ops` names two different skills.
pub open spec fn distinct_sides(ops: Seq<(Seq<char>, Seq<char>, bool)>) -> bool {
    forall|i: int| 0 <= i < ops.len() ==> (#[trigger] ops[i]).0 != ops[i].1
}

/// Two two-element sets are equal exactly when their elements agree in some
/// order.
proof fn lemma_pair_set_eq(a: Seq<char>, b: Seq<char>, x: Seq<char>, y: Seq<char>)
    requires
        a != b,
    ensures
        set![a, b] == set![x, y] <==> ((x == a && y == b) || (x == b && y == a)),
{
    if set![a, b] == set![x, y] {
        assert(set![x, y].contains(a));
        assert(set![x, y].contains(b));
        assert(set![a, b].contains(x));
        assert(set![a, b].contains(y));
    }
    if (x == a && y == b) || (x == b && y == a) {
        assert(set![a, b] =~= set![x, y]);
    }
}

/// Over a history of `set` calls with two different names each, the marked
/// ordered pairs are the two orders of each set unordered pair.
proof fn lemma_history_keys(ops: Seq<(Seq<char>, Seq<char>, bool)>, x: Seq<char>, y: Seq<char>)
    requires
        distinct_sides(ops),
    ensures
        history_matrix(ops).contains_key((x, y)) <==> set_pairs(ops).contains(set![x, y]),
    decreases ops.len(),
{
    if ops.len() > 0 {
        let d = ops.drop_last();
        let op = ops.last();
        assert forall|i: int| 0 <= i < d.len() implies (#[trigger] d[i]).0 != d[i].1 by {
            assert(d[i] == ops[i]);
        }
        assert(ops[ops.len() - 1] == op);
        lemma_history_keys(d, x, y);
        lemma_pair_set_eq(op.0, op.1, x, y);
    }
}

/// Over such a history the matrix holds two entries per set unordered pair.
proof fn lemma_history_len(ops: Seq<(Seq<char>, Seq<char>, bool)>)
    requires
        distinct_sides(ops),
    ensures
        history_matrix(ops).dom().finite(),
        set_pairs(ops).finite(),
        history_matrix(ops).len() == 2 * set_pairs(ops).len(),
    decreases ops.len(),
{
    if ops.len() > 0 {
        let d = ops.drop_last();
        let op = ops.last();
        assert forall|i: int| 0 <= i < d.len() implies (#[trigger] d[i]).0 != d[i].1 by {
            assert(d[i] == ops[i]);
        }
        assert(ops[ops.len() - 1] == op);
        lemma_history_len(d);
        let m = history_matrix(d);
        let m1 = m.insert((op.0, op.1), op.2);
        let m2 = m1.insert((op.1, op.0), op.2);
        lemma_history_keys(d, op.0, op.1);
        lemma_history_keys(d, op.1, op.0);
        lemma_pair_set_eq(op.0, op.1, op.1, op.0);
        assert(m1.dom() == m.dom().insert((op.0, op.1)));
        assert(m2.dom() == m1.dom().insert((op.1, op.0)));
        assert((op.0, op.1) != (op.1, op.0));
        if set_pairs(d).contains(set![op.0, op.1]) {
            assert(m.dom().insert((op.0, op.1)) =~= m.dom());
            assert(m.dom().insert((op.1, op.0)) =~= m.dom());
        } else {
            assert(!m1.dom().contains((op.1, op.0)));
        }
    }
}

/// The compatibility that a history of `set` calls leaves for (a, b): the mark
/// of the last call on the pair {a, b} in either order, or compatible if no
/// call touched it. Hence the answer is the same both ways round.
pub proof fn law_history_compatibility(ops: Seq<(Seq<char>, Seq<char>, bool)>, a: Seq<char>, b: Seq<char>)
    ensures
        history_matrix(ops).contains_key((a, b)) <==> last_mark(ops, a, b) is Some,
        history_matrix(ops).contains_key((a, b)) ==> history_matrix(ops)[(a, b)] == last_mark(ops, a, b)->0,
        last_mark(ops, a, b) == last_mark(ops, b, a),
    decreases ops.len(),
{
    if ops.len() > 0 {
        law_history_compatibility(ops.drop_last(), a, b);
    }
}

/// Over a history of `set` calls each naming two different skills, the matrix
/// holds exactly two ordered entries for each distinct unordered pair, so
/// `entry_count` counts the distinct unordered pairs set.
pub proof fn law_history_entry_count(ops: Seq<(Seq<char>, Seq<char>, bool)>)
    requires
        distinct_sides(ops),
    ensures
        history_matrix(ops).len() / 2 == set_pairs(ops).len(),
{
    lemma_history_len(ops);
}

/// Compatibility matrix: tracks which skill versions work together.
#[derive(Clone, Debug)]
pub struct SkillCompat {
    /// (skill_a, skill_b) → compatible or not, each ordered pair stored once.
    pairs: Vec<(String, String, bool)>,
}

impl SkillCompat {
    /// The stored entries, in the order in which each pair was first set.
    pub closed spec fn entries(self) -> Seq<(Seq<char>, Seq<char>, bool)> {
        self.pairs@.map_values(|p: (String, String, bool)| (p.0@, p.1@, p.2))
    }

    /// The ordered pairs that are marked, in entry order.
    pub open spec fn keys(self) -> Seq<(Seq<char>, Seq<char>)> {
        entry_keys(self.entries())
    }

    /// Which ordered pairs are marked, and how.
    pub open spec fn matrix(self) -> Map<(Seq<char>, Seq<char>), bool> {
        Map::new(
            |k: (Seq<char>, Seq<char>)| self.keys().contains(k),
            |k: (Seq<char>, Seq<char>)| self.entries()[self.keys().index_of(k)].2,
        )
    }

    /// Each ordered pair is stored once, and a pair and its mirror are always
    /// both marked, the same way.
    pub closed spec fn wf(self) -> bool {
        &&& self.keys().no_duplicates()
        &&& forall|a: Seq<char>, b: Seq<char>| #[trigger]
            self.matrix().contains_key((a, b)) ==> self.matrix().contains_key((b, a))
                && self.matrix()[(b, a)] == self.matrix()[(a, b)]
    }

    /// What `is_compatible` answers: a marked pair's mark, else compatible.
    pub open spec fn compatible(self, a: Seq<char>, b: Seq<char>) -> bool {
        if self.matrix().contains_key((a, b)) {
            self.matrix()[(a, b)]
        } else {
            true
        }
    }

    /// What `incompatible_with` lists for `name`, one name per matching entry.
    pub open spec fn incompatible_names(self, name: Seq<char>) -> Seq<Seq<char>> {
        self.entries().filter_map(|e: (Seq<char>, Seq<char>, bool)| incompatible_partner(name, e))
    }

    proof fn lemma_at(self, i: int)
        requires
            self.keys().no_duplicates(),
            0 <= i < self.pairs@.len(),
        ensures
            self.keys()[i] == (self.pairs@[i].0@, self.pairs@[i].1@),
            self.entries()[i] == (self.pairs@[i].0@, self.pairs@[i].1@, self.pairs@[i].2),
            self.matrix().contains_key(self.keys()[i]),
            self.matrix()[self.keys()[i]] == self.pairs@[i].2,
    {
        lemma_index_of_unique(self.keys(), i);
        assert(self.keys().contains(self.keys()[i]));
    }

    proof fn lemma_lookup(self, k: (Seq<char>, Seq<char>)) -> (j: int)
        requires
            self.keys().no_duplicates(),
            self.matrix().contains_key(k),
        ensures
            0 <= j < self.pairs@.len(),
            self.keys()[j] == k,
            self.matrix()[k] == self.pairs@[j].2,
    {
        assert(self.keys().contains(k));
        self.keys().index_of(k)
    }

    fn find(&self, a: &str, b: &str) -> (r: Option<usize>)
        requires
            self.keys().no_duplicates(),
        ensures
            match r {
                Some(i) => i < self.pairs@.len() && self.keys()[i as int] == (a@, b@),
                None => !self.matrix().contains_key((a@, b@)),
            },
    {
        let mut i: usize = 0;
        while i < self.pairs.len()
            invariant
                i <= self.pairs@.len(),
                forall|j: int| 0 <= j < i ==> self.keys()[j] != (a@, b@),
            decreases self.pairs@.len() - i,
        {
            if text_eq(self.pairs[i].0.as_str(), a) && text_eq(self.pairs[i].1.as_str(), b) {
                return Some(i);
            }
            i = i + 1;
        }
        proof {
            if self.matrix().contains_key((a@, b@)) {
                let j = self.lemma_lookup((a@, b@));
            }
        }
        None
    }

    /// Marks one ordered pair.
    fn put(&mut self, a: &str, b: &str, compatible: bool)
        requires
            old(self).keys().no_duplicates(),
        ensures
            final(self).keys().no_duplicates(),
            final(self).matrix() == old(self).matrix().insert((a@, b@), compatible),
            final(self).entries() == put_entry(old(self).entries(), a@, b@, compatible),
    {
        let ghost before = *self;
        let ghost key = (a@, b@);
        match self.find(a, b) {
            Some(i) => {
                self.pairs.set(i, (a.to_owned(), b.to_owned(), compatible));
                proof {
                    lemma_index_of_unique(before.keys(), i as int);
                    assert(before.keys().contains(key));
                    assert(self.entries() =~= before.entries().update(i as int, (a@, b@, compatible)));
                    assert(self.keys() =~= before.keys());
                    assert forall|k: (Seq<char>, Seq<char>)| #[trigger] self.matrix().contains_key(k)
                        implies self.matrix()[k] == before.matrix().insert(key, compatible)[k] by {
                        let j = self.lemma_lookup(k);
                        before.lemma_at(j);
                    }
                    assert forall|k: (Seq<char>, Seq<char>)| #[trigger] before.matrix().insert(
                        key,
                        compatible,
                    ).contains_key(k) implies self.matrix().contains_key(k) by {
                        before.lemma_at(i as int);
                    }
                    assert(self.matrix() =~= before.matrix().insert(key, compatible));
                }
            },
            None => {
                self.pairs.push((a.to_owned(), b.to_owned(), compatible));
                proof {
                    assert(self.entries() =~= before.entries().push((a@, b@, compatible)));
                    assert(self.keys() =~= before.keys().push(key));
                    assert forall|k: (Seq<char>, Seq<char>)| #[trigger] self.matrix().contains_key(k)
                        implies self.matrix()[k] == before.matrix().insert(key, compatible)[k] by {
                        let j = self.lemma_lookup(k);
                        if j < before.pairs@.len() {
                            before.lemma_at(j);
                        }
                    }
                    assert forall|k: (Seq<char>, Seq<char>)| #[trigger] before.matrix().insert(
                        key,
                        compatible,
                    ).contains_key(k) implies self.matrix().contains_key(k) by {
                        if k == key {
                            assert(self.keys()[before.keys().len() as int] == k);
                        } else {
                            let j = before.lemma_lookup(k);
                            assert(self.keys()[j] == k);
                        }
                    }
                    assert(self.matrix() =~= before.matrix().insert(key, compatible));
                }
            },
        }
    }

    pub fn new() -> (r: Self)
        ensures
            r.wf(),
            r.matrix() == Map::<(Seq<char>, Seq<char>), bool>::empty(),
            r.entries() == Seq::<(Seq<char>, Seq<char>, bool)>::empty(),
    {
        let r = Self { pairs: Vec::new() };
        assert(r.matrix() =~= Map::<(Seq<char>, Seq<char>), bool>::empty());
        assert(r.entries() =~= Seq::<(Seq<char>, Seq<char>, bool)>::empty());
        r
    }

    /// Mark two skills as compatible or incompatible.
    pub fn set(&mut self, a: &str, b: &str, compatible: bool)
        requires
            old(self).wf(),
        ensures
            final(self).wf(),
            final(self).matrix() == old(self).matrix().insert((a@, b@), compatible).insert(
                (b@, a@),
                compatible,
            ),
            final(self).entries() == put_entry(
                put_entry(old(self).entries(), a@, b@, compatible),
                b@,
                a@,
                compatible,
            ),
    {
        self.put(a, b, compatible);
        self.put(b, a, compatible);
        proof {
            let m = self.matrix();
            assert forall|x: Seq<char>, y: Seq<char>| #[trigger]
                m.contains_key((x, y)) implies m.contains_key((y, x)) && m[(y, x)] == m[(x, y)] by {
                if (x, y) != (a@, b@) && (x, y) != (b@, a@) {
                    assert((y, x) != (a@, b@) && (y, x) != (b@, a@));
                }
            }
        }
    }

    /// Check compatibility. Returns true if no entry exists (assumed compatible).
    pub fn is_compatible(&self, a: &str, b: &str) -> (r: bool)
        requires
            self.wf(),
        ensures
            r == self.compatible(a@, b@),
    {
        match self.find(a, b) {
            Some(i) => {
                proof { self.lemma_at(i as int); }
                self.pairs[i].2
            },
            None => true,
        }
    }

    /// Find all skills incompatible with a given one.
    pub fn incompatible_with(&self, name: &str) -> (r: Vec<&str>)
        ensures
            r@.map_values(|s: &str| s@) == self.incompatible_names(name@),
    {
        let ghost f = |e: (Seq<char>, Seq<char>, bool)| incompatible_partner(name@, e);
        let mut r: Vec<&str> = Vec::new();
        let mut i: usize = 0;
        assert(self.entries().take(0) =~= Seq::<(Seq<char>, Seq<char>, bool)>::empty());
        while i < self.pairs.len()
            invariant
                i <= self.pairs@.len(),
                f == (|e: (Seq<char>, Seq<char>, bool)| incompatible_partner(name@, e)),
                r@.map_values(|s: &str| s@) == self.entries().take(i as int).filter_map(f),
            decreases self.pairs@.len() - i,
        {
            let p = &self.pairs[i];
            let ghost before = r@.map_values(|s: &str| s@);
            proof {
                self.entries().lemma_filter_map_take_succ(f, i as int);
                assert(self.entries()[i as int] == (p.0@, p.1@, p.2));
            }
            if !p.2 {
                if text_eq(p.0.as_str(), name) {
                    r.push(p.1.as_str());
                    assert(r@.map_values(|s: &str| s@) =~= before + seq![p.1@]);
                } else if text_eq(p.1.as_str(), name) {
                    r.push(p.0.as_str());
                    assert(r@.map_values(|s: &str| s@) =~= before + seq![p.0@]);
                } else {
                    assert(before + Seq::<Seq<char>>::empty() =~= before);
                }
            } else {
                assert(before + Seq::<Seq<char>>::empty() =~= before);
            }
            i = i + 1;
        }
        assert(self.entries().take(i as int) =~= self.entries());
        r
    }

    pub fn entry_count(&self) -> (n: usize)
        requires
            self.wf(),
        ensures
            n == self.matrix().len() / 2,
    {
        proof {
            assert(self.matrix().dom() =~= self.keys().to_set());
            self.keys().unique_seq_to_set();
        }
        self.pairs.len() / 2
    }

    /// After `set(a, b, c)` both orders of the pair answer `c`; every other
    /// pair answers as before.
    pub proof fn law_set_then_read(
        before: SkillCompat,
        after: SkillCompat,
        a: Seq<char>,
        b: Seq<char>,
        c: bool,
        x: Seq<char>,
        y: Seq<char>,
    )
        requires
            after.matrix() == before.matrix().insert((a, b), c).insert((b, a), c),
        ensures
            after.compatible(a, b) == c,
            after.compatible(b, a) == c,
            (x, y) != (a, b) && (x, y) != (b, a) ==> after.compatible(x, y) == before.compatible(x, y),
    {
    }

    /// `new()` starts the empty history, and each `set` extends it by its call:
    /// the matrix after any run of calls is `history_matrix` of those calls.
    pub proof fn law_set_extends_history(
        before: SkillCompat,
        after: SkillCompat,
        ops: Seq<(Seq<char>, Seq<char>, bool)>,
        a: Seq<char>,
        b: Seq<char>,
        c: bool,
    )
        requires
            before.matrix() == history_matrix(ops),
            after.matrix() == before.matrix().insert((a, b), c).insert((b, a), c),
        ensures
            history_matrix(Seq::empty()) == Map::<(Seq<char>, Seq<char>), bool>::empty(),
            after.matrix() == history_matrix(ops.push((a, b, c))),
    {
        assert(ops.push((a, b, c)).drop_last() =~= ops);
    }

    /// After `new()` and any run of `set` calls, `is_compatible(a, b)` answers
    /// the mark of the last call on {a, b} in either order, or compatible if
    /// none touched it; `entry_count` counts the distinct unordered pairs set,
    /// when every call names two different skills.
    pub proof fn law_compatibility_over_history(self, ops: Seq<(Seq<char>, Seq<char>, bool)>, a: Seq<char>, b: Seq<char>)
        requires
            self.matrix() == history_matrix(ops),
        ensures
            self.compatible(a, b) == match last_mark(ops, a, b) {
                Some(c) => c,
                None => true,
            },
            self.compatible(a, b) == self.compatible(b, a),
            distinct_sides(ops) ==> self.matrix().len() / 2 == set_pairs(ops).len(),
    {
        law_history_compatibility(ops, a, b);
        law_history_compatibility(ops, b, a);
        if distinct_sides(ops) {
            law_history_entry_count(ops);
        }
    }

    /// A pair that was never set is compatible.
    pub proof fn law_unset_pairs_compatible(self, a: Seq<char>, b: Seq<char>)
        requires
            !self.matrix().contains_key((a, b)),
        ensures
            self.compatible(a, b),
    {
    }

    /// Compatibility is symmetric: a pair and its mirror always get the same
    /// answer.
    pub proof fn law_compatibility_symmetric(self, a: Seq<char>, b: Seq<char>)
        requires
            self.wf(),
        ensures
            self.compatible(a, b) == self.compatible(b, a),
    {
        if self.matrix().contains_key((b, a)) {
            assert(self.matrix().contains_key((a, b)));
        }
    }

    /// `incompatible_with(name)` lists `other` exactly when the pair
    /// (name, other) is marked incompatible.
    pub proof fn law_incompatible_list_matches_matrix(self, name: Seq<char>, other: Seq<char>)
        requires
            self.wf(),
        ensures
            self.incompatible_names(name).contains(other) <==> !self.compatible(name, other),
    {
        let f = |e: (Seq<char>, Seq<char>, bool)| incompatible_partner(name, e);
        let es = self.entries();
        if es.filter_map(f).contains(other) {
            es.lemma_filter_map_contains(f, other);
            let e = choose|e: (Seq<char>, Seq<char>, bool)| #[trigger] es.contains(e) && f(e) == Some(other);
            let t = choose|t: int| 0 <= t < es.len() && es[t] == e;
            self.lemma_at(t);
            if e.0 == name {
                assert(self.matrix()[(name, other)] == false);
            } else {
                assert(self.matrix()[(other, name)] == false);
                assert(self.matrix().contains_key((name, other)));
            }
        }
        if !self.compatible(name, other) {
            let t = self.lemma_lookup((name, other));
            self.lemma_at(t);
            assert(f(es[t]) == Some(other));
            lemma_filter_map_has(es, f, t, other);
        }
    }
}

impl Default for SkillCompat {
    fn default() -> (r: Self)
        ensures
            r.wf(),
            r.matrix() == Map::<(Seq<char>, Seq<char>), bool>::empty(),
            r.entries() == Seq::<(Seq<char>, Seq<char>, bool)>::empty(),
    {
        Self::new()
    }
}

} // verus!
