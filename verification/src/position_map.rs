//! A map from agent names to positions, kept as a list of distinct keys.

use vstd::prelude::*;

use crate::position::{AgentId, Position};

verus! {

/// Positions of agents, keyed by agent name. No name occurs twice.
#[derive(Debug)]
pub struct PositionMap {
    entries: Vec<(AgentId, Position)>,
}

/// No two entries of `s` carry the same name.
pub open spec fn keys_distinct(s: Seq<(AgentId, Position)>) -> bool {
    forall|i: int, j: int|
        0 <= i < s.len() && 0 <= j < s.len() && i != j ==> #[trigger] s[i].0@ != #[trigger] s[j].0@
}

/// Some entry of `s` carries the name `k`.
pub open spec fn has_key(s: Seq<(AgentId, Position)>, k: Seq<char>) -> bool {
    exists|i: int| 0 <= i < s.len() && #[trigger] s[i].0@ == k
}

/// The map that a list of entries stands for.
pub open spec fn entries_map(s: Seq<(AgentId, Position)>) -> Map<Seq<char>, Position> {
    Map::new(
        |k: Seq<char>| has_key(s, k),
        |k: Seq<char>| s[choose|i: int| 0 <= i < s.len() && #[trigger] s[i].0@ == k].1,
    )
}

/// With distinct keys, the entry at `i` is what the map holds for its name.
proof fn lemma_entry_in_map(s: Seq<(AgentId, Position)>, i: int)
    requires
        keys_distinct(s),
        0 <= i < s.len(),
    ensures
        entries_map(s).contains_key(s[i].0@),
        entries_map(s)[s[i].0@] == s[i].1,
{
    let k = s[i].0@;
    assert(has_key(s, k));
    let j = choose|j: int| 0 <= j < s.len() && #[trigger] s[j].0@ == k;
    assert(s[j].0@ == k);
}

impl View for PositionMap {
    type V = Map<Seq<char>, Position>;

    closed spec fn view(&self) -> Map<Seq<char>, Position> {
        entries_map(self.entries@)
    }
}

impl PositionMap {
    #[verifier::type_invariant]
    spec fn distinct_keys(self) -> bool {
        keys_distinct(self.entries@)
    }

    /// An empty map.
    pub fn new() -> (m: PositionMap)
        ensures
            m@ == Map::<Seq<char>, Position>::empty(),
    {
        let m = PositionMap { entries: Vec::new() };
        assert(m@ =~= Map::<Seq<char>, Position>::empty());
        m
    }

    /// Index of the entry for `key`, if there is one.
    fn find(&self, key: &AgentId) -> (idx: Option<usize>)
        ensures
            match idx {
                Some(i) => i < self.entries.len() && self.entries@[i as int].0@ == key@,
                None => !has_key(self.entries@, key@),
            },
    {
        let mut i: usize = 0;
        while i < self.entries.len()
            invariant
                i <= self.entries.len(),
                forall|j: int| 0 <= j < i ==> #[trigger] self.entries@[j].0@ != key@,
            decreases self.entries.len() - i,
        {
            if self.entries[i].0 == *key {
                return Some(i);
            }
            i += 1;
        }
        None
    }

    /// Number of agents with a position.
    pub fn len(&self) -> (n: usize)
        ensures
            n == self@.dom().len(),
    {
        proof {
            use_type_invariant(self);
            self.lemma_dom_len();
        }
        self.entries.len()
    }

    proof fn lemma_dom_len(&self)
        requires
            keys_distinct(self.entries@),
        ensures
            self@.dom().finite(),
            self@.dom().len() == self.entries@.len(),
    {
        let s = self.entries@;
        let keys = s.map_values(|e: (AgentId, Position)| e.0@);
        assert(keys.no_duplicates()) by {
            assert forall|i: int, j: int|
                0 <= i < keys.len() && 0 <= j < keys.len() && i != j implies keys[i] != keys[j] by {
                assert(s[i].0@ != s[j].0@);
            }
        }
        assert(self@.dom() =~= keys.to_set()) by {
            assert forall|k: Seq<char>| self@.dom().contains(k) implies keys.to_set().contains(k) by {
                let i = choose|i: int| 0 <= i < s.len() && #[trigger] s[i].0@ == k;
                assert(keys[i] == k);
            }
            assert forall|k: Seq<char>| keys.to_set().contains(k) implies self@.dom().contains(k) by {
                let i = choose|i: int| 0 <= i < keys.len() && keys[i] == k;
                assert(s[i].0@ == k);
            }
        }
        keys.unique_seq_to_set();
    }

    /// The position of `key`, if it has one.
    pub fn get(&self, key: &AgentId) -> (r: Option<&Position>)
        ensures
            match r {
                Some(p) => self@.contains_key(key@) && *p == self@[key@],
                None => !self@.contains_key(key@),
            },
    {
        proof {
            use_type_invariant(self);
        }
        match self.find(key) {
            Some(i) => {
                proof {
                    lemma_entry_in_map(self.entries@, i as int);
                }
                Some(&self.entries[i].1)
            },
            None => None,
        }
    }

    /// Whether `key` has a position.
    pub fn contains_key(&self, key: &AgentId) -> (b: bool)
        ensures
            b == self@.contains_key(key@),
    {
        self.get(key).is_some()
    }

    /// Set the position of `key`, returning its previous position.
    pub fn insert(&mut self, key: AgentId, value: Position) -> (prev: Option<Position>)
        ensures
            final(self)@ == old(self)@.insert(key@, value),
            prev == (if old(self)@.contains_key(key@) {
                Some(old(self)@[key@])
            } else {
                None
            }),
    {
        proof {
            use_type_invariant(&*self);
        }
        let ghost old_entries = self.entries@;
        match self.find(&key) {
            Some(i) => {
                let prev_value = self.entries[i].1;
                proof {
                    lemma_entry_in_map(old_entries, i as int);
                }
                let ghost k = key@;
                let ghost new_entries = old_entries.update(i as int, (key, value));
                proof {
                    assert(keys_distinct(new_entries)) by {
                        assert forall|a: int, b: int|
                            0 <= a < new_entries.len() && 0 <= b < new_entries.len() && a != b
                            implies #[trigger] new_entries[a].0@ != #[trigger] new_entries[b].0@ by {
                            assert(old_entries[a].0@ != old_entries[b].0@);
                        }
                    }
                }
                let mut entries: Vec<(AgentId, Position)> = Vec::new();
                std::mem::swap(&mut entries, &mut self.entries);
                entries.set(i, (key, value));
                self.entries = entries;
                proof {
                    assert(self.entries@ == new_entries);
                    assert(entries_map(new_entries) =~= entries_map(old_entries).insert(k, value))
                        by {
                        assert forall|q: Seq<char>|
                            #[trigger] has_key(new_entries, q) == (has_key(old_entries, q) || q
                                == k) by {
                            if has_key(old_entries, q) {
                                let j = choose|j: int|
                                    0 <= j < old_entries.len() && #[trigger] old_entries[j].0@
                                        == q;
                                assert(new_entries[j].0@ == q);
                            }
                            if has_key(new_entries, q) {
                                let j = choose|j: int|
                                    0 <= j < new_entries.len() && #[trigger] new_entries[j].0@
                                        == q;
                                assert(old_entries[j].0@ == q);
                            }
                            if q == k {
                                assert(new_entries[i as int].0@ == q);
                            }
                        }
                        assert forall|q: Seq<char>| has_key(new_entries, q) implies entries_map(
                            new_entries,
                        )[q] == entries_map(old_entries).insert(k, value)[q] by {
                            let j = choose|j: int|
                                0 <= j < new_entries.len() && #[trigger] new_entries[j].0@ == q;
                            lemma_entry_in_map(new_entries, j);
                            assert(old_entries[j].0@ == q);
                            lemma_entry_in_map(old_entries, j);
                        }
                    }
                }
                Some(prev_value)
            },
            None => {
                let ghost k = key@;
                let ghost new_entries = old_entries.push((key, value));
                proof {
                    assert(keys_distinct(new_entries)) by {
                        assert forall|a: int, b: int|
                            0 <= a < new_entries.len() && 0 <= b < new_entries.len() && a != b
                            implies #[trigger] new_entries[a].0@ != #[trigger] new_entries[b].0@ by {
                            if a < old_entries.len() && b < old_entries.len() {
                                assert(old_entries[a].0@ != old_entries[b].0@);
                            } else if a < old_entries.len() {
                                assert(old_entries[a].0@ != k);
                            } else {
                                assert(old_entries[b].0@ != k);
                            }
                        }
                    }
                }
                let mut entries: Vec<(AgentId, Position)> = Vec::new();
                std::mem::swap(&mut entries, &mut self.entries);
                entries.push((key, value));
                self.entries = entries;
                proof {
                    assert(self.entries@ == new_entries);
                    assert(entries_map(new_entries) =~= entries_map(old_entries).insert(k, value))
                        by {
                        assert forall|q: Seq<char>|
                            #[trigger] has_key(new_entries, q) == (has_key(old_entries, q) || q
                                == k) by {
                            if has_key(old_entries, q) {
                                let j = choose|j: int|
                                    0 <= j < old_entries.len() && #[trigger] old_entries[j].0@
                                        == q;
                                assert(new_entries[j].0@ == q);
                            }
                            if has_key(new_entries, q) && q != k {
                                let j = choose|j: int|
                                    0 <= j < new_entries.len() && #[trigger] new_entries[j].0@
                                        == q;
                                assert(old_entries[j].0@ == q);
                            }
                            if q == k {
                                assert(new_entries[old_entries.len() as int].0@ == q);
                            }
                        }
                        assert forall|q: Seq<char>| has_key(new_entries, q) implies entries_map(
                            new_entries,
                        )[q] == entries_map(old_entries).insert(k, value)[q] by {
                            let j = choose|j: int|
                                0 <= j < new_entries.len() && #[trigger] new_entries[j].0@ == q;
                            lemma_entry_in_map(new_entries, j);
                            if q != k {
                                assert(old_entries[j].0@ == q);
                                lemma_entry_in_map(old_entries, j);
                            }
                        }
                    }
                }
                None
            },
        }
    }
}

/// Two entry lists with the same names and positions, index by index, stand
/// for the same map.
proof fn lemma_same_entries(s: Seq<(AgentId, Position)>, t: Seq<(AgentId, Position)>)
    requires
        s.len() == t.len(),
        forall|i: int| 0 <= i < s.len() ==> #[trigger] s[i].0@ == t[i].0@ && s[i].1 == t[i].1,
        keys_distinct(s),
    ensures
        keys_distinct(t),
        entries_map(s) == entries_map(t),
{
    assert forall|a: int, b: int| 0 <= a < t.len() && 0 <= b < t.len() && a != b implies #[trigger] t[a].0@
        != #[trigger] t[b].0@ by {
        assert(s[a].0@ != s[b].0@);
    }
    assert forall|q: Seq<char>| #[trigger] has_key(s, q) == has_key(t, q) by {
        if has_key(s, q) {
            let j = choose|j: int| 0 <= j < s.len() && #[trigger] s[j].0@ == q;
            assert(t[j].0@ == q);
        }
        if has_key(t, q) {
            let j = choose|j: int| 0 <= j < t.len() && #[trigger] t[j].0@ == q;
            assert(s[j].0@ == q);
        }
    }
    assert forall|q: Seq<char>| has_key(s, q) implies entries_map(s)[q] == entries_map(t)[q] by {
        let j = choose|j: int| 0 <= j < s.len() && #[trigger] s[j].0@ == q;
        lemma_entry_in_map(s, j);
        assert(t[j].0@ == q);
        lemma_entry_in_map(t, j);
    }
    assert(entries_map(s) =~= entries_map(t));
}

impl PositionMap {
    /// Remove the position of `key`, returning it.
    pub fn remove(&mut self, key: &AgentId) -> (prev: Option<Position>)
        ensures
            final(self)@ == old(self)@.remove(key@),
            prev == (if old(self)@.contains_key(key@) {
                Some(old(self)@[key@])
            } else {
                None
            }),
    {
        proof {
            use_type_invariant(&*self);
        }
        let ghost old_entries = self.entries@;
        let ghost k = key@;
        match self.find(key) {
            Some(i) => {
                proof {
                    lemma_entry_in_map(old_entries, i as int);
                }
                let ghost new_entries = old_entries.remove(i as int);
                proof {
                    assert forall|a: int| 0 <= a < new_entries.len() implies #[trigger] new_entries[a]
                        == old_entries[if a < i { a } else { a + 1 }] by {}
                    assert(keys_distinct(new_entries)) by {
                        assert forall|a: int, b: int|
                            0 <= a < new_entries.len() && 0 <= b < new_entries.len() && a != b
                            implies #[trigger] new_entries[a].0@ != #[trigger] new_entries[b].0@ by {
                            let a2 = if a < i { a } else { a + 1 };
                            let b2 = if b < i { b } else { b + 1 };
                            assert(old_entries[a2].0@ != old_entries[b2].0@);
                        }
                    }
                }
                let mut entries: Vec<(AgentId, Position)> = Vec::new();
                std::mem::swap(&mut entries, &mut self.entries);
                let removed = entries.remove(i);
                self.entries = entries;
                proof {
                    assert(self.entries@ == new_entries);
                    assert(entries_map(new_entries) =~= entries_map(old_entries).remove(k)) by {
                        assert forall|q: Seq<char>|
                            #[trigger] has_key(new_entries, q) == (has_key(old_entries, q) && q
                                != k) by {
                            if has_key(old_entries, q) && q != k {
                                let j = choose|j: int|
                                    0 <= j < old_entries.len() && #[trigger] old_entries[j].0@
                                        == q;
                                assert(j != i);
                                let j2 = if j < i { j } else { j - 1 };
                                assert(new_entries[j2].0@ == q);
                            }
                            if has_key(new_entries, q) {
                                let j = choose|j: int|
                                    0 <= j < new_entries.len() && #[trigger] new_entries[j].0@
                                        == q;
                                let j2 = if j < i { j } else { j + 1 };
                                assert(old_entries[j2].0@ == q);
                                assert(old_entries[i as int].0@ != old_entries[j2].0@);
                            }
                        }
                        assert forall|q: Seq<char>| has_key(new_entries, q) implies entries_map(
                            new_entries,
                        )[q] == entries_map(old_entries)[q] by {
                            let j = choose|j: int|
                                0 <= j < new_entries.len() && #[trigger] new_entries[j].0@ == q;
                            lemma_entry_in_map(new_entries, j);
                            let j2 = if j < i { j } else { j + 1 };
                            assert(old_entries[j2].0@ == q);
                            lemma_entry_in_map(old_entries, j2);
                        }
                    }
                }
                Some(removed.1)
            },
            None => {
                assert(entries_map(old_entries) =~= entries_map(old_entries).remove(k));
                None
            },
        }
    }
}

impl PositionMap {
    /// Every agent with a position, paired with that position, each name once.
    pub fn entries(&self) -> (list: Vec<(AgentId, Position)>)
        ensures
            keys_distinct(list@),
            entries_map(list@) == self@,
            list.len() == self@.dom().len(),
    {
        proof {
            use_type_invariant(self);
            self.lemma_dom_len();
        }
        let mut list: Vec<(AgentId, Position)> = Vec::new();
        let mut i: usize = 0;
        while i < self.entries.len()
            invariant
                i <= self.entries.len(),
                list.len() == i,
                forall|j: int|
                    0 <= j < i ==> #[trigger] list@[j].0@ == self.entries@[j].0@ && list@[j].1
                        == self.entries@[j].1,
            decreases self.entries.len() - i,
        {
            let name = self.entries[i].0.clone();
            let pos = self.entries[i].1;
            list.push((name, pos));
            i += 1;
        }
        proof {
            lemma_same_entries(self.entries@, list@);
        }
        list
    }
}

impl Clone for PositionMap {
    fn clone(&self) -> (copy: PositionMap)
        ensures
            copy@ == self@,
    {
        proof {
            use_type_invariant(self);
        }
        let mut entries: Vec<(AgentId, Position)> = Vec::new();
        let mut i: usize = 0;
        while i < self.entries.len()
            invariant
                i <= self.entries.len(),
                entries.len() == i,
                forall|j: int|
                    0 <= j < i ==> #[trigger] entries@[j].0@ == self.entries@[j].0@ && entries@[j].1
                        == self.entries@[j].1,
            decreases self.entries.len() - i,
        {
            let name = self.entries[i].0.clone();
            let pos = self.entries[i].1;
            entries.push((name, pos));
            i += 1;
        }
        proof {
            lemma_same_entries(self.entries@, entries@);
        }
        PositionMap { entries }
    }
}

/// Reading a name back after writing it gives what was written; writing or
/// removing one name leaves every other name as it was; after a removal the
/// name has no position.
pub proof fn lemma_read_after_write(m: PositionMap, key: Seq<char>, other: Seq<char>, p: Position)
    requires
        key != other,
    ensures
        m@.insert(key, p).contains_key(key),
        m@.insert(key, p)[key] == p,
        m@.insert(key, p).contains_key(other) == m@.contains_key(other),
        m@.contains_key(other) ==> m@.insert(key, p)[other] == m@[other],
        !m@.remove(key).contains_key(key),
        m@.remove(key).contains_key(other) == m@.contains_key(other),
        m@.contains_key(other) ==> m@.remove(key)[other] == m@[other],
{
}

} // verus!
