use vstd::prelude::*;
use crate::map::Position;

verus! {

/// Whether no key occurs twice among `entries`.
pub open spec fn keys_distinct<V>(entries: Seq<(Position, V)>) -> bool {
    forall|i: int, j: int|
        0 <= i < entries.len() && 0 <= j < entries.len() && i != j
            ==> #[trigger] entries[i].0 != #[trigger] entries[j].0
}

/// Whether `k` is the key of one of `entries`.
pub open spec fn has_key<V>(entries: Seq<(Position, V)>, k: Position) -> bool {
    exists|i: int| 0 <= i < entries.len() && #[trigger] entries[i].0 == k
}

/// The map from positions to values that `entries` spells out.
pub open spec fn entries_map<V>(entries: Seq<(Position, V)>) -> Map<Position, V> {
    Map::new(
        |k: Position| has_key(entries, k),
        |k: Position| entries[choose|i: int| 0 <= i < entries.len() && #[trigger] entries[i].0 == k].1,
    )
}

/// A table from grid positions to values, kept as a list of entries in
/// the order in which their keys first arrived.
pub struct PositionMap<V> {
    entries: Vec<(Position, V)>,
}

impl<V> View for PositionMap<V> {
    type V = Map<Position, V>;

    closed spec fn view(&self) -> Map<Position, V> {
        entries_map(self.entries@)
    }
}

/// With distinct keys, entry `i` is what the map holds for its key.
pub proof fn lemma_entry_in_map<V>(entries: Seq<(Position, V)>, i: int)
    requires
        keys_distinct(entries),
        0 <= i < entries.len(),
    ensures
        entries_map(entries).contains_key(entries[i].0),
        entries_map(entries)[entries[i].0] == entries[i].1,
{
    let k = entries[i].0;
    assert(has_key(entries, k));
    let j = choose|j: int| 0 <= j < entries.len() && #[trigger] entries[j].0 == k;
    assert(j == i);
}

impl<V: Copy> PositionMap<V> {
    /// The list of entries, in order.
    pub closed spec fn entries(&self) -> Seq<(Position, V)> {
        self.entries@
    }

    /// No key occurs twice, so each entry speaks for its key alone.
    pub closed spec fn wf(&self) -> bool {
        keys_distinct(self.entries@)
    }

    pub proof fn lemma_view(&self)
        requires
            self.wf(),
        ensures
            self@ == entries_map(self.entries()),
            self@.dom().finite(),
            self@.len() == self.entries().len(),
            keys_distinct(self.entries()),
            forall|k: Position| #[trigger] self@.contains_key(k) <==> has_key(self.entries(), k),
            forall|i: int| 0 <= i < self.entries().len() ==>
                #[trigger] self@.contains_key(self.entries()[i].0)
                && self@[self.entries()[i].0] == self.entries()[i].1,
    {
        self.lemma_len();
        assert forall|i: int| 0 <= i < self.entries().len() implies
            #[trigger] self@.contains_key(self.entries()[i].0)
            && self@[self.entries()[i].0] == self.entries()[i].1 by {
            lemma_entry_in_map(self.entries@, i);
        }
    }

    pub fn new() -> (m: Self)
        ensures
            m.wf(),
            m@ == Map::<Position, V>::empty(),
            m.entries().len() == 0,
    {
        let m = PositionMap { entries: Vec::new() };
        assert(m@ =~= Map::<Position, V>::empty());
        m
    }

    pub fn len(&self) -> (n: usize)
        requires
            self.wf(),
        ensures
            n == self.entries().len(),
            n == self@.len(),
    {
        proof { self.lemma_len(); }
        self.entries.len()
    }

    proof fn lemma_len(&self)
        requires
            self.wf(),
        ensures
            self@.len() == self.entries().len(),
            self@.dom().finite(),
    {
        let s = self.entries@;
        let keys = s.map_values(|e: (Position, V)| e.0);
        assert(keys.no_duplicates()) by {
            assert forall|i: int, j: int| 0 <= i < keys.len() && 0 <= j < keys.len() && i != j
                implies keys[i] != keys[j] by {
                assert(s[i].0 != s[j].0);
            }
        }
        assert(self@.dom() =~= keys.to_set()) by {
            assert forall|k: Position| self@.dom().contains(k) implies keys.to_set().contains(k) by {
                let i = choose|i: int| 0 <= i < s.len() && #[trigger] s[i].0 == k;
                assert(keys[i] == k);
            }
            assert forall|k: Position| keys.to_set().contains(k) implies self@.dom().contains(k) by {
                let i = choose|i: int| 0 <= i < keys.len() && keys[i] == k;
                assert(s[i].0 == k);
            }
        }
        keys.unique_seq_to_set();
    }

    /// The entry at place `i` of the list.
    pub fn entry(&self, i: usize) -> (e: (Position, V))
        requires
            i < self.entries().len(),
        ensures
            e == self.entries()[i as int],
    {
        self.entries[i]
    }

    /// The place of key `k` in the list, if it is there.
    pub fn find(&self, k: Position) -> (r: Option<usize>)
        requires
            self.wf(),
        ensures
            r is None <==> !self@.contains_key(k),
            r matches Some(i) ==> i < self.entries().len() && self.entries()[i as int].0 == k,
    {
        proof { self.lemma_view(); }
        let n = self.entries.len();
        let mut i: usize = 0;
        while i < n
            invariant
                n == self.entries@.len(),
                i <= n,
                forall|j: int| 0 <= j < i ==> self.entries@[j].0 != k,
            decreases n - i,
        {
            if self.entries[i].0 == k {
                return Some(i);
            }
            i = i + 1;
        }
        None
    }

    pub fn get(&self, k: Position) -> (r: Option<V>)
        requires
            self.wf(),
        ensures
            r == (if self@.contains_key(k) { Some(self@[k]) } else { None::<V> }),
    {
        proof { self.lemma_view(); }
        match self.find(k) {
            Some(i) => Some(self.entries[i].1),
            None => None,
        }
    }

    pub fn contains_key(&self, k: Position) -> (b: bool)
        requires
            self.wf(),
        ensures
            b == self@.contains_key(k),
    {
        self.find(k).is_some()
    }

    /// Binds `k` to `v`; a key already present keeps its place in the list.
    pub fn insert(&mut self, k: Position, v: V)
        requires
            old(self).wf(),
        ensures
            final(self).wf(),
            final(self)@ == old(self)@.insert(k, v),
    {
        proof { self.lemma_view(); }
        match self.find(k) {
            Some(i) => {
                self.entries.set(i, (k, v));
                proof {
                    let s = self.entries@;
                    assert(keys_distinct(s)) by {
                        assert forall|a: int, b: int|
                            0 <= a < s.len() && 0 <= b < s.len() && a != b
                            implies #[trigger] s[a].0 != #[trigger] s[b].0 by {
                            assert(old(self).entries@[a].0 == s[a].0);
                            assert(old(self).entries@[b].0 == s[b].0);
                        }
                    }
                    self.lemma_view();
                    assert(self@ =~= old(self)@.insert(k, v)) by {
                        assert forall|q: Position| #[trigger] self@.contains_key(q)
                            <==> old(self)@.insert(k, v).contains_key(q) by {
                            if has_key(s, q) {
                                let j = choose|j: int| 0 <= j < s.len() && #[trigger] s[j].0 == q;
                                assert(old(self).entries@[j].0 == q);
                            }
                            if has_key(old(self).entries@, q) {
                                let j = choose|j: int| 0 <= j < old(self).entries@.len()
                                    && #[trigger] old(self).entries@[j].0 == q;
                                assert(s[j].0 == q);
                            }
                        }
                        assert forall|q: Position| #[trigger] self@.contains_key(q)
                            implies self@[q] == old(self)@.insert(k, v)[q] by {
                            let j = choose|j: int| 0 <= j < s.len() && #[trigger] s[j].0 == q;
                            if q != k {
                                assert(old(self).entries@[j].0 == q);
                            }
                        }
                    }
                }
            },
            None => {
                self.entries.push((k, v));
                proof {
                    let s = self.entries@;
                    let o = old(self).entries@;
                    assert(keys_distinct(s)) by {
                        assert forall|a: int, b: int|
                            0 <= a < s.len() && 0 <= b < s.len() && a != b
                            implies #[trigger] s[a].0 != #[trigger] s[b].0 by {
                            if a < o.len() && b < o.len() {
                                assert(o[a].0 == s[a].0);
                                assert(o[b].0 == s[b].0);
                            } else if a < o.len() {
                                assert(o[a].0 == s[a].0);
                                assert(has_key(o, s[a].0));
                            } else if b < o.len() {
                                assert(o[b].0 == s[b].0);
                                assert(has_key(o, s[b].0));
                            }
                        }
                    }
                    self.lemma_view();
                    assert(self@ =~= old(self)@.insert(k, v)) by {
                        assert forall|q: Position| #[trigger] self@.contains_key(q)
                            <==> old(self)@.insert(k, v).contains_key(q) by {
                            if has_key(s, q) && q != k {
                                let j = choose|j: int| 0 <= j < s.len() && #[trigger] s[j].0 == q;
                                assert(o[j].0 == q);
                            }
                            if has_key(o, q) {
                                let j = choose|j: int| 0 <= j < o.len() && #[trigger] o[j].0 == q;
                                assert(s[j].0 == q);
                            }
                            if q == k {
                                assert(s[o.len() as int].0 == k);
                            }
                        }
                        assert forall|q: Position| #[trigger] self@.contains_key(q)
                            implies self@[q] == old(self)@.insert(k, v)[q] by {
                            let j = choose|j: int| 0 <= j < s.len() && #[trigger] s[j].0 == q;
                            if q != k {
                                assert(o[j].0 == q);
                            } else {
                                assert(s[o.len() as int].0 == k);
                            }
                        }
                    }
                }
            },
        }
    }

    /// Drops the binding of `k`, if any; the other entries keep their order.
    pub fn remove(&mut self, k: Position)
        requires
            old(self).wf(),
        ensures
            final(self).wf(),
            final(self)@ == old(self)@.remove(k),
    {
        proof { self.lemma_view(); }
        match self.find(k) {
            Some(i) => {
                self.entries.remove(i);
                proof {
                    let s = self.entries@;
                    let o = old(self).entries@;
                    assert forall|a: int| 0 <= a < s.len() implies
                        #[trigger] s[a] == o[if a < i { a } else { a + 1 }] by {}
                    assert(keys_distinct(s)) by {
                        assert forall|a: int, b: int|
                            0 <= a < s.len() && 0 <= b < s.len() && a != b
                            implies #[trigger] s[a].0 != #[trigger] s[b].0 by {
                            let a2 = if a < i { a } else { a + 1 };
                            let b2 = if b < i { b } else { b + 1 };
                            assert(s[a] == o[a2]);
                            assert(s[b] == o[b2]);
                        }
                    }
                    self.lemma_view();
                    assert(self@ =~= old(self)@.remove(k)) by {
                        assert forall|q: Position| #[trigger] self@.contains_key(q)
                            <==> old(self)@.remove(k).contains_key(q) by {
                            if has_key(s, q) {
                                let j = choose|j: int| 0 <= j < s.len() && #[trigger] s[j].0 == q;
                                let j2 = if j < i { j } else { j + 1 };
                                assert(s[j] == o[j2]);
                                assert(o[j2].0 == q);
                            }
                            if has_key(o, q) && q != k {
                                let j = choose|j: int| 0 <= j < o.len() && #[trigger] o[j].0 == q;
                                assert(j != i);
                                if j < i {
                                    assert(s[j] == o[j]);
                                } else {
                                    assert(s[j - 1] == o[j]);
                                }
                            }
                        }
                        assert forall|q: Position| #[trigger] self@.contains_key(q)
                            implies self@[q] == old(self)@.remove(k)[q] by {
                            let j = choose|j: int| 0 <= j < s.len() && #[trigger] s[j].0 == q;
                            let j2 = if j < i { j } else { j + 1 };
                            assert(s[j] == o[j2]);
                            lemma_entry_in_map(o, j2);
                        }
                    }
                }
            },
            None => {
                assert(self@ =~= old(self)@.remove(k));
            },
        }
    }
}

impl<V: Copy> Clone for PositionMap<V> {
    /// An entry-for-entry copy.
    fn clone(&self) -> (r: Self)
        ensures
            r.entries() == self.entries(),
            r@ == self@,
            self.wf() ==> r.wf(),
    {
        let mut entries: Vec<(Position, V)> = Vec::new();
        let mut i: usize = 0;
        while i < self.entries.len()
            invariant
                i <= self.entries@.len(),
                entries@ == self.entries@.take(i as int),
            decreases self.entries@.len() - i,
        {
            entries.push(self.entries[i]);
            assert(entries@ =~= self.entries@.take(i + 1));
            i = i + 1;
        }
        assert(entries@ =~= self.entries@);
        PositionMap { entries }
    }
}

} // verus!
