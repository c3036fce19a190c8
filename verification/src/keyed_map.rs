//! A map from string keys to values, kept as a vector of entries sorted by
//! key.  It stands where an ordered map of strings is needed: iteration and
//! "first key" follow the order of [`key_lt`].

use vstd::prelude::*;

use crate::text::{compare_keys, key_lt, lemma_key_lt_irreflexive, lemma_key_lt_total,
    lemma_key_lt_transitive, KeyOrder};

verus! {

/// Entries are strictly increasing by key.
pub open spec fn sorted_keys<V>(s: Seq<(Seq<char>, V)>) -> bool {
    forall|i: int, j: int| #![trigger s[i], s[j]] 0 <= i < j < s.len() ==> key_lt(s[i].0, s[j].0)
}

/// No key occurs twice.
pub open spec fn distinct_keys<V>(s: Seq<(Seq<char>, V)>) -> bool {
    forall|i: int, j: int| #![trigger s[i], s[j]] 0 <= i < j < s.len() ==> s[i].0 != s[j].0
}

/// The map whose entries are those of `s` (a later entry wins).
pub open spec fn entries_to_map<V>(s: Seq<(Seq<char>, V)>) -> Map<Seq<char>, V>
    decreases s.len(),
{
    if s.len() == 0 {
        Map::empty()
    } else {
        entries_to_map(s.drop_last()).insert(s.last().0, s.last().1)
    }
}

/// `m` holds exactly the entries of `s`.
pub open spec fn represents<V>(s: Seq<(Seq<char>, V)>, m: Map<Seq<char>, V>) -> bool {
    &&& forall|i: int| 0 <= i < s.len() ==> #[trigger] m.contains_key(s[i].0) && m[s[i].0] == s[i].1
    &&& forall|k: Seq<char>| #[trigger] m.contains_key(k) ==> exists|i: int| 0 <= i < s.len() && s[i].0 == k
}

pub proof fn lemma_sorted_distinct<V>(s: Seq<(Seq<char>, V)>)
    requires
        sorted_keys(s),
    ensures
        distinct_keys(s),
{
    assert forall|i: int, j: int| 0 <= i < j < s.len() implies s[i].0 != s[j].0 by {
        lemma_key_lt_irreflexive(s[i].0);
    }
}

/// The map built from a sequence without repeated keys holds exactly its
/// entries, is finite, and has as many keys as the sequence has entries.
pub proof fn lemma_entries_to_map<V>(s: Seq<(Seq<char>, V)>)
    requires
        distinct_keys(s),
    ensures
        represents(s, entries_to_map(s)),
        entries_to_map(s).dom().finite(),
        entries_to_map(s).len() == s.len(),
    decreases s.len(),
{
    if s.len() > 0 {
        let p = s.drop_last();
        assert(distinct_keys(p));
        lemma_entries_to_map(p);
        let m = entries_to_map(s);
        let mp = entries_to_map(p);
        assert(!mp.contains_key(s.last().0)) by {
            if mp.contains_key(s.last().0) {
                let i = choose|i: int| 0 <= i < p.len() && p[i].0 == s.last().0;
                assert(s[i] == p[i]);
            }
        }
        assert forall|i: int| 0 <= i < s.len() implies #[trigger] m.contains_key(s[i].0) && m[s[i].0] == s[i].1 by {
            if i < s.len() - 1 {
                assert(s[i] == p[i]);
                assert(s[i].0 != s[s.len() - 1].0);
            }
        }
        assert forall|k: Seq<char>| #[trigger] m.contains_key(k) implies exists|i: int| 0 <= i < s.len() && s[i].0 == k by {
            if k == s.last().0 {
                assert(s[s.len() - 1].0 == k);
            } else {
                assert(mp.contains_key(k));
                let i = choose|i: int| 0 <= i < p.len() && p[i].0 == k;
                assert(s[i] == p[i]);
            }
        }
    }
}

/// A map that holds exactly the entries of a sequence without repeated keys
/// is the map built from that sequence.
pub proof fn lemma_represents_unique<V>(s: Seq<(Seq<char>, V)>, m: Map<Seq<char>, V>)
    requires
        distinct_keys(s),
        represents(s, m),
    ensures
        m == entries_to_map(s),
{
    lemma_entries_to_map(s);
    let e = entries_to_map(s);
    assert forall|k: Seq<char>| m.contains_key(k) <==> e.contains_key(k) by {
        if m.contains_key(k) {
            let i = choose|i: int| 0 <= i < s.len() && s[i].0 == k;
            assert(e.contains_key(s[i].0));
        }
        if e.contains_key(k) {
            let i = choose|i: int| 0 <= i < s.len() && s[i].0 == k;
            assert(m.contains_key(s[i].0));
        }
    }
    assert forall|k: Seq<char>| m.contains_key(k) implies m[k] == e[k] by {
        let i = choose|i: int| 0 <= i < s.len() && s[i].0 == k;
        assert(m.contains_key(s[i].0));
        assert(e.contains_key(s[i].0));
    }
    assert(m =~= e);
}

/// A map from strings (held as their characters) to values, sorted by key.
#[derive(Debug)]
pub struct KeyedMap<V> {
    entries: Vec<(Vec<char>, V)>,
}

impl<V> KeyedMap<V> {
    /// The entries, in increasing key order.
    pub closed spec fn entries_view(&self) -> Seq<(Seq<char>, V)> {
        self.entries@.map_values(|e: (Vec<char>, V)| (e.0@, e.1))
    }

    pub closed spec fn wf(&self) -> bool {
        sorted_keys(self.entries_view())
    }

    /// The map that the entries stand for.
    pub open spec fn to_map(&self) -> Map<Seq<char>, V> {
        entries_to_map(self.entries_view())
    }

    /// Facts every well-formed map offers its users.
    pub proof fn lemma_wf(&self)
        requires
            self.wf(),
        ensures
            sorted_keys(self.entries_view()),
            distinct_keys(self.entries_view()),
            represents(self.entries_view(), self.to_map()),
            self.to_map().dom().finite(),
            self.to_map().len() == self.entries_view().len(),
    {
        lemma_sorted_distinct(self.entries_view());
        lemma_entries_to_map(self.entries_view());
    }

    pub fn new() -> (m: Self)
        ensures
            m.wf(),
            m.entries_view() == Seq::<(Seq<char>, V)>::empty(),
            m.to_map() == Map::<Seq<char>, V>::empty(),
    {
        let m = KeyedMap { entries: Vec::new() };
        assert(m.entries_view() =~= Seq::<(Seq<char>, V)>::empty());
        m
    }

    pub fn len(&self) -> (n: usize)
        requires
            self.wf(),
        ensures
            n == self.entries_view().len(),
            n == self.to_map().len(),
    {
        proof { self.lemma_wf(); }
        self.entries.len()
    }

    /// Where `key` is, or where it would go.
    fn locate(&self, key: &Vec<char>) -> (r: (bool, usize))
        requires
            self.wf(),
        ensures
            r.1 <= self.entries_view().len(),
            forall|j: int| 0 <= j < r.1 ==> key_lt(#[trigger] self.entries_view()[j].0, key@),
            r.1 < self.entries_view().len() ==> !key_lt(self.entries_view()[r.1 as int].0, key@),
            r.0 <==> (r.1 < self.entries_view().len() && self.entries_view()[r.1 as int].0 == key@),
            !r.0 ==> forall|j: int| r.1 <= j < self.entries_view().len() ==> key_lt(key@, #[trigger] self.entries_view()[j].0),
    {
        let ghost s = self.entries_view();
        let mut i: usize = 0;
        while i < self.entries.len()
            invariant
                i <= self.entries@.len(),
                s == self.entries_view(),
                sorted_keys(s),
                s.len() == self.entries@.len(),
                forall|j: int| 0 <= j < i ==> key_lt(#[trigger] s[j].0, key@),
            decreases self.entries.len() - i,
        {
            assert(s[i as int].0 == self.entries@[i as int].0@);
            match compare_keys(&self.entries[i].0, key) {
                KeyOrder::Below => {},
                KeyOrder::Same => {
                    return (true, i);
                },
                KeyOrder::Above => {
                    proof {
                        lemma_key_lt_total(s[i as int].0, key@);
                        assert forall|j: int| i <= j < s.len() implies key_lt(key@, #[trigger] s[j].0) by {
                            if j > i {
                                assert(key_lt(s[i as int].0, s[j].0));
                                lemma_key_lt_transitive(key@, s[i as int].0, s[j].0);
                            }
                        }
                    }
                    return (false, i);
                },
            }
            i = i + 1;
        }
        (false, i)
    }

    /// The value stored under `key`, if any.
    pub fn get(&self, key: &Vec<char>) -> (r: Option<&V>)
        requires
            self.wf(),
        ensures
            match r {
                Some(v) => self.to_map().contains_key(key@) && self.to_map()[key@] == *v,
                None => !self.to_map().contains_key(key@),
            },
    {
        proof { self.lemma_wf(); }
        let (found, pos) = self.locate(key);
        if found {
            assert(self.entries_view()[pos as int] == (self.entries@[pos as int].0@, self.entries@[pos as int].1));
            assert(self.to_map().contains_key(self.entries_view()[pos as int].0));
            Some(&self.entries[pos].1)
        } else {
            proof {
                let s = self.entries_view();
                if self.to_map().contains_key(key@) {
                    let i = choose|i: int| 0 <= i < s.len() && s[i].0 == key@;
                    lemma_key_lt_irreflexive(key@);
                    if i < pos {
                        assert(key_lt(s[i].0, key@));
                    } else {
                        assert(key_lt(key@, s[i].0));
                    }
                }
            }
            None
        }
    }

    /// Stores `value` under `key`, replacing any earlier value.
    #[verifier::spinoff_prover]
    pub fn insert(&mut self, key: Vec<char>, value: V)
        requires
            old(self).wf(),
        ensures
            final(self).wf(),
            final(self).to_map() == old(self).to_map().insert(key@, value),
    {
        proof { self.lemma_wf(); }
        let ghost s = self.entries_view();
        let ghost k = key@;
        let (found, pos) = self.locate(&key);
        if found {
            self.entries.set(pos, (key, value));
            let ghost t = s.update(pos as int, (k, value));
            assert(self.entries_view() =~= t);
            assert(sorted_keys(t)) by {
                assert forall|i: int, j: int| 0 <= i < j < t.len() implies key_lt(#[trigger] t[i].0, #[trigger] t[j].0) by {
                    assert(key_lt(s[i].0, s[j].0));
                }
            }
            proof {
                lemma_sorted_distinct(t);
                let m = s.len();
                let target = entries_to_map(s).insert(k, value);
                assert(represents(t, target)) by {
                    assert forall|i: int| 0 <= i < t.len() implies #[trigger] target.contains_key(t[i].0) && target[t[i].0] == t[i].1 by {
                        if i != pos {
                            assert(t[i] == s[i]);
                            assert(entries_to_map(s).contains_key(s[i].0));
                            if i < pos {
                                assert(s[i].0 != s[pos as int].0);
                            } else {
                                assert(s[pos as int].0 != s[i].0);
                            }
                        }
                    }
                    assert forall|q: Seq<char>| #[trigger] target.contains_key(q) implies exists|i: int| 0 <= i < t.len() && t[i].0 == q by {
                        if q == k {
                            assert(t[pos as int].0 == q);
                        } else {
                            let i = choose|i: int| 0 <= i < s.len() && s[i].0 == q;
                            assert(t[i].0 == q);
                        }
                    }
                }
                lemma_represents_unique(t, target);
            }
        } else {
            self.entries.insert(pos, (key, value));
            let ghost t = s.insert(pos as int, (k, value));
            assert(self.entries_view() =~= t);
            assert(sorted_keys(t)) by {
                assert forall|i: int, j: int| 0 <= i < j < t.len() implies key_lt(#[trigger] t[i].0, #[trigger] t[j].0) by {
                    if i < pos && j < pos {
                        assert(key_lt(s[i].0, s[j].0));
                    } else if i < pos && j == pos {
                    } else if i < pos {
                        assert(key_lt(s[i].0, s[j - 1].0));
                    } else if i == pos {
                        assert(t[j] == s[j - 1]);
                    } else {
                        assert(key_lt(s[i - 1].0, s[j - 1].0));
                    }
                }
            }
            proof {
                lemma_sorted_distinct(t);
                let target = entries_to_map(s).insert(k, value);
                assert(!entries_to_map(s).contains_key(k)) by {
                    if entries_to_map(s).contains_key(k) {
                        let i = choose|i: int| 0 <= i < s.len() && s[i].0 == k;
                        lemma_key_lt_irreflexive(k);
                        if i < pos {
                            assert(key_lt(s[i].0, k));
                        } else {
                            assert(key_lt(k, s[i].0));
                        }
                    }
                }
                assert(represents(t, target)) by {
                    assert forall|i: int| 0 <= i < t.len() implies #[trigger] target.contains_key(t[i].0) && target[t[i].0] == t[i].1 by {
                        if i < pos {
                            assert(t[i] == s[i]);
                            assert(entries_to_map(s).contains_key(s[i].0));
                            assert(s[i].0 != k);
                        } else if i > pos {
                            assert(t[i] == s[i - 1]);
                            assert(entries_to_map(s).contains_key(s[i - 1].0));
                            assert(s[i - 1].0 != k);
                        }
                    }
                    assert forall|q: Seq<char>| #[trigger] target.contains_key(q) implies exists|i: int| 0 <= i < t.len() && t[i].0 == q by {
                        if q == k {
                            assert(t[pos as int].0 == q);
                        } else {
                            let i = choose|i: int| 0 <= i < s.len() && s[i].0 == q;
                            if i < pos {
                                assert(t[i].0 == q);
                            } else {
                                assert(t[i + 1].0 == q);
                            }
                        }
                    }
                }
                lemma_represents_unique(t, target);
            }
        }
    }

    /// Removes the entry at position `pos`.
    #[verifier::spinoff_prover]
    pub fn remove_at(&mut self, pos: usize) -> (v: V)
        requires
            old(self).wf(),
            pos < old(self).entries_view().len(),
        ensures
            final(self).wf(),
            final(self).entries_view() == old(self).entries_view().remove(pos as int),
            final(self).to_map() == old(self).to_map().remove(old(self).entries_view()[pos as int].0),
            v == old(self).entries_view()[pos as int].1,
    {
        proof { self.lemma_wf(); }
        let ghost s = self.entries_view();
        let e = self.entries.remove(pos);
        let ghost t = s.remove(pos as int);
        assert(self.entries_view() =~= t);
        assert(sorted_keys(t)) by {
            assert forall|i: int, j: int| 0 <= i < j < t.len() implies key_lt(#[trigger] t[i].0, #[trigger] t[j].0) by {
                if i < pos && j < pos {
                    assert(key_lt(s[i].0, s[j].0));
                } else if i < pos {
                    assert(key_lt(s[i].0, s[j + 1].0));
                } else {
                    assert(key_lt(s[i + 1].0, s[j + 1].0));
                }
            }
        }
        proof {
            lemma_sorted_distinct(t);
            let k = s[pos as int].0;
            let target = entries_to_map(s).remove(k);
            assert(represents(t, target)) by {
                assert forall|i: int| 0 <= i < t.len() implies #[trigger] target.contains_key(t[i].0) && target[t[i].0] == t[i].1 by {
                    if i < pos {
                        assert(t[i] == s[i]);
                        assert(s[i].0 != s[pos as int].0);
                        assert(entries_to_map(s).contains_key(s[i].0));
                    } else {
                        assert(t[i] == s[i + 1]);
                        assert(s[pos as int].0 != s[i + 1].0);
                        assert(entries_to_map(s).contains_key(s[i + 1].0));
                    }
                }
                assert forall|q: Seq<char>| #[trigger] target.contains_key(q) implies exists|i: int| 0 <= i < t.len() && t[i].0 == q by {
                    let i = choose|i: int| 0 <= i < s.len() && s[i].0 == q;
                    if i < pos {
                        assert(t[i].0 == q);
                    } else {
                        assert(i != pos);
                        assert(t[i - 1].0 == q);
                    }
                }
            }
            lemma_represents_unique(t, target);
        }
        e.1
    }

    /// Removes `key`, handing back its value if it was present.
    pub fn remove(&mut self, key: &Vec<char>) -> (r: Option<V>)
        requires
            old(self).wf(),
        ensures
            final(self).wf(),
            final(self).to_map() == old(self).to_map().remove(key@),
            match r {
                Some(v) => old(self).to_map().contains_key(key@) && old(self).to_map()[key@] == v,
                None => !old(self).to_map().contains_key(key@),
            },
    {
        proof { self.lemma_wf(); }
        let ghost s = self.entries_view();
        let (found, pos) = self.locate(key);
        if found {
            assert(entries_to_map(s).contains_key(s[pos as int].0));
            Some(self.remove_at(pos))
        } else {
            proof {
                lemma_key_lt_irreflexive(key@);
                if entries_to_map(s).contains_key(key@) {
                    let i = choose|i: int| 0 <= i < s.len() && s[i].0 == key@;
                    if i < pos {
                        assert(key_lt(s[i].0, key@));
                    } else {
                        assert(key_lt(key@, s[i].0));
                    }
                }
                assert(entries_to_map(s).remove(key@) =~= entries_to_map(s));
            }
            None
        }
    }

    /// The value of the entry at position `i`.
    pub fn value_at(&self, i: usize) -> (v: &V)
        requires
            i < self.entries_view().len(),
        ensures
            *v == self.entries_view()[i as int].1,
    {
        &self.entries[i].1
    }
}

} // verus!
