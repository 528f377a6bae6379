//! An association map from string keys to values, kept as a vector of
//! entries with pairwise-distinct keys.
//!
//! The view is a `Map<Seq<char>, V::V>`; the order in which entries were
//! first inserted is also exposed, through `keys()`, so that callers that
//! walk the map have a deterministic order to reason about.

use vstd::prelude::*;
use vstd::pervasive::VecAdditionalExecFns;

use crate::text::str_eq;
use crate::types::TypedValue;

verus! {

/// The map that a sequence of entries stands for, later entries winning.
pub open spec fn assoc_map<W>(s: Seq<(Seq<char>, W)>) -> Map<Seq<char>, W>
    decreases s.len(),
{
    if s.len() == 0 {
        Map::empty()
    } else {
        assoc_map(s.drop_last()).insert(s.last().0, s.last().1)
    }
}

/// No two entries share a key.
pub open spec fn distinct_keys<W>(s: Seq<(Seq<char>, W)>) -> bool {
    forall|i: int, j: int|
        0 <= i < s.len() && 0 <= j < s.len() && i != j ==> (#[trigger] s[i].0) != (#[trigger] s[j].0)
}

pub proof fn lemma_assoc_map_contains<W>(s: Seq<(Seq<char>, W)>, k: Seq<char>)
    ensures
        assoc_map(s).contains_key(k) <==> exists|i: int| 0 <= i < s.len() && (#[trigger] s[i].0) == k,
    decreases s.len(),
{
    if s.len() > 0 {
        lemma_assoc_map_contains(s.drop_last(), k);
        if s.last().0 == k {
            assert(s[s.len() - 1].0 == k);
        } else {
            assert(forall|i: int| 0 <= i < s.len() - 1 ==> s.drop_last()[i] == s[i]);
        }
    }
}

pub proof fn lemma_assoc_map_index<W>(s: Seq<(Seq<char>, W)>, i: int)
    requires
        distinct_keys(s),
        0 <= i < s.len(),
    ensures
        assoc_map(s).contains_key(s[i].0),
        assoc_map(s)[s[i].0] == s[i].1,
    decreases s.len(),
{
    if i == s.len() - 1 {
        lemma_assoc_map_contains(s, s[i].0);
    } else {
        assert(s.drop_last()[i] == s[i]);
        lemma_assoc_map_index(s.drop_last(), i);
        assert(s.last().0 != s[i].0);
    }
}

pub proof fn lemma_assoc_map_dom_len<W>(s: Seq<(Seq<char>, W)>)
    requires
        distinct_keys(s),
    ensures
        assoc_map(s).dom().finite(),
        assoc_map(s).dom().len() == s.len(),
    decreases s.len(),
{
    if s.len() > 0 {
        lemma_assoc_map_dom_len(s.drop_last());
        lemma_assoc_map_contains(s.drop_last(), s.last().0);
    }
}

pub proof fn lemma_assoc_map_update<W>(s: Seq<(Seq<char>, W)>, i: int, w: W)
    requires
        distinct_keys(s),
        0 <= i < s.len(),
    ensures
        assoc_map(s.update(i, (s[i].0, w))) =~= assoc_map(s).insert(s[i].0, w),
    decreases s.len(),
{
    let t = s.update(i, (s[i].0, w));
    assert(forall|j: int| 0 <= j < s.len() - 1 ==> s.drop_last()[j] == s[j]);
    if i == s.len() - 1 {
        assert(t.drop_last() =~= s.drop_last());
    } else {
        assert(t.drop_last() =~= s.drop_last().update(i, (s[i].0, w)));
        lemma_assoc_map_update(s.drop_last(), i, w);
        assert(t.last() == s.last());
        assert(s.last().0 != s[i].0);
    }
}

pub proof fn lemma_assoc_map_remove<W>(s: Seq<(Seq<char>, W)>, i: int)
    requires
        distinct_keys(s),
        0 <= i < s.len(),
    ensures
        assoc_map(s.remove(i)) =~= assoc_map(s).remove(s[i].0),
    decreases s.len(),
{
    assert(forall|j: int| 0 <= j < s.len() - 1 ==> s.drop_last()[j] == s[j]);
    if i == s.len() - 1 {
        assert(s.remove(i) =~= s.drop_last());
        lemma_assoc_map_contains(s.drop_last(), s[i].0);
    } else {
        let t = s.remove(i);
        assert(t.drop_last() =~= s.drop_last().remove(i));
        lemma_assoc_map_remove(s.drop_last(), i);
        assert(t.last() == s.last());
        assert(s.last().0 != s[i].0);
    }
}

/// An ordered map from `String` keys to `V` values with distinct keys.
#[derive(Debug)]
pub struct StrMap<V> {
    entries: Vec<(String, V)>,
}

impl<V: Clone> Clone for StrMap<V> {
    /// Clones entry by entry; what the cloned values are is up to `V`.
    fn clone(&self) -> (res: Self) {
        proof {
            use_type_invariant(&*self);
        }
        let mut entries: Vec<(String, V)> = Vec::new();
        let n = self.entries.len();
        let mut i: usize = 0;
        while i < n
            invariant
                i <= n == self.entries@.len(),
                entries@.len() == i,
                forall|j: int, l: int|
                    0 <= j < self.entries@.len() && 0 <= l < self.entries@.len() && j != l
                        ==> (#[trigger] self.entries@[j]).0@ != (#[trigger] self.entries@[l]).0@,
                forall|j: int|
                    0 <= j < i ==> (#[trigger] entries@[j]).0@ == self.entries@[j].0@,
            decreases n - i,
        {
            let k = self.entries[i].0.clone();
            let v = self.entries[i].1.clone();
            entries.push((k, v));
            i = i + 1;
        }
        StrMap { entries }
    }
}

impl<V: View> View for StrMap<V> {
    type V = Map<Seq<char>, V::V>;

    closed spec fn view(&self) -> Map<Seq<char>, V::V> {
        assoc_map(self.entry_seq())
    }
}

impl<V> StrMap<V> {
    /// The type invariant: entry keys are pairwise distinct.
    #[verifier::type_invariant]
    pub closed spec fn wf(self) -> bool {
        forall|i: int, j: int|
            0 <= i < self.entries@.len() && 0 <= j < self.entries@.len() && i != j
                ==> (#[trigger] self.entries@[i]).0@ != (#[trigger] self.entries@[j]).0@
    }
}

impl<V: View> StrMap<V> {
    /// The entries as (key characters, value view) pairs, in entry order.
    pub closed spec fn entry_seq(self) -> Seq<(Seq<char>, V::V)> {
        Seq::new(self.entries@.len(), |i: int| (self.entries@[i].0@, self.entries@[i].1@))
    }

    /// The keys in entry order: the order of first insertion.
    pub open spec fn keys(self) -> Seq<Seq<char>> {
        self.entry_seq().map_values(|p: (Seq<char>, V::V)| p.0)
    }

    /// Basic facts relating the view, the key order and the entry sequence.
    /// The well-formedness premise comes from `use_type_invariant`.
    pub proof fn lemma_model(self)
        requires
            self.wf(),
        ensures
            distinct_keys(self.entry_seq()),
            self@.dom().finite(),
            self@.dom().len() == self.keys().len(),
            self.entry_seq().len() == self.keys().len(),
            forall|i: int|
                0 <= i < self.keys().len() ==> self@.contains_key(#[trigger] self.keys()[i])
                    && self@[self.keys()[i]] == self.entry_seq()[i].1
                    && self.entry_seq()[i].0 == self.keys()[i],
            forall|k: Seq<char>|
                self@.contains_key(k) ==> exists|i: int|
                    0 <= i < self.keys().len() && #[trigger] self.keys()[i] == k,
    {
        let s = self.entry_seq();
        assert(distinct_keys(s));
        lemma_assoc_map_dom_len(s);
        assert forall|i: int| 0 <= i < self.keys().len() implies self@.contains_key(
            #[trigger] self.keys()[i],
        ) && self@[self.keys()[i]] == s[i].1 && s[i].0 == self.keys()[i] by {
            lemma_assoc_map_index(s, i);
        }
        assert forall|k: Seq<char>| self@.contains_key(k) implies exists|i: int|
            0 <= i < self.keys().len() && #[trigger] self.keys()[i] == k by {
            lemma_assoc_map_contains(s, k);
            let i = choose|i: int| 0 <= i < s.len() && (#[trigger] s[i].0) == k;
            assert(self.keys()[i] == k);
        }
    }

    pub fn new() -> (r: Self)
        ensures
            r@ == Map::<Seq<char>, V::V>::empty(),
            r.keys() == Seq::<Seq<char>>::empty(),
    {
        let r = StrMap { entries: Vec::new() };
        proof {
            assert(r.entry_seq() =~= Seq::empty());
            assert(r.keys() =~= Seq::<Seq<char>>::empty());
        }
        r
    }

    pub fn len(&self) -> (r: usize)
        ensures
            r == self.keys().len(),
            r == self@.dom().len(),
    {
        proof {
            use_type_invariant(&*self);
            self.lemma_model();
        }
        self.entries.len()
    }

    pub fn is_empty(&self) -> (r: bool)
        ensures
            r == (self.keys().len() == 0),
            r == (self@ == Map::<Seq<char>, V::V>::empty()),
    {
        proof {
            use_type_invariant(&*self);
            self.lemma_model();
            if self.keys().len() == 0 {
                assert(self@.dom() =~= Set::empty());
                assert(self@ =~= Map::empty());
            } else {
                assert(self@.contains_key(self.keys()[0]));
                assert(self@ != Map::<Seq<char>, V::V>::empty());
            }
        }
        self.entries.len() == 0
    }

    /// The position of `k` among the entries, if present.
    fn position(&self, k: &str) -> (r: Option<usize>)
        ensures
            match r {
                Some(i) => i < self.keys().len() && self.keys()[i as int] == k@
                    && self.entry_seq()[i as int].0 == k@,
                None => !self@.contains_key(k@),
            },
    {
        proof {
            use_type_invariant(&*self);
            self.lemma_model();
        }
        let n = self.entries.len();
        for i in 0..n
            invariant
                n == self.entries@.len(),
                n == self.keys().len(),
                forall|j: int| 0 <= j < i ==> (#[trigger] self.keys()[j]) != k@,
        {
            assert(self.keys()[i as int] == self.entries@[i as int].0@);
            if str_eq(self.entries[i].0.as_str(), k) {
                return Some(i);
            }
        }
        proof {
            self.lemma_model();
            if self@.contains_key(k@) {
                let i = choose|i: int| 0 <= i < self.keys().len() && #[trigger] self.keys()[i] == k@;
                assert(false);
            }
        }
        None
    }

    pub fn contains_key(&self, k: &str) -> (r: bool)
        ensures
            r == self@.contains_key(k@),
    {
        proof {
            use_type_invariant(&*self);
            self.lemma_model();
        }
        match self.position(k) {
            Some(i) => {
                proof {
                    assert(self@.contains_key(self.keys()[i as int]));
                }
                true
            },
            None => false,
        }
    }

    pub fn get(&self, k: &str) -> (r: Option<&V>)
        ensures
            match r {
                Some(v) => self@.contains_key(k@) && v@ == self@[k@],
                None => !self@.contains_key(k@),
            },
    {
        proof {
            use_type_invariant(&*self);
            self.lemma_model();
        }
        match self.position(k) {
            Some(i) => Some(&self.entries[i].1),
            None => None,
        }
    }

    /// Inserts or replaces. A new key goes to the end of the entry order;
    /// an existing key keeps its place.
    pub fn insert(&mut self, k: String, v: V)
        ensures
            final(self)@ == old(self)@.insert(k@, v@),
            final(self).keys() == if old(self)@.contains_key(k@) {
                old(self).keys()
            } else {
                old(self).keys().push(k@)
            },
    {
        proof {
            use_type_invariant(&*self);
            self.lemma_model();
        }
        let ghost s0 = self.entry_seq();
        let pos = self.position(k.as_str());
        let mut entries: Vec<(String, V)> = Vec::new();
        core::mem::swap(&mut entries, &mut self.entries);
        match pos {
            Some(i) => {
                entries.set(i, (k, v));
                proof {
                    assert(forall|j: int|
                        0 <= j < entries@.len() && j != i as int ==> entries@[j]
                            == old(self).entries@[j]);
                }
                self.entries = entries;
                proof {
                    assert(self.entry_seq() =~= s0.update(i as int, (s0[i as int].0, v@)));
                    lemma_assoc_map_update(s0, i as int, v@);
                    assert(self.keys() =~= old(self).keys());
                    assert(self@ =~= old(self)@.insert(k@, v@));
                }
            },
            None => {
                proof {
                    lemma_assoc_map_contains(s0, k@);
                }
                entries.push((k, v));
                proof {
                    let n = s0.len() as int;
                    assert forall|a: int, b: int|
                        0 <= a < entries@.len() && 0 <= b < entries@.len() && a != b implies (
                    #[trigger] entries@[a]).0@ != (#[trigger] entries@[b]).0@ by {
                        if a < n && b < n {
                            assert(entries@[a] == old(self).entries@[a]);
                            assert(entries@[b] == old(self).entries@[b]);
                        } else if a == n {
                            assert(entries@[b] == old(self).entries@[b]);
                            assert(s0[b].0 == entries@[b].0@);
                            assert(entries@[a].0@ == k@);
                        } else {
                            assert(entries@[a] == old(self).entries@[a]);
                            assert(s0[a].0 == entries@[a].0@);
                            assert(entries@[b].0@ == k@);
                        }
                    }
                }
                self.entries = entries;
                proof {
                    assert(self.entry_seq() =~= s0.push((k@, v@)));
                    assert(self.entry_seq().drop_last() =~= s0);
                    assert(self.keys() =~= old(self).keys().push(k@));
                    assert(self@ =~= old(self)@.insert(k@, v@));
                }
            },
        }
    }

    /// Removes the entry for `k`, returning its value, and closing the gap
    /// in the entry order.
    pub fn remove(&mut self, k: &str) -> (r: Option<V>)
        ensures
            final(self)@ == old(self)@.remove(k@),
            match r {
                Some(v) => old(self)@.contains_key(k@) && v@ == old(self)@[k@] && exists|i: int|
                    0 <= i < old(self).keys().len() && old(self).keys()[i] == k@
                        && final(self).keys() == old(self).keys().remove(i),
                None => !old(self)@.contains_key(k@) && *final(self) == *old(self),
            },
    {
        proof {
            use_type_invariant(&*self);
            self.lemma_model();
        }
        let ghost s0 = self.entry_seq();
        match self.position(k) {
            Some(i) => {
                proof {
                    lemma_assoc_map_index(s0, i as int);
                }
                let mut entries: Vec<(String, V)> = Vec::new();
                core::mem::swap(&mut entries, &mut self.entries);
                let (_, v) = entries.remove(i);
                proof {
                    assert(forall|j: int|
                        0 <= j < entries@.len() ==> entries@[j] == if j < i as int {
                            old(self).entries@[j]
                        } else {
                            old(self).entries@[j + 1]
                        });
                }
                self.entries = entries;
                proof {
                    assert(self.entry_seq() =~= s0.remove(i as int));
                    lemma_assoc_map_remove(s0, i as int);
                    assert(self.keys() =~= old(self).keys().remove(i as int));
                    assert(self@ =~= old(self)@.remove(k@));
                }
                Some(v)
            },
            None => {
                proof {
                    assert(self@ =~= old(self)@.remove(k@));
                }
                None
            },
        }
    }

    pub fn key_at(&self, i: usize) -> (r: &String)
        requires
            i < self.keys().len(),
        ensures
            r@ == self.keys()[i as int],
    {
        proof {
            use_type_invariant(&*self);
            self.lemma_model();
        }
        &self.entries[i].0
    }

    pub fn value_at(&self, i: usize) -> (r: &V)
        requires
            i < self.keys().len(),
        ensures
            self@.contains_key(self.keys()[i as int]),
            r@ == self@[self.keys()[i as int]],
    {
        proof {
            use_type_invariant(&*self);
            self.lemma_model();
        }
        &self.entries[i].1
    }
}

/// Inserting entries in order, later entries winning.
pub open spec fn insert_entries<W>(base: Map<Seq<char>, W>, es: Seq<(Seq<char>, W)>, i: int) -> Map<
    Seq<char>,
    W,
>
    decreases es.len() - i,
{
    if i < 0 || i >= es.len() {
        base
    } else {
        insert_entries(base.insert(es[i].0, es[i].1), es, i + 1)
    }
}

/// Inserting a run of entries equals overriding with the map they stand for.
pub proof fn lemma_insert_entries_union<W>(base: Map<Seq<char>, W>, es: Seq<(Seq<char>, W)>)
    ensures
        insert_entries(base, es, 0) == base.union_prefer_right(assoc_map(es)),
    decreases es.len(),
{
    if es.len() == 0 {
        assert(assoc_map(es) =~= Map::<Seq<char>, W>::empty());
        assert(base.union_prefer_right(Map::empty()) =~= base);
    } else {
        lemma_insert_entries_last(base, es, 0);
        lemma_insert_entries_union(base, es.drop_last());
        assert(base.union_prefer_right(assoc_map(es.drop_last())).insert(es.last().0, es.last().1)
            =~= base.union_prefer_right(assoc_map(es)));
    }
}

/// The last entry can be peeled off the run of inserts.
proof fn lemma_insert_entries_last<W>(base: Map<Seq<char>, W>, es: Seq<(Seq<char>, W)>, i: int)
    requires
        0 <= i <= es.len(),
        es.len() > 0,
    ensures
        i < es.len() ==> insert_entries(base, es, i) == insert_entries(
            base,
            es.drop_last(),
            i,
        ).insert(es.last().0, es.last().1),
    decreases es.len() - i,
{
    if i < es.len() {
        if i == es.len() - 1 {
            assert(insert_entries(base, es, i) == insert_entries(
                base.insert(es[i].0, es[i].1),
                es,
                i + 1,
            ));
            assert(insert_entries(base, es.drop_last(), i) == base);
        } else {
            assert(es.drop_last()[i] == es[i]);
            lemma_insert_entries_last(base.insert(es[i].0, es[i].1), es, i + 1);
        }
    }
}

impl<V: View> StrMap<V> {
    /// Hands out the entries, in entry order.
    pub fn take_entries(self) -> (r: Vec<(String, V)>)
        ensures
            r@.len() == self.entry_seq().len(),
            forall|i: int|
                0 <= i < r@.len() ==> ((#[trigger] r@[i]).0@, r@[i].1@) == self.entry_seq()[i],
            self@ == assoc_map(self.entry_seq()),
    {
        proof {
            assert(forall|i: int|
                0 <= i < self.entries@.len() ==> ((#[trigger] self.entries@[i]).0@,
                self.entries@[i].1@) == self.entry_seq()[i]);
        }
        self.entries
    }
}

impl PartialEq for StrMap<TypedValue> {
    /// Two column sets are equal when they hold the same values under the
    /// same keys, whatever the entry order.
    fn eq(&self, other: &Self) -> (r: bool) {
        proof {
            use_type_invariant(&*self);
            use_type_invariant(other);
            self.lemma_model();
            other.lemma_model();
        }
        let n1 = self.len();
        let mut q: usize = 0;
        while q < n1
            invariant
                q <= n1 == self.keys().len(),
                forall|x: int|
                    0 <= x < q ==> other@.contains_key(#[trigger] self.keys()[x]) && other@[
                    self.keys()[x]] == self@[self.keys()[x]],
            decreases n1 - q,
        {
            proof {
                use_type_invariant(&*self);
                self.lemma_model();
            }
            let key = self.key_at(q);
            let val = self.value_at(q);
            match other.get(key.as_str()) {
                Option::None => {
                    proof {
                        assert(self@ != other@);
                    }
                    return false;
                },
                Some(ov) => {
                    if !(val == ov) {
                        proof {
                            assert(self@[self.keys()[q as int]] != other@[self.keys()[q as int]]);
                            assert(self@ != other@);
                        }
                        return false;
                    }
                },
            }
            q = q + 1;
        }
        let n2 = other.len();
        let mut w: usize = 0;
        while w < n2
            invariant
                w <= n2 == other.keys().len(),
                forall|x: int|
                    0 <= x < n1 ==> other@.contains_key(#[trigger] self.keys()[x]) && other@[
                    self.keys()[x]] == self@[self.keys()[x]],
                n1 == self.keys().len(),
                forall|x: int| 0 <= x < w ==> self@.contains_key(#[trigger] other.keys()[x]),
            decreases n2 - w,
        {
            proof {
                use_type_invariant(other);
                other.lemma_model();
            }
            let key = other.key_at(w);
            match self.get(key.as_str()) {
                Option::None => {
                    proof {
                        assert(other@.contains_key(other.keys()[w as int]));
                        assert(self@ != other@);
                    }
                    return false;
                },
                Some(v) => {},
            }
            w = w + 1;
        }
        proof {
            use_type_invariant(&*self);
            use_type_invariant(other);
            self.lemma_model();
            other.lemma_model();
            assert forall|k: Seq<char>| self@.contains_key(k) implies other@.contains_key(k)
                && other@[k] == self@[k] by {
                let x = choose|x: int| 0 <= x < self.keys().len() && #[trigger] self.keys()[x] == k;
            }
            assert forall|k: Seq<char>| other@.contains_key(k) implies self@.contains_key(k) by {
                let x = choose|x: int|
                    0 <= x < other.keys().len() && #[trigger] other.keys()[x] == k;
            }
            assert(self@ =~= other@);
        }
        true
    }
}

impl Eq for StrMap<TypedValue> {

}

impl vstd::std_specs::cmp::PartialEqSpecImpl for StrMap<TypedValue> {
    open spec fn obeys_eq_spec() -> bool {
        true
    }

    open spec fn eq_spec(&self, other: &Self) -> bool {
        self@ == other@
    }
}

} // verus!
