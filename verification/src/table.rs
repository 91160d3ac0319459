//! The term-frequency table of one document: how often each term occurs in it.
use crate::assoc::{
    assoc, distinct_keys, filed, has_key, hash_of, key_hash, lemma_assoc_dom,
    lemma_assoc_entries, lemma_assoc_push, lemma_assoc_update, Key,
};
use std::collections::HashMap;
use vstd::prelude::*;

verus! {

/// The entries of a table as plain pairs of a term and its count.
pub open spec fn pairs(es: Seq<(String, usize)>) -> Seq<(Key, nat)> {
    Seq::new(es.len(), |i: int| (es[i].0@, es[i].1 as nat))
}

/// Whether every entry has a count of at least one.
pub open spec fn positive_counts(es: Seq<(String, usize)>) -> bool {
    forall|i: int| 0 <= i < es.len() ==> (#[trigger] es[i]).1 >= 1
}

/// How often a term occurs according to `m`: its count, or zero where `m` does not
/// hold it.
pub open spec fn count_in(m: Map<Key, nat>, term: Key) -> nat {
    if m.dom().contains(term) {
        m[term]
    } else {
        0
    }
}

/// A mapping from each term of a document to the number of its occurrences. A term
/// is held only with a count of at least one; a term that is not held occurs zero
/// times.
///
/// The entries stand in a vector, each term once, and are found through a hash of
/// their term, so that counting a term takes, with terms that hash apart, a number of
/// steps that does not grow with the table.
///
/// The table takes any string as a term: it does not ask that a term is non-empty
/// or in canonical form. That is the business of whoever fills it; the tables that
/// `term_frequencies` builds hold non-empty terms in canonical form only.
pub struct TermFreq {
    entries: Vec<(String, usize)>,
    places: HashMap<u64, Vec<usize>>,
}

/// Whether `places` is an index to `entries`: every entry is filed under the hash of
/// its term, and every place that is filed is the place of an entry.
pub open spec fn indexes(places: Map<u64, Vec<usize>>, entries: Seq<(String, usize)>) -> bool {
    &&& forall|i: int|
        0 <= i < entries.len() ==> filed(places, key_hash((#[trigger] entries[i]).0@), i)
    &&& forall|h: u64, k: int|
        places.contains_key(h) && 0 <= k < places[h]@.len() ==> (#[trigger] places[h]@[k])
            < entries.len()
}

impl View for TermFreq {
    type V = Map<Key, nat>;

    /// The table as a map from terms to counts.
    closed spec fn view(&self) -> Map<Key, nat> {
        assoc(pairs(self.entries@))
    }
}

impl TermFreq {
    #[verifier::type_invariant]
    spec fn inv(&self) -> bool {
        &&& distinct_keys(pairs(self.entries@))
        &&& positive_counts(self.entries@)
        &&& indexes(self.places@, self.entries@)
    }

    /// A table without terms.
    pub fn new() -> (table: Self)
        ensures
            table@ == Map::<Key, nat>::empty(),
    {
        TermFreq { entries: Vec::new(), places: HashMap::new() }
    }

    /// The number of distinct terms.
    pub fn len(&self) -> (n: usize)
        ensures
            self@.dom().finite(),
            n == self@.dom().len(),
    {
        proof {
            use_type_invariant(self);
            lemma_assoc_dom(pairs(self.entries@));
            lemma_assoc_entries(pairs(self.entries@));
        }
        self.entries.len()
    }

    /// Whether the table holds no term.
    pub fn is_empty(&self) -> (b: bool)
        ensures
            b == (self@ == Map::<Key, nat>::empty()),
    {
        proof {
            use_type_invariant(self);
            lemma_assoc_dom(pairs(self.entries@));
            lemma_assoc_entries(pairs(self.entries@));
            if self.entries@.len() == 0 {
                assert(self@ =~= Map::<Key, nat>::empty());
            } else {
                assert(self@.dom().len() > 0);
            }
        }
        self.entries.len() == 0
    }

    /// The place of `term` among the entries, if the table holds it. Only the entries
    /// that are filed under the hash of `term` are looked at.
    fn position(&self, term: &String) -> (at: Option<usize>)
        ensures
            match at {
                Some(i) => i < self.entries@.len() && self.entries@[i as int].0@ == term@,
                None => !has_key(pairs(self.entries@), term@),
            },
    {
        proof {
            use_type_invariant(self);
        }
        let h = hash_of(term);
        let ghost ps = pairs(self.entries@);
        match self.places.get(&h) {
            Some(bucket) => {
                let mut k: usize = 0;
                while k < bucket.len()
                    invariant
                        k <= bucket@.len(),
                        indexes(self.places@, self.entries@),
                        self.places@.contains_key(h),
                        self.places@[h] == *bucket,
                        forall|m: int|
                            0 <= m < k ==> self.entries@[(#[trigger] bucket@[m]) as int].0@
                                != term@,
                    decreases bucket@.len() - k,
                {
                    let place = bucket[k];
                    if self.entries[place].0 == *term {
                        return Some(place);
                    }
                    k += 1;
                }
                proof {
                    if has_key(ps, term@) {
                        let j = choose|j: int| 0 <= j < ps.len() && (#[trigger] ps[j]).0 == term@;
                        assert(filed(self.places@, key_hash(self.entries@[j].0@), j));
                        let m = choose|m: int|
                            0 <= m < bucket@.len() && (#[trigger] bucket@[m]) == j;
                        assert(self.entries@[bucket@[m] as int].0@ != term@);
                    }
                }
                None
            },
            None => {
                proof {
                    if has_key(ps, term@) {
                        let j = choose|j: int| 0 <= j < ps.len() && (#[trigger] ps[j]).0 == term@;
                        assert(filed(self.places@, key_hash(self.entries@[j].0@), j));
                    }
                }
                None
            },
        }
    }

    /// How often `term` was counted: zero for a term that the table does not hold.
    pub fn count(&self, term: &String) -> (n: usize)
        ensures
            n == count_in(self@, term@),
            self@.dom().contains(term@) ==> n >= 1,
    {
        proof {
            use_type_invariant(self);
            lemma_assoc_dom(pairs(self.entries@));
            lemma_assoc_entries(pairs(self.entries@));
        }
        match self.position(term) {
            Some(i) => {
                proof {
                    let ps = pairs(self.entries@);
                    assert(ps[i as int].0 == term@);
                    assert(has_key(ps, term@));
                    assert(self@[ps[i as int].0] == ps[i as int].1);
                }
                self.entries[i].1
            },
            None => 0,
        }
    }

    /// Whether the table holds `term`.
    pub fn contains(&self, term: &String) -> (b: bool)
        ensures
            b == self@.dom().contains(term@),
    {
        proof {
            use_type_invariant(self);
            lemma_assoc_dom(pairs(self.entries@));
        }
        match self.position(term) {
            Some(i) => {
                proof {
                    let ps = pairs(self.entries@);
                    assert(ps[i as int].0 == term@);
                    assert(has_key(ps, term@));
                }
                true
            },
            None => false,
        }
    }

    /// Puts `term` with `count` at the place `at`, which is where `term` stands among
    /// the entries, or `None` where it does not stand among them.
    fn store(&mut self, at: Option<usize>, term: String, count: usize)
        requires
            count >= 1,
            match at {
                Some(i) => i < old(self).entries@.len() && old(self).entries@[i as int].0@
                    == term@,
                None => !has_key(pairs(old(self).entries@), term@),
            },
        ensures
            final(self)@ == old(self)@.insert(term@, count as nat),
    {
        let mut taken = TermFreq::new();
        core::mem::swap(self, &mut taken);
        proof {
            use_type_invariant(&taken);
        }
        let TermFreq { mut entries, mut places } = taken;
        let ghost before = entries@;
        let ghost filing = places@;
        match at {
            Some(i) => {
                proof {
                    lemma_assoc_update(pairs(before), i as int, count as nat);
                }
                entries.set(i, (term, count));
                proof {
                    let after = entries@;
                    assert(pairs(after) =~= pairs(before).update(i as int, (term@, count as nat)));
                    assert forall|j: int| 0 <= j < after.len() implies (#[trigger] after[j]).1
                        >= 1 by {
                        if j != i {
                            assert(after[j] == before[j]);
                        }
                    }
                    assert forall|j: int| 0 <= j < after.len() implies filed(
                        filing,
                        key_hash((#[trigger] after[j]).0@),
                        j,
                    ) by {
                        assert(after[j].0@ == before[j].0@);
                        assert(filed(filing, key_hash(before[j].0@), j));
                    }
                }
            },
            None => {
                let h = hash_of(&term);
                let place = entries.len();
                proof {
                    lemma_assoc_push(pairs(before), term@, count as nat);
                }
                entries.push((term, count));
                let mut bucket = match places.remove(&h) {
                    Some(bucket) => bucket,
                    None => Vec::new(),
                };
                let ghost filed_before = bucket@;
                bucket.push(place);
                places.insert(h, bucket);
                proof {
                    let after = entries@;
                    let ps = pairs(after);
                    assert(ps =~= pairs(before).push((term@, count as nat)));
                    assert forall|a: int, b: int| 0 <= a < b < ps.len() implies (#[trigger] ps[a]).0
                        != (#[trigger] ps[b]).0 by {
                        assert(ps[a] == pairs(before)[a]);
                        if b < before.len() {
                            assert(ps[b] == pairs(before)[b]);
                        }
                    }
                    assert forall|j: int| 0 <= j < after.len() implies (#[trigger] after[j]).1
                        >= 1 by {
                        if j < before.len() {
                            assert(after[j] == before[j]);
                        }
                    }
                    assert forall|j: int| 0 <= j < after.len() implies filed(
                        places@,
                        key_hash((#[trigger] after[j]).0@),
                        j,
                    ) by {
                        if j < before.len() {
                            assert(after[j] == before[j]);
                            let hj = key_hash(before[j].0@);
                            assert(filed(filing, hj, j));
                            let k = choose|k: int|
                                0 <= k < filing[hj]@.len() && (#[trigger] filing[hj]@[k]) == j;
                            if hj == h {
                                assert(filed_before == filing[hj]@);
                                assert(places@[hj]@[k] == j);
                            } else {
                                assert(places@[hj] == filing[hj]);
                                assert(places@[hj]@[k] == j);
                            }
                        } else {
                            assert(places@[h]@[filed_before.len() as int] == j);
                        }
                    }
                    assert forall|x: u64, k: int|
                        places@.contains_key(x) && 0 <= k < places@[x]@.len() implies (
                    #[trigger] places@[x]@[k]) < after.len() by {
                        if x == h {
                            if k < filed_before.len() {
                                assert(places@[x]@[k] == filed_before[k]);
                                if filing.contains_key(h) {
                                    assert(filing[h]@[k] < before.len());
                                }
                            }
                        } else {
                            assert(filing.contains_key(x) && places@[x] == filing[x]);
                            assert(filing[x]@[k] < before.len());
                        }
                    }
                }
            },
        }
        *self = TermFreq { entries, places };
    }

    /// Counts one more occurrence of `term`: a term that the table does not hold yet
    /// enters it with the count one.
    pub fn add(&mut self, term: String)
        requires
            count_in(old(self)@, term@) < usize::MAX,
        ensures
            final(self)@ == old(self)@.insert(term@, count_in(old(self)@, term@) + 1),
    {
        proof {
            use_type_invariant(&*self);
            lemma_assoc_dom(pairs(self.entries@));
            lemma_assoc_entries(pairs(self.entries@));
        }
        let at = self.position(&term);
        let count = match at {
            Some(i) => {
                proof {
                    let ps = pairs(self.entries@);
                    assert(ps[i as int].0 == term@);
                    assert(has_key(ps, term@));
                    assert(self@[ps[i as int].0] == ps[i as int].1);
                }
                self.entries[i].1 + 1
            },
            None => 1,
        };
        self.store(at, term, count);
    }

    /// The entries of the table: each term once, with its count, in no particular
    /// order.
    pub fn entries(&self) -> (es: &Vec<(String, usize)>)
        ensures
            assoc(pairs(es@)) == self@,
            distinct_keys(pairs(es@)),
            positive_counts(es@),
    {
        proof {
            use_type_invariant(self);
        }
        &self.entries
    }

    /// The table with the given entries, or `None` where one of them has the count
    /// zero. Where a term stands in several entries, the last of them counts.
    pub fn from_entries(entries: &Vec<(String, usize)>) -> (table: Option<Self>)
        ensures
            table is Some <==> positive_counts(entries@),
            table matches Some(t) ==> t@ == assoc(pairs(entries@)),
    {
        let mut table = TermFreq::new();
        let mut i: usize = 0;
        while i < entries.len()
            invariant
                i <= entries@.len(),
                positive_counts(entries@.take(i as int)),
                table@ == assoc(pairs(entries@.take(i as int))),
            decreases entries@.len() - i,
        {
            let count = entries[i].1;
            if count == 0 {
                return None;
            }
            let term = entries[i].0.clone();
            let at = table.position(&term);
            table.store(at, term, count);
            proof {
                let now = entries@.take(i + 1);
                assert(now.drop_last() =~= entries@.take(i as int));
                assert(pairs(now).drop_last() =~= pairs(entries@.take(i as int)));
                assert forall|j: int| 0 <= j < now.len() implies (#[trigger] now[j]).1 >= 1 by {
                    if j < i {
                        assert(entries@.take(i as int)[j] == now[j]);
                    }
                }
            }
            i += 1;
        }
        proof {
            assert(entries@.take(i as int) =~= entries@);
        }
        Some(table)
    }
}

} // verus!
