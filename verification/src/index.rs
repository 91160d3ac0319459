//! The global index: for each document, by its key, the table of its terms.
use crate::assoc::{
    assoc, distinct_keys, filed, has_key, hash_of, key_hash, lemma_assoc_dom,
    lemma_assoc_entries, lemma_assoc_push, lemma_assoc_update, Key,
};
use crate::table::TermFreq;
use std::collections::HashMap;
use vstd::prelude::*;

verus! {

/// The entries of an index as plain pairs of a document key and the table of that
/// document.
pub open spec fn tables(es: Seq<(String, TermFreq)>) -> Seq<(Key, Map<Key, nat>)> {
    Seq::new(es.len(), |i: int| (es[i].0@, es[i].1@))
}

/// Whether `places` is an index to `entries`: every entry is filed under the hash of
/// its key, and every place that is filed is the place of an entry.
pub open spec fn indexes(places: Map<u64, Vec<usize>>, entries: Seq<(String, TermFreq)>) -> bool {
    &&& forall|i: int|
        0 <= i < entries.len() ==> filed(places, key_hash((#[trigger] entries[i]).0@), i)
    &&& forall|h: u64, k: int|
        places.contains_key(h) && 0 <= k < places[h]@.len() ==> (#[trigger] places[h]@[k])
            < entries.len()
}

/// A mapping from document keys to term-frequency tables, with one entry for each
/// document that was put into it. A document without terms has an entry too: the
/// empty table.
///
/// The entries stand in a vector, each key once, and are found through a hash of
/// their key. Any string may be a key.
pub struct GlobalIndex {
    entries: Vec<(String, TermFreq)>,
    places: HashMap<u64, Vec<usize>>,
}

impl View for GlobalIndex {
    type V = Map<Key, Map<Key, nat>>;

    /// The index as a map from document keys to tables.
    closed spec fn view(&self) -> Map<Key, Map<Key, nat>> {
        assoc(tables(self.entries@))
    }
}

impl GlobalIndex {
    #[verifier::type_invariant]
    spec fn inv(&self) -> bool {
        &&& distinct_keys(tables(self.entries@))
        &&& indexes(self.places@, self.entries@)
    }

    /// An index without documents.
    pub fn new() -> (index: Self)
        ensures
            index@ == Map::<Key, Map<Key, nat>>::empty(),
    {
        GlobalIndex { entries: Vec::new(), places: HashMap::new() }
    }

    /// The number of documents.
    pub fn len(&self) -> (n: usize)
        ensures
            self@.dom().finite(),
            n == self@.dom().len(),
    {
        proof {
            use_type_invariant(self);
            lemma_assoc_dom(tables(self.entries@));
            lemma_assoc_entries(tables(self.entries@));
        }
        self.entries.len()
    }

    /// Whether the index holds no document.
    pub fn is_empty(&self) -> (b: bool)
        ensures
            b == (self@ == Map::<Key, Map<Key, nat>>::empty()),
    {
        proof {
            use_type_invariant(self);
            lemma_assoc_dom(tables(self.entries@));
            lemma_assoc_entries(tables(self.entries@));
            if self.entries@.len() == 0 {
                assert(self@ =~= Map::<Key, Map<Key, nat>>::empty());
            } else {
                assert(self@.dom().len() > 0);
            }
        }
        self.entries.len() == 0
    }

    /// The place of `key` among the entries, if the index holds it. Only the entries
    /// that are filed under the hash of `key` are looked at.
    fn position(&self, key: &String) -> (at: Option<usize>)
        ensures
            match at {
                Some(i) => i < self.entries@.len() && self.entries@[i as int].0@ == key@,
                None => !has_key(tables(self.entries@), key@),
            },
    {
        proof {
            use_type_invariant(self);
        }
        let h = hash_of(key);
        let ghost ts = tables(self.entries@);
        match self.places.get(&h) {
            Some(bucket) => {
                let mut k: usize = 0;
                while k < bucket.len()
                    invariant
                        k <= bucket@.len(),
                        indexes(self.places@, self.entries@),
                        self.places@.contains_key(h),
                        self.places@[h] == *bucket,
                        forall|m: int|
                            0 <= m < k ==> self.entries@[(#[trigger] bucket@[m]) as int].0@
                                != key@,
                    decreases bucket@.len() - k,
                {
                    let place = bucket[k];
                    if self.entries[place].0 == *key {
                        return Some(place);
                    }
                    k += 1;
                }
                proof {
                    if has_key(ts, key@) {
                        let j = choose|j: int| 0 <= j < ts.len() && (#[trigger] ts[j]).0 == key@;
                        assert(filed(self.places@, key_hash(self.entries@[j].0@), j));
                        let m = choose|m: int|
                            0 <= m < bucket@.len() && (#[trigger] bucket@[m]) == j;
                        assert(self.entries@[bucket@[m] as int].0@ != key@);
                    }
                }
                None
            },
            None => {
                proof {
                    if has_key(ts, key@) {
                        let j = choose|j: int| 0 <= j < ts.len() && (#[trigger] ts[j]).0 == key@;
                        assert(filed(self.places@, key_hash(self.entries@[j].0@), j));
                    }
                }
                None
            },
        }
    }

    /// The table of the document `key`, or `None` where the index does not hold that
    /// document.
    pub fn get(&self, key: &String) -> (table: Option<&TermFreq>)
        ensures
            match table {
                Some(t) => self@.dom().contains(key@) && t@ == self@[key@],
                None => !self@.dom().contains(key@),
            },
    {
        proof {
            use_type_invariant(self);
            lemma_assoc_dom(tables(self.entries@));
            lemma_assoc_entries(tables(self.entries@));
        }
        match self.position(key) {
            Some(i) => {
                proof {
                    let ts = tables(self.entries@);
                    assert(ts[i as int].0 == key@);
                    assert(has_key(ts, key@));
                    assert(self@[ts[i as int].0] == ts[i as int].1);
                }
                Some(&self.entries[i].1)
            },
            None => None,
        }
    }

    /// Whether the index holds the document `key`.
    pub fn contains_key(&self, key: &String) -> (b: bool)
        ensures
            b == self@.dom().contains(key@),
    {
        self.get(key).is_some()
    }

    /// Puts `table` into the index under `key`. A table that stood under that key
    /// before is replaced; the tables of all other documents stay.
    pub fn insert(&mut self, key: String, table: TermFreq)
        ensures
            final(self)@ == old(self)@.insert(key@, table@),
    {
        let at = self.position(&key);
        let mut taken = GlobalIndex::new();
        core::mem::swap(self, &mut taken);
        proof {
            use_type_invariant(&taken);
        }
        let GlobalIndex { mut entries, mut places } = taken;
        let ghost before = entries@;
        let ghost filing = places@;
        match at {
            Some(i) => {
                proof {
                    lemma_assoc_update(tables(before), i as int, table@);
                }
                entries.set(i, (key, table));
                proof {
                    let after = entries@;
                    assert(tables(after) =~= tables(before).update(i as int, (key@, table@)));
                    assert forall|j: int| 0 <= j < after.len() implies filed(
                        filing,
                        key_hash((#[trigger] after[j]).0@),
                        j,
                    ) by {
                        assert(after[j].0@ == before[j].0@);
                        assert(filed(filing, key_hash(before[j].0@), j));
                    }
                }
            },
            None => {
                let h = hash_of(&key);
                let place = entries.len();
                proof {
                    lemma_assoc_push(tables(before), key@, table@);
                }
                entries.push((key, table));
                let mut bucket = match places.remove(&h) {
                    Some(bucket) => bucket,
                    None => Vec::new(),
                };
                let ghost filed_before = bucket@;
                bucket.push(place);
                places.insert(h, bucket);
                proof {
                    let after = entries@;
                    let ts = tables(after);
                    assert(ts =~= tables(before).push((key@, table@)));
                    assert forall|a: int, b: int| 0 <= a < b < ts.len() implies (#[trigger] ts[a]).0
                        != (#[trigger] ts[b]).0 by {
                        assert(ts[a] == tables(before)[a]);
                        if b < before.len() {
                            assert(ts[b] == tables(before)[b]);
                        }
                    }
                    assert forall|j: int| 0 <= j < after.len() implies filed(
                        places@,
                        key_hash((#[trigger] after[j]).0@),
                        j,
                    ) by {
                        if j < before.len() {
                            assert(after[j] == before[j]);
                            let hj = key_hash(before[j].0@);
                            assert(filed(filing, hj, j));
                            let k = choose|k: int|
                                0 <= k < filing[hj]@.len() && (#[trigger] filing[hj]@[k]) == j;
                            if hj == h {
                                assert(filed_before == filing[hj]@);
                                assert(places@[hj]@[k] == j);
                            } else {
                                assert(places@[hj] == filing[hj]);
                                assert(places@[hj]@[k] == j);
                            }
                        } else {
                            assert(places@[h]@[filed_before.len() as int] == j);
                        }
                    }
                    assert forall|x: u64, k: int|
                        places@.contains_key(x) && 0 <= k < places@[x]@.len() implies (
                    #[trigger] places@[x]@[k]) < after.len() by {
                        if x == h {
                            if k < filed_before.len() {
                                assert(places@[x]@[k] == filed_before[k]);
                                if filing.contains_key(h) {
                                    assert(filing[h]@[k] < before.len());
                                }
                            }
                        } else {
                            assert(filing.contains_key(x) && places@[x] == filing[x]);
                            assert(filing[x]@[k] < before.len());
                        }
                    }
                }
            },
        }
        *self = GlobalIndex { entries, places };
    }

    /// The entries of the index: each document key once, with its table, in no
    /// particular order.
    pub fn entries(&self) -> (es: &Vec<(String, TermFreq)>)
        ensures
            assoc(tables(es@)) == self@,
            distinct_keys(tables(es@)),
    {
        proof {
            use_type_invariant(self);
        }
        &self.entries
    }
}

} // verus!
