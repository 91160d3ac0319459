//! Lists of key and value pairs, read as maps: the model behind the tables of this
//! crate, which keep their entries in a vector, no key twice, and find them through
//! a hash of the key.
use vstd::prelude::*;

verus! {

/// A key of a table, as a sequence of characters.
pub type Key = Seq<char>;

/// The map that a list of entries stands for. Where a key occurs more than once, its
/// last entry counts.
pub open spec fn assoc<V>(es: Seq<(Key, V)>) -> Map<Key, V>
    decreases es.len(),
{
    if es.len() == 0 {
        Map::empty()
    } else {
        assoc(es.drop_last()).insert(es.last().0, es.last().1)
    }
}

/// Whether `k` is the key of some entry of `es`.
pub open spec fn has_key<V>(es: Seq<(Key, V)>, k: Key) -> bool {
    exists|i: int| 0 <= i < es.len() && (#[trigger] es[i]).0 == k
}

/// Whether no key occurs twice in `es`.
pub open spec fn distinct_keys<V>(es: Seq<(Key, V)>) -> bool {
    forall|i: int, j: int| 0 <= i < j < es.len() ==> (#[trigger] es[i]).0 != (#[trigger] es[j]).0
}

/// The keys of the map are the keys of the entries, and there are finitely many.
pub proof fn lemma_assoc_dom<V>(es: Seq<(Key, V)>)
    ensures
        assoc(es).dom().finite(),
        forall|k: Key|
            #![trigger assoc(es).dom().contains(k)]
            #![trigger has_key(es, k)]
            assoc(es).dom().contains(k) <==> has_key(es, k),
    decreases es.len(),
{
    if es.len() > 0 {
        let front = es.drop_last();
        lemma_assoc_dom(front);
        assert forall|k: Key| assoc(es).dom().contains(k) <==> has_key(es, k) by {
            assert(assoc(front).dom().contains(k) <==> has_key(front, k));
            if k == es.last().0 {
                assert(es[es.len() - 1].0 == k);
            } else if has_key(front, k) {
                let i = choose|i: int| 0 <= i < front.len() && (#[trigger] front[i]).0 == k;
                assert(es[i].0 == k);
            } else if has_key(es, k) {
                let i = choose|i: int| 0 <= i < es.len() && (#[trigger] es[i]).0 == k;
                assert(front[i].0 == k);
            }
        }
    }
}

/// Where no key occurs twice, each entry's key is mapped to that entry's value, and
/// the map has as many keys as the list has entries.
pub proof fn lemma_assoc_entries<V>(es: Seq<(Key, V)>)
    requires
        distinct_keys(es),
    ensures
        forall|i: int| 0 <= i < es.len() ==> assoc(es)[(#[trigger] es[i]).0] == es[i].1,
        assoc(es).dom().len() == es.len(),
    decreases es.len(),
{
    if es.len() > 0 {
        let front = es.drop_last();
        assert forall|i: int, j: int| 0 <= i < j < front.len() implies (#[trigger] front[i]).0
            != (#[trigger] front[j]).0 by {
            assert(front[i] == es[i] && front[j] == es[j]);
        }
        lemma_assoc_entries(front);
        lemma_assoc_dom(front);
        assert forall|i: int| 0 <= i < es.len() implies assoc(es)[(#[trigger] es[i]).0]
            == es[i].1 by {
            if i < es.len() - 1 {
                assert(front[i] == es[i]);
                assert(es[i].0 != es[es.len() - 1].0);
            }
        }
        assert(assoc(front).dom().contains(es.last().0) <==> has_key(front, es.last().0));
        if has_key(front, es.last().0) {
            let i = choose|i: int| 0 <= i < front.len() && (#[trigger] front[i]).0 == es.last().0;
            assert(es[i].0 == es[es.len() - 1].0);
        }
    }
}

/// Appending an entry inserts its key with its value.
pub proof fn lemma_assoc_push<V>(es: Seq<(Key, V)>, k: Key, v: V)
    ensures
        assoc(es.push((k, v))) == assoc(es).insert(k, v),
{
    assert(es.push((k, v)).drop_last() =~= es);
}

/// Where no key occurs twice, replacing the value of entry `i` replaces the value
/// that its key is mapped to, and nothing else.
pub proof fn lemma_assoc_update<V>(es: Seq<(Key, V)>, i: int, v: V)
    requires
        distinct_keys(es),
        0 <= i < es.len(),
    ensures
        assoc(es.update(i, (es[i].0, v))) == assoc(es).insert(es[i].0, v),
        distinct_keys(es.update(i, (es[i].0, v))),
    decreases es.len(),
{
    let changed = es.update(i, (es[i].0, v));
    assert forall|a: int, b: int| 0 <= a < b < changed.len() implies (#[trigger] changed[a]).0
        != (#[trigger] changed[b]).0 by {
        assert(changed[a].0 == es[a].0 && changed[b].0 == es[b].0);
    }
    let front = es.drop_last();
    if i == es.len() - 1 {
        assert(changed.drop_last() =~= front);
        assert(assoc(changed) =~= assoc(es).insert(es[i].0, v));
    } else {
        assert forall|a: int, b: int| 0 <= a < b < front.len() implies (#[trigger] front[a]).0
            != (#[trigger] front[b]).0 by {
            assert(front[a] == es[a] && front[b] == es[b]);
        }
        lemma_assoc_update(front, i, v);
        assert(changed.drop_last() =~= front.update(i, (front[i].0, v)));
        assert(changed.last() == es.last());
        assert(es[i].0 != es[es.len() - 1].0);
        assert(assoc(changed) =~= assoc(es).insert(es[i].0, v));
    }
}

/// The hash under which a key is filed: a polynomial in the codes of its
/// characters, below a prime short of 2 to the 32.
pub open spec fn key_hash(key: Key) -> u64
    decreases key.len(),
{
    if key.len() == 0 {
        7
    } else {
        ((key_hash(key.drop_last()) * 31 + ((key.last() as u32) as u64)) % 4294967291) as u64
    }
}

/// Whether `places` files the entry at place `i` under the hash `h`.
pub open spec fn filed(places: Map<u64, Vec<usize>>, h: u64, i: int) -> bool {
    places.contains_key(h) && exists|k: int|
        0 <= k < places[h]@.len() && (#[trigger] places[h]@[k]) == i
}

/// The hash of `key`.
pub(crate) fn hash_of(key: &String) -> (h: u64)
    ensures
        h == key_hash(key@),
{
    let mut h: u64 = 7;
    for c in it: key.as_str().chars()
        invariant
            it.seq() == key@,
            h == key_hash(it.seq().take(it.index() as int)),
            h < 4294967291,
    {
        assert(it.seq().take(it.index() + 1).drop_last() =~= it.seq().take(it.index() as int));
        h = (h * 31 + (c as u32) as u64) % 4294967291;
    }
    assert(key@.take(key@.len() as int) =~= key@);
    h
}

} // verus!
