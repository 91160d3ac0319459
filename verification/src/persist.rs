//! Index persistence: the global index as one JSON text, an object that maps each
//! document key to an object that maps each term to its count.
use crate::assoc::{assoc, distinct_keys, has_key, lemma_assoc_dom, lemma_assoc_entries, Key};
use crate::index::{tables, GlobalIndex};
use crate::table::{pairs, positive_counts, TermFreq};
use std::collections::HashMap;
use vstd::prelude::*;

verus! {

/// The entries of one table in plain form: each term with its count.
pub type PlainTable = Vec<(String, u64)>;

/// The entries of an index in plain form: each document key with the entries of its
/// table.
pub type PlainIndex = Vec<(String, PlainTable)>;

/// The failure of the JSON encoder or parser.
#[verifier::external_type_specification]
#[verifier::external_body]
pub struct ExJsonError(serde_json::Error);

/// The index that a text holds: what the JSON parser reads from `text` as an object
/// of objects of unsigned 64-bit counts, or `None` where it refuses the text. Where
/// the text repeats a key, the last value counts.
pub uninterp spec fn json_index(text: Seq<char>) -> Option<Map<Seq<char>, Map<Seq<char>, nat>>>;

/// The entries of one table of a parsed text as plain pairs.
pub open spec fn counts(es: Seq<(String, u64)>) -> Seq<(Key, nat)> {
    Seq::new(es.len(), |i: int| (es[i].0@, es[i].1 as nat))
}

/// The documents of a parsed text as plain pairs of a key and a table.
pub open spec fn documents(docs: Seq<(String, PlainTable)>) -> Seq<(Key, Map<Key, nat>)> {
    Seq::new(docs.len(), |i: int| (docs[i].0@, assoc(counts(docs[i].1@))))
}

/// The index that a list of documents stands for.
pub open spec fn plain_index(docs: Seq<(String, PlainTable)>) -> Map<Key, Map<Key, nat>> {
    assoc(documents(docs))
}

/// Whether no document key occurs twice in `docs`, and no term twice in the table of
/// one document.
pub open spec fn distinct_throughout(docs: Seq<(String, PlainTable)>) -> bool {
    &&& distinct_keys(documents(docs))
    &&& forall|i: int| 0 <= i < docs.len() ==> distinct_keys(counts((#[trigger] docs[i]).1@))
}

/// `serde_json::from_str` at the type of a hash map from strings to hash maps from
/// strings to `u64`, its entries then moved into vectors. The parser reads nothing
/// but `text`, so the map it builds is a function of the text; the order of the
/// entries in the vectors is not. A hash map holds no key twice.
#[verifier::external_body]
fn parse_index(text: &str) -> (r: Result<PlainIndex, serde_json::Error>)
    ensures
        match r {
            Ok(docs) => json_index(text@) == Some(plain_index(docs@))
                && distinct_throughout(docs@),
            Err(_) => json_index(text@) is None,
        },
{
    let parsed: HashMap<String, HashMap<String, u64>> = serde_json::from_str(text)?;
    Ok(parsed.into_iter().map(|(key, table)| (key, table.into_iter().collect())).collect())
}

/// `serde_json::to_string` on a hash map from strings to hash maps from strings to
/// `u64` that holds the given entries. The encoder fails only where a value refuses
/// to be written or a map has keys that are not strings; here all keys are strings
/// and all values are integers, written into memory, so it succeeds. The text lists
/// the entries in the order in which the hash maps are walked, which is not fixed;
/// whatever the order, the text is a JSON object of objects with one member for each
/// entry, keys escaped and counts in decimal, and `serde_json::from_str` reads the
/// same map from it.
#[verifier::external_body]
fn write_index(docs: &PlainIndex) -> (r: Result<String, serde_json::Error>)
    ensures
        r is Ok,
        r matches Ok(text) ==> json_index(text@) == Some(plain_index(docs@)),
{
    let tables: HashMap<&String, HashMap<&String, u64>> = docs.iter().map(
        |(key, table)| (key, table.iter().map(|(term, count)| (term, *count)).collect()),
    ).collect();
    serde_json::to_string(&tables)
}

/// The message of `serde_json::Error`, as its `Display` writes it.
#[verifier::external_body]
fn error_message(error: &serde_json::Error) -> (message: String) {
    error.to_string()
}

/// Why an index could not be written as text or read from it.
#[derive(Debug)]
pub enum PersistError {
    /// The encoder refused the index; the message says why. No index that this
    /// library builds is refused.
    Encode(String),
    /// The text is not the JSON form of an index; the message says where and why.
    Parse(String),
    /// The text gives `term` of `document` a count that no table holds: zero, or more
    /// than a table can count.
    BadCount { document: String, term: String, count: u64 },
}

/// Whether a table can hold the count `n`: at least one, and within `usize`.
pub open spec fn good_count(n: nat) -> bool {
    1 <= n <= usize::MAX
}

/// Whether every count of the table is one that a table can hold.
pub open spec fn valid_table(t: Map<Key, nat>) -> bool {
    forall|term: Key| t.dom().contains(term) ==> good_count(#[trigger] t[term])
}

/// Whether every table of the index holds only counts that a table can hold.
pub open spec fn valid_index(m: Map<Key, Map<Key, nat>>) -> bool {
    forall|document: Key| m.dom().contains(document) ==> valid_table(#[trigger] m[document])
}

/// Whether every entry has a count that a table can hold.
pub open spec fn good_counts(es: Seq<(String, u64)>) -> bool {
    forall|j: int| 0 <= j < es.len() ==> good_count((#[trigger] es[j]).1 as nat)
}

/// Whether every entry of every document has a count that a table can hold.
pub open spec fn good_documents(docs: Seq<(String, PlainTable)>) -> bool {
    forall|i: int| 0 <= i < docs.len() ==> good_counts((#[trigger] docs[i]).1@)
}

/// The index that is read from `text`: the one that the text holds, if it holds one
/// and all its counts are counts that a table can hold.
pub open spec fn decoded(text: Seq<char>) -> Option<Map<Key, Map<Key, nat>>> {
    match json_index(text) {
        Some(m) => if valid_index(m) {
            Some(m)
        } else {
            None
        },
        None => None,
    }
}

/// Where no term occurs twice, the entries have good counts exactly if the table
/// that they stand for is valid.
pub proof fn lemma_good_counts_valid(es: Seq<(String, u64)>)
    requires
        distinct_keys(counts(es)),
    ensures
        good_counts(es) <==> valid_table(assoc(counts(es))),
{
    let cs = counts(es);
    let t = assoc(cs);
    lemma_assoc_dom(cs);
    lemma_assoc_entries(cs);
    if good_counts(es) {
        assert forall|term: Key| t.dom().contains(term) implies good_count(#[trigger] t[term]) by {
            assert(has_key(cs, term));
            let j = choose|j: int| 0 <= j < cs.len() && (#[trigger] cs[j]).0 == term;
            assert(t[cs[j].0] == cs[j].1);
            assert(good_count(es[j].1 as nat));
        }
    }
    if valid_table(t) {
        assert forall|j: int| 0 <= j < es.len() implies good_count((#[trigger] es[j]).1 as nat) by {
            assert(cs[j].0 == es[j].0@);
            assert(has_key(cs, cs[j].0));
            assert(t[cs[j].0] == cs[j].1);
        }
    }
}

/// Where no key occurs twice, the documents have good counts exactly if the index
/// that they stand for is valid.
pub proof fn lemma_good_documents_valid(docs: Seq<(String, PlainTable)>)
    requires
        distinct_throughout(docs),
    ensures
        good_documents(docs) <==> valid_index(plain_index(docs)),
{
    let ds = documents(docs);
    let m = plain_index(docs);
    lemma_assoc_dom(ds);
    lemma_assoc_entries(ds);
    if good_documents(docs) {
        assert forall|document: Key| m.dom().contains(document) implies valid_table(
            #[trigger] m[document],
        ) by {
            assert(has_key(ds, document));
            let i = choose|i: int| 0 <= i < ds.len() && (#[trigger] ds[i]).0 == document;
            assert(m[ds[i].0] == ds[i].1);
            assert(good_counts(docs[i].1@));
            lemma_good_counts_valid(docs[i].1@);
        }
    }
    if valid_index(m) {
        assert forall|i: int| 0 <= i < docs.len() implies good_counts((#[trigger] docs[i]).1@) by {
            assert(ds[i].0 == docs[i].0@);
            assert(has_key(ds, ds[i].0));
            assert(m[ds[i].0] == ds[i].1);
            lemma_good_counts_valid(docs[i].1@);
        }
    }
}

/// Where no key occurs twice, each entry of each document is what the index maps
/// that document and that term to.
pub proof fn lemma_entry_in_index(docs: Seq<(String, PlainTable)>, i: int, j: int)
    requires
        distinct_throughout(docs),
        0 <= i < docs.len(),
        0 <= j < docs[i].1@.len(),
    ensures
        plain_index(docs).dom().contains(docs[i].0@),
        plain_index(docs)[docs[i].0@].dom().contains(docs[i].1@[j].0@),
        plain_index(docs)[docs[i].0@][docs[i].1@[j].0@] == docs[i].1@[j].1,
{
    let ds = documents(docs);
    lemma_assoc_dom(ds);
    lemma_assoc_entries(ds);
    assert(ds[i].0 == docs[i].0@);
    assert(has_key(ds, ds[i].0));
    assert(plain_index(docs)[ds[i].0] == ds[i].1);
    let cs = counts(docs[i].1@);
    lemma_assoc_dom(cs);
    lemma_assoc_entries(cs);
    assert(cs[j].0 == docs[i].1@[j].0@);
    assert(has_key(cs, cs[j].0));
    assert(assoc(cs)[cs[j].0] == cs[j].1);
}

/// The entries of a table with their counts as `u64`.
fn plain_table(table: &TermFreq) -> (es: PlainTable)
    ensures
        assoc(counts(es@)) == table@,
        distinct_keys(counts(es@)),
        good_counts(es@),
{
    let entries = table.entries();
    let mut es: PlainTable = Vec::new();
    let mut j: usize = 0;
    while j < entries.len()
        invariant
            j <= entries@.len(),
            es@.len() == j,
            positive_counts(entries@),
            forall|k: int|
                0 <= k < j ==> (#[trigger] es@[k]).0@ == entries@[k].0@ && es@[k].1 == entries@[k].1,
        decreases entries@.len() - j,
    {
        es.push((entries[j].0.clone(), entries[j].1 as u64));
        j += 1;
    }
    proof {
        assert(counts(es@) =~= pairs(entries@));
        assert forall|k: int| 0 <= k < es@.len() implies good_count((#[trigger] es@[k]).1 as nat) by {
            assert(entries@[k].1 >= 1);
        }
    }
    es
}

/// The documents of an index as plain entries, each key once.
pub fn to_plain(index: &GlobalIndex) -> (docs: PlainIndex)
    ensures
        plain_index(docs@) == index@,
        distinct_throughout(docs@),
        good_documents(docs@),
{
    let entries = index.entries();
    let mut docs: PlainIndex = Vec::new();
    let mut i: usize = 0;
    while i < entries.len()
        invariant
            i <= entries@.len(),
            docs@.len() == i,
            forall|k: int|
                0 <= k < i ==> (#[trigger] docs@[k]).0@ == entries@[k].0@ && assoc(
                    counts(docs@[k].1@),
                ) == entries@[k].1@ && distinct_keys(counts(docs@[k].1@)) && good_counts(
                    docs@[k].1@,
                ),
        decreases entries@.len() - i,
    {
        let table = plain_table(&entries[i].1);
        docs.push((entries[i].0.clone(), table));
        i += 1;
    }
    proof {
        assert(documents(docs@) =~= tables(entries@));
    }
    docs
}

/// The table with the given entries, where each count is one that a table can
/// hold; else the place of an entry whose count is not.
fn table_from_counts(entries: &PlainTable) -> (r: Result<TermFreq, usize>)
    ensures
        match r {
            Ok(table) => good_counts(entries@) && table@ == assoc(counts(entries@)),
            Err(j) => j < entries@.len() && !good_count(entries@[j as int].1 as nat),
        },
{
    let mut es: Vec<(String, usize)> = Vec::new();
    let mut j: usize = 0;
    while j < entries.len()
        invariant
            j <= entries@.len(),
            es@.len() == j,
            forall|k: int|
                0 <= k < j ==> (#[trigger] es@[k]).0@ == entries@[k].0@ && es@[k].1
                    == entries@[k].1 && es@[k].1 >= 1,
        decreases entries@.len() - j,
    {
        let count = entries[j].1;
        if count == 0 || count > usize::MAX as u64 {
            return Err(j);
        }
        es.push((entries[j].0.clone(), count as usize));
        j += 1;
    }
    proof {
        assert(pairs(es@) =~= counts(entries@));
        assert forall|k: int| 0 <= k < entries@.len() implies good_count(
            (#[trigger] entries@[k]).1 as nat,
        ) by {
            assert(es@[k].1 == entries@[k].1);
        }
    }
    match TermFreq::from_entries(&es) {
        Some(table) => Ok(table),
        None => Err(0),
    }
}

/// The index with the given documents, where every count is one that a table can
/// hold; else an entry whose count is not. Where a key stands in several entries,
/// the last of them counts.
pub fn index_from_plain(docs: &PlainIndex) -> (r: Result<GlobalIndex, PersistError>)
    ensures
        match r {
            Ok(index) => good_documents(docs@) && index@ == plain_index(docs@),
            Err(PersistError::BadCount { document, term, count }) => exists|i: int, j: int|
                0 <= i < docs@.len() && 0 <= j < docs@[i].1@.len() && document@ == docs@[i].0@
                    && term@ == (#[trigger] docs@[i].1@[j]).0@ && count == docs@[i].1@[j].1
                    && !good_count(count as nat),
            Err(_) => false,
        },
{
    let mut index = GlobalIndex::new();
    let mut i: usize = 0;
    while i < docs.len()
        invariant
            i <= docs@.len(),
            good_documents(docs@.take(i as int)),
            index@ == plain_index(docs@.take(i as int)),
        decreases docs@.len() - i,
    {
        match table_from_counts(&docs[i].1) {
            Ok(table) => {
                index.insert(docs[i].0.clone(), table);
            },
            Err(j) => {
                let bad = PersistError::BadCount {
                    document: docs[i].0.clone(),
                    term: docs[i].1[j].0.clone(),
                    count: docs[i].1[j].1,
                };
                return Err(bad);
            },
        }
        proof {
            let now = docs@.take(i + 1);
            assert(now.drop_last() =~= docs@.take(i as int));
            assert(documents(now).drop_last() =~= documents(docs@.take(i as int)));
            assert forall|k: int| 0 <= k < now.len() implies good_counts((#[trigger] now[k]).1@) by {
                if k < i {
                    assert(docs@.take(i as int)[k] == now[k]);
                }
            }
        }
        i += 1;
    }
    proof {
        assert(docs@.take(i as int) =~= docs@);
    }
    Ok(index)
}

/// The index as JSON text. Every index has such a text. The order of its members is
/// not fixed; whatever text comes out, reading it gives this index back: the same
/// document keys, and for each document the same terms with the same counts.
pub fn encode(index: &GlobalIndex) -> (r: Result<String, PersistError>)
    ensures
        r matches Ok(text) && decoded(text@) == Some(index@),
{
    let docs = to_plain(index);
    proof {
        lemma_good_documents_valid(docs@);
    }
    match write_index(&docs) {
        Ok(text) => Ok(text),
        Err(error) => Err(PersistError::Encode(error_message(&error))),
    }
}

/// The index that `text` holds, its keys and terms taken as they stand in the text:
/// any string may be a document key or a term. A text that is not the JSON form of
/// an index gives `PersistError::Parse`; one that is, but gives some term a count
/// that no table holds, gives `PersistError::BadCount` with such a term.
pub fn decode(text: &str) -> (r: Result<GlobalIndex, PersistError>)
    ensures
        r matches Ok(index) ==> decoded(text@) == Some(index@),
        r is Ok <==> decoded(text@) is Some,
        json_index(text@) is None <==> r matches Err(PersistError::Parse(_)),
        r matches Err(PersistError::BadCount { document, term, count }) ==> ({
            &&& json_index(text@) matches Some(m)
            &&& m.dom().contains(document@)
            &&& m[document@].dom().contains(term@)
            &&& m[document@][term@] == count
            &&& !good_count(count as nat)
        }),
        !(r matches Err(PersistError::Encode(_))),
{
    match parse_index(text) {
        Ok(docs) => {
            proof {
                lemma_good_documents_valid(docs@);
            }
            let r = index_from_plain(&docs);
            proof {
                if let Err(PersistError::BadCount { document, term, count }) = &r {
                    let (i, j) = choose|i: int, j: int|
                        0 <= i < docs@.len() && 0 <= j < docs@[i].1@.len() && document@
                            == docs@[i].0@ && term@ == (#[trigger] docs@[i].1@[j]).0@ && count
                            == docs@[i].1@[j].1 && !good_count(count as nat);
                    lemma_entry_in_index(docs@, i, j);
                    assert(!good_documents(docs@));
                }
            }
            r
        },
        Err(error) => Err(PersistError::Parse(error_message(&error))),
    }
}

} // verus!
