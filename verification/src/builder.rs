//! The global index builder: document by document, from extracted text to the
//! entries of the global index.
use crate::assoc::Key;
use crate::extract::ExtractError;
use crate::frequency::{term_counts, term_frequencies, terms_of};
use crate::table::TermFreq;
use crate::index::GlobalIndex;
use crate::lexer::{lex, text_chars};
use vstd::prelude::*;

verus! {

/// The table of a text: its terms with the numbers of their occurrences.
pub open spec fn table_of(text: Seq<char>) -> Map<Key, nat> {
    term_counts(terms_of(text))
}

/// What is done with a document from which no text could be had.
#[derive(Clone, Copy, Debug, PartialEq, Eq, Structural)]
pub enum FailurePolicy {
    /// The document gets no entry in the index.
    Skip,
    /// The document gets an entry with the empty table.
    IndexEmpty,
}

/// A document as it comes to the builder: its key, and the text that was extracted
/// from it or the reason why none was.
pub struct Document {
    pub key: String,
    pub extracted: Result<String, ExtractError>,
}

/// The record of a document from which no text could be had.
#[derive(Debug)]
pub struct Failure {
    pub key: String,
    pub cause: ExtractError,
}

/// What the builder hands back: the index, and the failures in the order of the
/// documents.
pub struct Built {
    pub index: GlobalIndex,
    pub failures: Vec<Failure>,
}

/// The index after one more document: a document with text enters under its key
/// with the table of that text, in place of any entry that stood under that key; a
/// failed document enters with the empty table or not at all, as the policy says.
pub open spec fn after_document(
    m: Map<Key, Map<Key, nat>>,
    document: Document,
    policy: FailurePolicy,
) -> Map<Key, Map<Key, nat>> {
    match document.extracted {
        Ok(text) => m.insert(document.key@, table_of(text@)),
        Err(_) => match policy {
            FailurePolicy::Skip => m,
            FailurePolicy::IndexEmpty => m.insert(document.key@, Map::empty()),
        },
    }
}

/// The index of a sequence of documents, taken in their order.
pub open spec fn index_of(documents: Seq<Document>, policy: FailurePolicy) -> Map<
    Key,
    Map<Key, nat>,
>
    decreases documents.len(),
{
    if documents.len() == 0 {
        Map::empty()
    } else {
        after_document(index_of(documents.drop_last(), policy), documents.last(), policy)
    }
}

/// The documents of the sequence from which no text could be had, in their order,
/// each with its key and the cause.
pub open spec fn failures_of(documents: Seq<Document>) -> Seq<(Key, ExtractError)>
    decreases documents.len(),
{
    if documents.len() == 0 {
        Seq::empty()
    } else {
        match documents.last().extracted {
            Ok(_) => failures_of(documents.drop_last()),
            Err(cause) => failures_of(documents.drop_last()).push((documents.last().key@, cause)),
        }
    }
}

/// The failures as plain pairs of a key and a cause.
pub open spec fn recorded(failures: Seq<Failure>) -> Seq<(Key, ExtractError)> {
    Seq::new(failures.len(), |i: int| (failures[i].key@, failures[i].cause))
}

/// A text without tokens has the empty table.
pub proof fn lemma_table_of_no_tokens(text: Seq<char>)
    requires
        lex(text).len() == 0,
    ensures
        table_of(text) == Map::<Key, nat>::empty(),
{
    assert(table_of(text) =~= Map::<Key, nat>::empty());
}

/// Every document with text has an entry in the index, whatever its text holds and
/// whichever documents before or behind it failed. Where no document behind it has
/// the same key, the entry is the table of its text: the empty table for a text
/// without tokens.
pub proof fn lemma_document_has_entry(documents: Seq<Document>, policy: FailurePolicy, i: int)
    requires
        0 <= i < documents.len(),
        documents[i].extracted is Ok,
    ensures
        index_of(documents, policy).dom().contains(documents[i].key@),
        (forall|j: int| i < j < documents.len() ==> (#[trigger] documents[j]).key@
            != documents[i].key@) ==> index_of(documents, policy)[documents[i].key@] == table_of(
            documents[i].extracted->Ok_0@,
        ),
    decreases documents.len(),
{
    let front = documents.drop_last();
    if i < documents.len() - 1 {
        lemma_document_has_entry(front, policy, i);
        assert(front[i] == documents[i]);
        if forall|j: int| i < j < documents.len() ==> (#[trigger] documents[j]).key@
            != documents[i].key@ {
            assert(documents[documents.len() - 1].key@ != documents[i].key@);
            assert forall|j: int| i < j < front.len() implies (#[trigger] front[j]).key@
                != front[i].key@ by {
                assert(front[j] == documents[j]);
            }
        }
    }
}

/// Puts the document `key` with the given text into the index: the text is
/// tokenized, its tokens are normalized and counted, and the table stands under
/// `key` afterwards, in place of any table that stood there. A text without tokens
/// gives an entry too, with the empty table.
pub fn index_text(index: &mut GlobalIndex, key: String, text: &str)
    ensures
        final(index)@ == old(index)@.insert(key@, table_of(text@)),
        final(index)@.dom().contains(key@),
        lex(text@).len() == 0 ==> final(index)@[key@] == Map::<Key, nat>::empty(),
{
    let chars = text_chars(text);
    let table = term_frequencies(chars.as_slice());
    index.insert(key, table);
}

/// Takes one document into the index. A document with text is indexed as
/// `index_text` does it. A failed document is handed back as a `Failure`, and gets
/// the empty table or no entry, as `policy` says; the entries of the other
/// documents stay as they are.
pub fn index_document(index: &mut GlobalIndex, document: Document, policy: FailurePolicy) -> (failure:
    Option<Failure>)
    ensures
        final(index)@ == after_document(old(index)@, document, policy),
        match document.extracted {
            Ok(_) => failure is None,
            Err(cause) => failure matches Some(f) && f.key@ == document.key@ && f.cause == cause,
        },
{
    let Document { key, extracted } = document;
    match extracted {
        Ok(text) => {
            index_text(index, key, text.as_str());
            None
        },
        Err(cause) => {
            match policy {
                FailurePolicy::Skip => {},
                FailurePolicy::IndexEmpty => {
                    index.insert(key.clone(), TermFreq::new());
                },
            }
            Some(Failure { key, cause })
        },
    }
}

/// Builds the index of the given documents, taken in their order. Every document is
/// visited once. A failure on one document is recorded and does not end the run:
/// the documents behind it are indexed as if it had not happened.
pub fn build_index(documents: Vec<Document>, policy: FailurePolicy) -> (built: Built)
    ensures
        built.index@ == index_of(documents@, policy),
        recorded(built.failures@) == failures_of(documents@),
{
    let mut index = GlobalIndex::new();
    let mut failures: Vec<Failure> = Vec::new();
    for document in it: documents
        invariant
            it.seq() == documents@,
            index@ == index_of(documents@.take(it.index() as int), policy),
            recorded(failures@) == failures_of(documents@.take(it.index() as int)),
    {
        proof {
            let now = documents@.take(it.index() + 1);
            assert(now.drop_last() =~= documents@.take(it.index() as int));
            assert(now.last() == document);
        }
        let ghost before = failures@;
        match index_document(&mut index, document, policy) {
            Some(failure) => {
                failures.push(failure);
                assert(recorded(failures@) =~= recorded(before).push(
                    (failure.key@, failure.cause),
                ));
            },
            None => {},
        }
    }
    proof {
        assert(documents@.take(documents@.len() as int) =~= documents@);
    }
    Built { index, failures }
}

} // verus!
