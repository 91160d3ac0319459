//! The document frequency builder: from the text of one document to its table of
//! term counts.
use crate::assoc::Key;
use crate::lexer::{lemma_lex_step, lemma_tokens_nonempty, lex, Lexer};
use crate::normalize::{lemma_upper_idempotent, normalize, upper};
use crate::table::{count_in, TermFreq};
use vstd::prelude::*;

verus! {

/// The terms for a sequence of tokens: each token in its canonical form.
pub open spec fn upper_all(tokens: Seq<Seq<char>>) -> Seq<Key> {
    Seq::new(tokens.len(), |i: int| upper(tokens[i]))
}

/// The terms of a text, in the order of its tokens.
pub open spec fn terms_of(text: Seq<char>) -> Seq<Key> {
    upper_all(lex(text))
}

/// Whether `term` is what normalizing a token gives: not empty, and its own canonical
/// form.
pub open spec fn canonical(term: Key) -> bool {
    term.len() > 0 && upper(term) == term
}

/// How often `term` occurs in `terms`.
pub open spec fn occurrences(terms: Seq<Key>, term: Key) -> nat
    decreases terms.len(),
{
    if terms.len() == 0 {
        0
    } else {
        occurrences(terms.drop_last(), term) + if terms.last() == term {
            1nat
        } else {
            0nat
        }
    }
}

/// The table for a sequence of terms: it holds the terms that occur, each with the
/// number of its occurrences.
pub open spec fn term_counts(terms: Seq<Key>) -> Map<Key, nat> {
    Map::new(|t: Key| occurrences(terms, t) > 0, |t: Key| occurrences(terms, t))
}

/// The sum of all counts of a table with finitely many terms.
pub open spec fn map_total(m: Map<Key, nat>) -> nat
    decreases m.dom().len(),
    when m.dom().finite()
{
    if m.dom().len() == 0 {
        0
    } else {
        let k = m.dom().choose();
        m[k] + map_total(m.remove(k))
    }
}

/// A term occurs at most as often as there are terms.
pub proof fn lemma_occurrences_bound(terms: Seq<Key>, term: Key)
    ensures
        occurrences(terms, term) <= terms.len(),
    decreases terms.len(),
{
    if terms.len() > 0 {
        lemma_occurrences_bound(terms.drop_last(), term);
    }
}

/// A table holds a term exactly if the term is among those counted, and then with a
/// count of at least one; a term that it does not hold occurs zero times.
pub proof fn lemma_table_holds_what_occurs(terms: Seq<Key>, term: Key)
    ensures
        term_counts(terms).dom().contains(term) <==> terms.contains(term),
        term_counts(terms).dom().contains(term) ==> term_counts(terms)[term] >= 1,
        count_in(term_counts(terms), term) == occurrences(terms, term),
{
    lemma_occurrences_positive(terms, term);
}

/// Every term of a text is non-empty and is its own canonical form, and so is every
/// term that the table of the text holds.
pub proof fn lemma_terms_canonical(text: Seq<char>)
    ensures
        forall|i: int| 0 <= i < terms_of(text).len() ==> canonical(#[trigger] terms_of(text)[i]),
        forall|term: Key| #[trigger]
            term_counts(terms_of(text)).dom().contains(term) ==> canonical(term),
{
    lemma_tokens_nonempty(text);
    assert forall|i: int| 0 <= i < terms_of(text).len() implies canonical(
        #[trigger] terms_of(text)[i],
    ) by {
        assert(lex(text)[i].len() > 0);
        lemma_upper_idempotent(lex(text)[i]);
    }
    assert forall|term: Key| #[trigger]
        term_counts(terms_of(text)).dom().contains(term) implies canonical(term) by {
        lemma_table_holds_what_occurs(terms_of(text), term);
        let i = choose|i: int| 0 <= i < terms_of(text).len() && terms_of(text)[i] == term;
        assert(canonical(terms_of(text)[i]));
    }
}

/// A term that occurs is one of the terms.
pub proof fn lemma_occurrences_positive(terms: Seq<Key>, term: Key)
    ensures
        occurrences(terms, term) > 0 <==> terms.contains(term),
    decreases terms.len(),
{
    if terms.len() > 0 {
        let front = terms.drop_last();
        lemma_occurrences_positive(front, term);
        if terms.last() == term {
            assert(terms[terms.len() - 1] == term);
        } else if front.contains(term) {
            let i = choose|i: int| 0 <= i < front.len() && front[i] == term;
            assert(terms[i] == term);
        } else if terms.contains(term) {
            let i = choose|i: int| 0 <= i < terms.len() && terms[i] == term;
            assert(front[i] == term);
        }
    }
}

/// Counting one more term adds one to the count of that term and leaves the other
/// counts as they are.
pub proof fn lemma_term_counts_push(terms: Seq<Key>, term: Key)
    ensures
        term_counts(terms.push(term)) == term_counts(terms).insert(
            term,
            count_in(term_counts(terms), term) + 1,
        ),
        count_in(term_counts(terms), term) == occurrences(terms, term),
{
    assert(terms.push(term).drop_last() =~= terms);
    assert(term_counts(terms.push(term)) =~= term_counts(terms).insert(
        term,
        count_in(term_counts(terms), term) + 1,
    ));
}

/// A table of counts holds finitely many terms.
pub proof fn lemma_term_counts_finite(terms: Seq<Key>)
    ensures
        term_counts(terms).dom().finite(),
    decreases terms.len(),
{
    if terms.len() == 0 {
        assert(term_counts(terms).dom() =~= Set::<Key>::empty());
    } else {
        let front = terms.drop_last();
        lemma_term_counts_finite(front);
        lemma_term_counts_push(front, terms.last());
        assert(front.push(terms.last()) =~= terms);
    }
}

/// The sum of all counts is the count of any one term plus the sum over the others.
pub proof fn lemma_map_total_remove(m: Map<Key, nat>, k: Key)
    requires
        m.dom().finite(),
        m.dom().contains(k),
    ensures
        map_total(m) == m[k] + map_total(m.remove(k)),
    decreases m.dom().len(),
{
    let c = m.dom().choose();
    if c != k {
        lemma_map_total_remove(m.remove(c), k);
        lemma_map_total_remove(m.remove(k), c);
        assert(m.remove(c).remove(k) =~= m.remove(k).remove(c));
    }
}

/// Count conservation: the counts of a table add up to the number of terms that
/// were counted.
pub proof fn lemma_counts_sum_to_len(terms: Seq<Key>)
    ensures
        term_counts(terms).dom().finite(),
        map_total(term_counts(terms)) == terms.len(),
    decreases terms.len(),
{
    lemma_term_counts_finite(terms);
    if terms.len() == 0 {
        assert(term_counts(terms).dom() =~= Set::<Key>::empty());
    } else {
        let front = terms.drop_last();
        let last = terms.last();
        assert(front.push(last) =~= terms);
        lemma_counts_sum_to_len(front);
        lemma_term_counts_push(front, last);
        let whole = term_counts(terms);
        let part = term_counts(front);
        lemma_map_total_remove(whole, last);
        if part.dom().contains(last) {
            lemma_map_total_remove(part, last);
            assert(whole.remove(last) =~= part.remove(last));
        } else {
            assert(whole.remove(last) =~= part);
        }
    }
}

/// The table of one document: every term of the text with the number of its
/// occurrences. Every term in it is non-empty and in canonical form, and the counts
/// add up to the number of tokens. A text without tokens gives the empty table.
pub fn term_frequencies(content: &[char]) -> (table: TermFreq)
    ensures
        table@ == term_counts(terms_of(content@)),
        table@.dom().finite(),
        map_total(table@) == lex(content@).len(),
        lex(content@).len() == 0 ==> table@ == Map::<Key, nat>::empty(),
        forall|term: Key| #[trigger] table@.dom().contains(term) ==> canonical(term),
{
    let mut lexer = Lexer::new(content);
    let mut table = TermFreq::new();
    let ghost mut done: Seq<Seq<char>> = Seq::empty();
    proof {
        assert(term_counts(upper_all(done)) =~= Map::<Key, nat>::empty());
        assert(content@.len() == content.len());
    }
    loop
        invariant
            lex(content@) == done + lex(lexer@),
            table@ == term_counts(upper_all(done)),
            done.len() + lexer@.len() <= content@.len() <= usize::MAX,
        ensures
            lex(lexer@).len() == 0,
        decreases lexer@.len(),
    {
        let ghost rest = lexer@;
        proof {
            lemma_lex_step(rest);
            lemma_lex_step(Seq::<char>::empty());
        }
        match lexer.next_token() {
            None => {
                break ;
            },
            Some(token) => {
                let term = normalize(token);
                proof {
                    assert(done + lex(rest) =~= done.push(token@) + lex(lexer@));
                    lemma_term_counts_push(upper_all(done), term@);
                    lemma_occurrences_bound(upper_all(done), term@);
                    assert(upper_all(done.push(token@)) =~= upper_all(done).push(term@));
                    done = done.push(token@);
                }
                table.add(term);
            },
        }
    }
    proof {
        assert(done =~= lex(content@));
        lemma_counts_sum_to_len(terms_of(content@));
        lemma_terms_canonical(content@);
        if lex(content@).len() == 0 {
            assert(table@ =~= Map::<Key, nat>::empty());
        }
    }
    table
}

} // verus!
