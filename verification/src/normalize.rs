//! The normalizer: from a raw token to its canonical term.
use crate::classify::{ascii_upper, lemma_ascii_upper_idempotent};
use vstd::prelude::*;

verus! {

/// The canonical form of a token: each character in its ASCII upper-case form, in
/// the same order. Characters outside `a` to `z` stay as they are.
pub open spec fn upper(token: Seq<char>) -> Seq<char> {
    Seq::new(token.len(), |i: int| ascii_upper(token[i]))
}

/// `String::push`: appends the character to the end of the string.
pub assume_specification[ String::push ](s: &mut String, ch: char)
    ensures
        final(s)@ == old(s)@.push(ch),
;

/// The term for a raw token: the token in ASCII upper case.
pub fn normalize(token: &[char]) -> (term: String)
    ensures
        term@ == upper(token@),
{
    let mut term = String::new();
    let mut i: usize = 0;
    while i < token.len()
        invariant
            i <= token@.len(),
            term@ == upper(token@.take(i as int)),
        decreases token@.len() - i,
    {
        term.push(token[i].to_ascii_uppercase());
        i += 1;
        assert(term@ =~= upper(token@.take(i as int)));
    }
    assert(token@.take(i as int) =~= token@);
    term
}

/// Normalizing a term again gives the same term.
pub proof fn lemma_upper_idempotent(token: Seq<char>)
    ensures
        upper(upper(token)) == upper(token),
{
    assert forall|i: int| 0 <= i < token.len() implies upper(upper(token))[i] == upper(token)[i] by {
        lemma_ascii_upper_idempotent(token[i]);
    }
    assert(upper(upper(token)) =~= upper(token));
}

} // verus!
