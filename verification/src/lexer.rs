//! The tokenizer: a cursor over a buffer of characters that hands out one raw token
//! at a time, each a slice of the buffer.
use crate::classify::{alphabetic, alphanumeric, ascii, numeric, white_space};
use vstd::prelude::*;
use vstd::slice::slice_subrange;

verus! {

/// The class of white space, as a predicate on characters.
pub open spec fn is_space() -> spec_fn(char) -> bool {
    |c: char| white_space(c)
}

/// The class of digits, as a predicate on characters.
pub open spec fn is_digit() -> spec_fn(char) -> bool {
    |c: char| numeric(c)
}

/// The class of characters that continue a word, as a predicate on characters.
pub open spec fn is_word_part() -> spec_fn(char) -> bool {
    |c: char| alphanumeric(c)
}

/// The length of the longest prefix of `s` whose characters all satisfy `p`.
pub open spec fn run_len(s: Seq<char>, p: spec_fn(char) -> bool) -> nat
    decreases s.len(),
{
    if s.len() > 0 && p(s[0]) {
        1 + run_len(s.skip(1), p)
    } else {
        0
    }
}

/// Whether `n` is the length of the longest prefix of `s` in which every character
/// satisfies `p`: all of the first `n` do, and the one after them, if any, does not.
pub open spec fn is_maximal_run(s: Seq<char>, p: spec_fn(char) -> bool, n: int) -> bool {
    &&& 0 <= n <= s.len()
    &&& forall|i: int| 0 <= i < n ==> p(#[trigger] s[i])
    &&& n < s.len() ==> !p(s[n])
}

/// The number of white-space characters that `s` starts with.
pub open spec fn leading_space(s: Seq<char>) -> nat {
    run_len(s, is_space())
}

/// The length of the token that `t` starts with, where `t` is not empty and does not
/// start with white space: a run of digits, or a letter and the run of letters and
/// digits behind it, or one character of any other kind.
pub open spec fn token_len(t: Seq<char>) -> nat
    recommends
        t.len() > 0,
{
    if numeric(t[0]) {
        run_len(t, is_digit())
    } else if alphabetic(t[0]) {
        run_len(t, is_word_part())
    } else {
        1
    }
}

/// Where the first token of `s` starts: behind the leading white space.
pub open spec fn token_start(s: Seq<char>) -> int {
    leading_space(s) as int
}

/// Where the first token of `s` ends, if `s` holds a token at all.
pub open spec fn token_end(s: Seq<char>) -> int {
    token_start(s) + token_len(s.skip(token_start(s)))
}

/// Whether `s` holds a token: whether anything but white space is in it.
pub open spec fn has_token(s: Seq<char>) -> bool {
    token_start(s) < s.len()
}

/// The first token of `s`, if it has one.
pub open spec fn first_token(s: Seq<char>) -> Option<Seq<char>> {
    if has_token(s) {
        Some(s.subrange(token_start(s), token_end(s)))
    } else {
        None
    }
}

/// What is left of `s` once its first token has been taken: the characters behind
/// that token, or nothing where `s` holds no token.
pub open spec fn after_first_token(s: Seq<char>) -> Seq<char> {
    if has_token(s) {
        s.skip(token_end(s))
    } else {
        Seq::empty()
    }
}

/// All tokens of `s`, in the order in which they stand in it.
pub open spec fn lex(s: Seq<char>) -> Seq<Seq<char>>
    decreases s.len(),
    via lex_decreases
{
    if has_token(s) {
        seq![s.subrange(token_start(s), token_end(s))] + lex(s.skip(token_end(s)))
    } else {
        Seq::empty()
    }
}

#[via_fn]
proof fn lex_decreases(s: Seq<char>) {
    if has_token(s) {
        lemma_token_bounds(s);
    }
}

/// The number of white-space characters that are passed over while all tokens of `s`
/// are taken: those before each token, and those behind the last one.
pub open spec fn skipped_space(s: Seq<char>) -> nat
    decreases s.len(),
    via skipped_space_decreases
{
    if has_token(s) {
        leading_space(s) + skipped_space(s.skip(token_end(s)))
    } else {
        leading_space(s)
    }
}

#[via_fn]
proof fn skipped_space_decreases(s: Seq<char>) {
    if has_token(s) {
        lemma_token_bounds(s);
    }
}

/// The sum of the lengths of the sequences in `ts`.
pub open spec fn total_len(ts: Seq<Seq<char>>) -> nat
    decreases ts.len(),
{
    if ts.len() == 0 {
        0
    } else {
        ts[0].len() + total_len(ts.skip(1))
    }
}

/// `run_len` is the one maximal run: it stays inside `s`, every character before it
/// satisfies `p`, and the character at it, if there is one, does not.
pub proof fn lemma_run_len_maximal(s: Seq<char>, p: spec_fn(char) -> bool)
    ensures
        is_maximal_run(s, p, run_len(s, p) as int),
    decreases s.len(),
{
    if s.len() > 0 && p(s[0]) {
        let rest = s.skip(1);
        lemma_run_len_maximal(rest, p);
        let n = run_len(s, p) as int;
        assert forall|i: int| 0 <= i < n implies p(#[trigger] s[i]) by {
            if i > 0 {
                assert(s[i] == rest[i - 1]);
            }
        }
        if n < s.len() {
            assert(s[n] == rest[n - 1]);
        }
    }
}

/// A maximal run has the length `run_len`: there is only one.
pub proof fn lemma_maximal_run_is_run_len(s: Seq<char>, p: spec_fn(char) -> bool, n: int)
    requires
        is_maximal_run(s, p, n),
    ensures
        n == run_len(s, p),
    decreases s.len(),
{
    if s.len() > 0 && p(s[0]) {
        let rest = s.skip(1);
        assert(n > 0);
        assert forall|i: int| 0 <= i < n - 1 implies p(#[trigger] rest[i]) by {
            assert(rest[i] == s[i + 1]);
        }
        if n - 1 < rest.len() {
            assert(rest[n - 1] == s[n]);
        }
        lemma_maximal_run_is_run_len(rest, p, n - 1);
    } else {
        if n > 0 {
            assert(p(s[0]));
        }
    }
}

/// The first token of a sequence that has one is not empty and ends inside the
/// sequence.
pub proof fn lemma_token_bounds(s: Seq<char>)
    requires
        has_token(s),
    ensures
        0 <= token_start(s) < token_end(s) <= s.len(),
{
    let start = token_start(s);
    lemma_run_len_maximal(s, is_space());
    let t = s.skip(start);
    lemma_run_len_maximal(t, is_digit());
    lemma_run_len_maximal(t, is_word_part());
}

/// No token is empty.
pub proof fn lemma_tokens_nonempty(s: Seq<char>)
    ensures
        forall|i: int| 0 <= i < lex(s).len() ==> (#[trigger] lex(s)[i]).len() > 0,
    decreases s.len(),
{
    if has_token(s) {
        lemma_token_bounds(s);
        let rest = s.skip(token_end(s));
        lemma_tokens_nonempty(rest);
        assert forall|i: int| 0 <= i < lex(s).len() implies (#[trigger] lex(s)[i]).len() > 0 by {
            if i > 0 {
                assert(lex(s)[i] == lex(rest)[i - 1]);
            }
        }
    }
}

/// The tokens and the white space that is passed over account for every character:
/// the lengths of all tokens and the number of skipped white-space characters add up
/// to the length of the input.
pub proof fn lemma_tokens_cover_input(s: Seq<char>)
    ensures
        total_len(lex(s)) + skipped_space(s) == s.len(),
    decreases s.len(),
{
    lemma_run_len_maximal(s, is_space());
    if has_token(s) {
        lemma_token_bounds(s);
        let rest = s.skip(token_end(s));
        lemma_tokens_cover_input(rest);
        assert(lex(s).skip(1) =~= lex(rest));
    } else {
        assert(lex(s) =~= Seq::<Seq<char>>::empty());
    }
}

/// Whether `t` has the shape of a token: it does not start with white space, and it
/// is a run of digits, or a letter that is no digit with letters and digits behind
/// it, or a single character that is neither digit nor letter. No ASCII white space
/// stands in it.
pub open spec fn token_shape(t: Seq<char>) -> bool {
    &&& t.len() > 0
    &&& !white_space(t[0])
    &&& if numeric(t[0]) {
        forall|k: int| 0 <= k < t.len() ==> numeric(#[trigger] t[k])
    } else if alphabetic(t[0]) {
        forall|k: int| 0 <= k < t.len() ==> alphanumeric(#[trigger] t[k])
    } else {
        t.len() == 1
    }
    &&& forall|k: int| 0 <= k < t.len() ==> !(ascii(#[trigger] t[k]) && white_space(t[k]))
}

/// Where the tokens of `s` stand: for each token, in order, the place of its first
/// character and the place behind its last, both counted from `base`, the place of
/// the first character of `s`.
pub open spec fn spans_from(s: Seq<char>, base: int) -> Seq<(int, int)>
    decreases s.len(),
    via spans_from_decreases
{
    if has_token(s) {
        seq![(base + token_start(s), base + token_end(s))] + spans_from(
            s.skip(token_end(s)),
            base + token_end(s),
        )
    } else {
        Seq::empty()
    }
}

#[via_fn]
proof fn spans_from_decreases(s: Seq<char>, base: int) {
    if has_token(s) {
        lemma_token_bounds(s);
    }
}

/// Where the tokens of `s` stand in it: for each token, in order, the place of its
/// first character and the place behind its last.
pub open spec fn token_spans(s: Seq<char>) -> Seq<(int, int)> {
    spans_from(s, 0)
}

/// Whether the place `p` lies in one of the spans.
pub open spec fn in_some_span(spans: Seq<(int, int)>, p: int) -> bool {
    exists|i: int| 0 <= i < spans.len() && (#[trigger] spans[i]).0 <= p < spans[i].1
}

/// Whether the run that starts at `a` in `s` ends at `b` because it cannot go on:
/// the input ends there, or the character there does not continue a run of digits,
/// where the run starts with a digit, or a run of letters and digits, where it
/// starts with a letter.
pub open spec fn run_ends(s: Seq<char>, a: int, b: int) -> bool {
    if numeric(s[a]) {
        b == s.len() || !numeric(s[b])
    } else if alphabetic(s[a]) {
        b == s.len() || !alphanumeric(s[b])
    } else {
        true
    }
}

/// Every token has the shape of a token.
pub proof fn lemma_token_shapes(s: Seq<char>)
    ensures
        forall|i: int| 0 <= i < lex(s).len() ==> token_shape(#[trigger] lex(s)[i]),
    decreases s.len(),
{
    if has_token(s) {
        lemma_token_bounds(s);
        lemma_run_len_maximal(s, is_space());
        let t = s.skip(token_start(s));
        lemma_run_len_maximal(t, is_digit());
        lemma_run_len_maximal(t, is_word_part());
        let first = s.subrange(token_start(s), token_end(s));
        assert(first =~= t.take(token_len(t) as int));
        assert(first[0] == t[0]);
        assert forall|k: int| 0 <= k < first.len() implies first[k] == t[k] by {}
        if numeric(t[0]) {
            assert forall|k: int| 0 <= k < first.len() implies numeric(#[trigger] first[k]) by {
                assert(is_digit()(t[k]));
            }
        } else if alphabetic(t[0]) {
            assert forall|k: int| 0 <= k < first.len() implies alphanumeric(
                #[trigger] first[k],
            ) by {
                assert(is_word_part()(t[k]));
            }
        }
        assert(token_shape(first));
        let rest = s.skip(token_end(s));
        lemma_token_shapes(rest);
        assert forall|i: int| 0 <= i < lex(s).len() implies token_shape(#[trigger] lex(s)[i]) by {
            if i > 0 {
                assert(lex(s)[i] == lex(rest)[i - 1]);
            }
        }
    }
}

/// The tokens are slices of the input that follow each other without overlap, each
/// as long as its run can be, and every character outside them is white space.
pub proof fn lemma_tokens_partition_input(s: Seq<char>)
    ensures
        token_spans(s).len() == lex(s).len(),
        forall|i: int|
            0 <= i < lex(s).len() ==> 0 <= (#[trigger] token_spans(s)[i]).0 < token_spans(s)[i].1
                <= s.len() && lex(s)[i] == s.subrange(token_spans(s)[i].0, token_spans(s)[i].1)
                && run_ends(s, token_spans(s)[i].0, token_spans(s)[i].1),
        forall|i: int, j: int|
            0 <= i < j < lex(s).len() ==> (#[trigger] token_spans(s)[i]).1 <= (
            #[trigger] token_spans(s)[j]).0,
        forall|p: int|
            0 <= p < s.len() && !in_some_span(token_spans(s), p) ==> white_space(#[trigger] s[p]),
{
    lemma_spans(s, 0);
    let spans = token_spans(s);
    assert forall|i: int| 0 <= i < lex(s).len() implies lex(s)[i] == s.subrange(
        (#[trigger] spans[i]).0,
        spans[i].1,
    ) && run_ends(s, spans[i].0, spans[i].1) by {
        assert(s.skip(0) =~= s);
    }
    assert forall|p: int| 0 <= p < s.len() && !in_some_span(spans, p) implies white_space(
        #[trigger] s[p],
    ) by {
        assert(s.skip(0) =~= s);
        assert(white_space(s[p]) || in_some_span(spans, 0 + p));
    }
}

/// What `lemma_tokens_partition_input` says, for the tokens of a suffix that starts
/// at `base` in the whole input.
proof fn lemma_spans(s: Seq<char>, base: int)
    ensures
        spans_from(s, base).len() == lex(s).len(),
        forall|i: int|
            0 <= i < lex(s).len() ==> base <= (#[trigger] spans_from(s, base)[i]).0 < spans_from(
                s,
                base,
            )[i].1 <= base + s.len() && lex(s)[i] == s.subrange(
                spans_from(s, base)[i].0 - base,
                spans_from(s, base)[i].1 - base,
            ) && run_ends(s, spans_from(s, base)[i].0 - base, spans_from(s, base)[i].1 - base),
        forall|i: int, j: int|
            0 <= i < j < lex(s).len() ==> (#[trigger] spans_from(s, base)[i]).1 <= (
            #[trigger] spans_from(s, base)[j]).0,
        forall|p: int|
            0 <= p < s.len() ==> white_space(#[trigger] s[p]) || in_some_span(
                spans_from(s, base),
                base + p,
            ),
    decreases s.len(),
{
    lemma_run_len_maximal(s, is_space());
    let spans = spans_from(s, base);
    if has_token(s) {
        lemma_token_bounds(s);
        let a = token_start(s);
        let b = token_end(s);
        let t = s.skip(a);
        lemma_run_len_maximal(t, is_digit());
        lemma_run_len_maximal(t, is_word_part());
        let rest = s.skip(b);
        let tail = spans_from(rest, base + b);
        lemma_spans(rest, base + b);
        assert(spans[0] == (base + a, base + b));
        assert forall|i: int| 1 <= i < spans.len() implies #[trigger] spans[i] == tail[i - 1] by {}
        assert forall|i: int| 1 <= i < lex(s).len() implies #[trigger] lex(s)[i] == lex(rest)[i
            - 1] by {}
        assert(run_ends(s, a, b)) by {
            assert(t[0] == s[a]);
            if b < s.len() {
                assert(t[b - a] == s[b]);
            }
        }
        assert forall|i: int| 0 <= i < lex(s).len() implies base <= (#[trigger] spans[i]).0
            < spans[i].1 <= base + s.len() && lex(s)[i] == s.subrange(
            spans[i].0 - base,
            spans[i].1 - base,
        ) && run_ends(s, spans[i].0 - base, spans[i].1 - base) by {
            if i > 0 {
                let x = tail[i - 1].0 - (base + b);
                let y = tail[i - 1].1 - (base + b);
                assert(spans[i] == tail[i - 1]);
                assert(lex(s)[i] == lex(rest)[i - 1]);
                assert(rest.subrange(x, y) =~= s.subrange(x + b, y + b));
                assert(rest[x] == s[x + b]);
                if y < rest.len() {
                    assert(rest[y] == s[y + b]);
                }
            }
        }
        assert forall|i: int, j: int| 0 <= i < j < lex(s).len() implies (#[trigger] spans[i]).1 <= (
        #[trigger] spans[j]).0 by {
            assert(spans[j] == tail[j - 1]);
            if i > 0 {
                assert(spans[i] == tail[i - 1]);
            }
        }
        assert forall|p: int| 0 <= p < s.len() implies white_space(#[trigger] s[p])
            || in_some_span(spans, base + p) by {
            if p < a {
                assert(is_space()(s[p]));
            } else if p < b {
                assert(spans[0].0 <= base + p < spans[0].1);
            } else {
                assert(rest[p - b] == s[p]);
                if !white_space(s[p]) {
                    assert(in_some_span(tail, base + b + (p - b)));
                    let i = choose|i: int|
                        0 <= i < tail.len() && (#[trigger] tail[i]).0 <= base + p < tail[i].1;
                    assert(spans[i + 1] == tail[i]);
                }
            }
        }
    } else {
        assert forall|p: int| 0 <= p < s.len() implies white_space(#[trigger] s[p]) by {
            assert(is_space()(s[p]));
        }
    }
}

/// A cursor over a buffer of characters. It holds what has not been scanned yet and
/// gives out the tokens of the buffer one by one; a second scan takes a new cursor.
#[derive(Debug)]
pub struct Lexer<'a> {
    content: &'a [char],
}

impl<'a> View for Lexer<'a> {
    type V = Seq<char>;

    /// The characters that have not been scanned yet.
    closed spec fn view(&self) -> Seq<char> {
        self.content@
    }
}

impl<'a> Lexer<'a> {
    /// A cursor at the start of `content`.
    pub fn new(content: &'a [char]) -> (lexer: Self)
        ensures
            lexer@ == content@,
    {
        Lexer { content }
    }

    /// Passes over the white space that the remaining input starts with.
    pub fn trim_left(&mut self)
        ensures
            final(self)@ == old(self)@.skip(leading_space(old(self)@) as int),
    {
        let content = self.content;
        let mut n: usize = 0;
        while n < content.len() && content[n].is_whitespace()
            invariant
                n <= content@.len(),
                forall|i: int| 0 <= i < n ==> white_space(#[trigger] content@[i]),
            decreases content@.len() - n,
        {
            n += 1;
        }
        proof {
            let p = is_space();
            assert forall|i: int| 0 <= i < n implies p(#[trigger] content@[i]) by {
                assert(white_space(content@[i]));
            }
            lemma_maximal_run_is_run_len(content@, p, n as int);
        }
        self.content = slice_subrange(content, n, content.len());
    }

    /// Takes the first `n` characters of the remaining input as one slice.
    pub fn chop(&mut self, n: usize) -> (token: &'a [char])
        requires
            n <= old(self)@.len(),
        ensures
            token@ == old(self)@.take(n as int),
            final(self)@ == old(self)@.skip(n as int),
    {
        let content = self.content;
        let token = slice_subrange(content, 0, n);
        self.content = slice_subrange(content, n, content.len());
        token
    }

    /// Takes the longest prefix of the remaining input on whose characters
    /// `predicate` answers `true`: every character taken was accepted, and the first
    /// one left, if any is left, was refused.
    pub fn chop_while<P>(&mut self, predicate: P) -> (token: &'a [char]) where
        P: Fn(&char) -> bool,

        requires
            forall|i: int|
                0 <= i < old(self)@.len() ==> call_requires(
                    predicate,
                    (&#[trigger] old(self)@[i],),
                ),
        ensures
            token@.len() <= old(self)@.len(),
            token@ == old(self)@.take(token@.len() as int),
            final(self)@ == old(self)@.skip(token@.len() as int),
            forall|i: int|
                0 <= i < token@.len() ==> call_ensures(
                    predicate,
                    (&#[trigger] old(self)@[i],),
                    true,
                ),
            token@.len() < old(self)@.len() ==> call_ensures(
                predicate,
                (&old(self)@[token@.len() as int],),
                false,
            ),
    {
        let content = self.content;
        let mut n: usize = 0;
        while n < content.len()
            invariant_except_break
                n <= content@.len(),
            invariant
                content@ == old(self)@,
                self.content@ == content@,
                forall|i: int|
                    0 <= i < content@.len() ==> call_requires(
                        predicate,
                        (&#[trigger] content@[i],),
                    ),
                forall|i: int|
                    0 <= i < n ==> call_ensures(predicate, (&#[trigger] content@[i],), true),
            ensures
                n <= content@.len(),
                n < content@.len() ==> call_ensures(predicate, (&content@[n as int],), false),
            decreases content@.len() - n,
        {
            if !predicate(&content[n]) {
                break ;
            }
            n += 1;
        }
        self.chop(n)
    }

    /// The next token, or `None` once nothing but white space is left. White space
    /// before the token is passed over. A digit starts a run of digits; a letter
    /// starts a run of letters and digits; any other character is a token by itself.
    pub fn next_token(&mut self) -> (token: Option<&'a [char]>)
        ensures
            match token {
                Some(t) => first_token(old(self)@) == Some(t@),
                None => first_token(old(self)@) is None,
            },
            final(self)@ == after_first_token(old(self)@),
            token matches Some(t) ==> t@.len() > 0,
            token matches Some(t) ==> leading_space(old(self)@) + t@.len() + final(self)@.len()
                == old(self)@.len(),
            token is None ==> leading_space(old(self)@) == old(self)@.len(),
    {
        let ghost s = self@;
        proof {
            lemma_run_len_maximal(s, is_space());
        }
        self.trim_left();
        let ghost t = self@;
        if self.content.len() == 0 {
            return None;
        }
        proof {
            lemma_token_bounds(s);
        }
        if self.content[0].is_numeric() {
            let token = self.chop_while(continues_number);
            proof {
                lemma_maximal_run_is_run_len(t, is_digit(), token@.len() as int);
                assert(token@ =~= s.subrange(token_start(s), token_end(s)));
                assert(self@ =~= s.skip(token_end(s)));
            }
            return Some(token);
        }
        if self.content[0].is_alphabetic() {
            let token = self.chop_while(continues_word);
            proof {
                lemma_maximal_run_is_run_len(t, is_word_part(), token@.len() as int);
                assert(token@ =~= s.subrange(token_start(s), token_end(s)));
                assert(self@ =~= s.skip(token_end(s)));
            }
            return Some(token);
        }
        let token = self.chop(1);
        proof {
            assert(token@ =~= s.subrange(token_start(s), token_end(s)));
            assert(self@ =~= s.skip(token_end(s)));
        }
        Some(token)
    }

    /// The next token, as `next_token` gives it.
    pub fn next(&mut self) -> (token: Option<&'a [char]>)
        ensures
            match token {
                Some(t) => first_token(old(self)@) == Some(t@),
                None => first_token(old(self)@) is None,
            },
            final(self)@ == after_first_token(old(self)@),
            token matches Some(t) ==> t@.len() > 0,
    {
        self.next_token()
    }
}

/// The tokens of a text are its first token and the tokens of what follows it.
pub proof fn lemma_lex_step(s: Seq<char>)
    ensures
        has_token(s) ==> lex(s) == seq![s.subrange(token_start(s), token_end(s))]
            + lex(s.skip(token_end(s))),
        !has_token(s) ==> lex(s) == Seq::<Seq<char>>::empty(),
{
    if has_token(s) {
        lemma_token_bounds(s);
    }
}

/// All tokens of `content`, each a slice of it, in their order.
pub fn tokenize<'a>(content: &'a [char]) -> (tokens: Vec<&'a [char]>)
    ensures
        tokens@.len() == lex(content@).len(),
        forall|i: int| 0 <= i < tokens@.len() ==> (#[trigger] tokens@[i])@ == lex(content@)[i],
{
    let mut lexer = Lexer::new(content);
    let mut tokens: Vec<&'a [char]> = Vec::new();
    let ghost mut done: Seq<Seq<char>> = Seq::empty();
    loop
        invariant
            lex(content@) == done + lex(lexer@),
            tokens@.len() == done.len(),
            forall|i: int| 0 <= i < tokens@.len() ==> (#[trigger] tokens@[i])@ == done[i],
        ensures
            lex(lexer@).len() == 0,
        decreases lexer@.len(),
    {
        let ghost rest = lexer@;
        proof {
            lemma_lex_step(rest);
            lemma_lex_step(Seq::<char>::empty());
        }
        match lexer.next_token() {
            None => {
                break ;
            },
            Some(token) => {
                proof {
                    assert(done + lex(rest) =~= done.push(token@) + lex(lexer@));
                    done = done.push(token@);
                }
                tokens.push(token);
            },
        }
    }
    assert(done =~= lex(content@));
    tokens
}

/// The characters of a text.
pub fn text_chars(text: &str) -> (chars: Vec<char>)
    ensures
        chars@ == text@,
{
    let mut chars: Vec<char> = Vec::new();
    for c in it: text.chars()
        invariant
            chars@ == it.seq().take(it.index() as int),
            it.seq() == text@,
    {
        chars.push(c);
        assert(chars@ =~= it.seq().take(it.index() + 1));
    }
    assert(chars@ =~= text@);
    chars
}

/// Whether `c` may stand in a numeric token.
fn continues_number(c: &char) -> (b: bool)
    ensures
        b == numeric(*c),
{
    c.is_numeric()
}

/// Whether `c` may stand in a word token behind its first letter.
fn continues_word(c: &char) -> (b: bool)
    ensures
        b == alphanumeric(*c),
{
    c.is_alphanumeric()
}

} // verus!
