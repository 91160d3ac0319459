use term_index::lexer::{text_chars, tokenize, Lexer};

fn chars(text: &str) -> Vec<char> {
    text.chars().collect()
}

fn tokens_of(text: &str) -> Vec<String> {
    let content = chars(text);
    tokenize(&content).into_iter().map(|t| t.iter().collect::<String>()).collect()
}

#[test]
fn sentence_gives_words_and_punctuation() {
    assert_eq!(
        tokens_of("A cat sat on the MAT. A CAT."),
        vec!["A", "cat", "sat", "on", "the", "MAT", ".", "A", "CAT", "."]
    );
}

#[test]
fn decimal_number_gives_three_tokens() {
    assert_eq!(tokens_of("3.14"), vec!["3", ".", "14"]);
}

#[test]
fn word_may_hold_digits_behind_its_first_letter() {
    assert_eq!(tokens_of("gl4"), vec!["gl4"]);
    assert_eq!(tokens_of("glClear2D x"), vec!["glClear2D", "x"]);
}

#[test]
fn number_ends_where_a_letter_starts() {
    assert_eq!(tokens_of("4gl"), vec!["4", "gl"]);
    assert_eq!(tokens_of("2024abc7"), vec!["2024", "abc7"]);
}

#[test]
fn each_symbol_is_a_token_by_itself() {
    assert_eq!(tokens_of("a+=b;"), vec!["a", "+", "=", "b", ";"]);
    assert_eq!(tokens_of("<<>>"), vec!["<", "<", ">", ">"]);
    assert_eq!(tokens_of("_x"), vec!["_", "x"]);
}

#[test]
fn empty_input_has_no_token() {
    assert_eq!(tokens_of(""), Vec::<String>::new());
    let content: Vec<char> = Vec::new();
    let mut lexer = Lexer::new(&content);
    assert!(lexer.next_token().is_none());
    assert!(lexer.next_token().is_none());
}

#[test]
fn white_space_alone_has_no_token() {
    assert_eq!(tokens_of(" \t\r\n  "), Vec::<String>::new());
    assert_eq!(tokens_of("\u{a0}\u{2003}\u{3000}"), Vec::<String>::new());
}

#[test]
fn token_that_ends_the_buffer_is_taken_whole() {
    assert_eq!(tokens_of("abc"), vec!["abc"]);
    assert_eq!(tokens_of("  123"), vec!["123"]);
    assert_eq!(tokens_of("x9"), vec!["x9"]);
}

#[test]
fn all_kinds_of_white_space_separate_tokens() {
    assert_eq!(tokens_of("a\tb\nc\r\nd\u{2003}e"), vec!["a", "b", "c", "d", "e"]);
}

#[test]
fn letters_outside_ascii_are_letters() {
    assert_eq!(tokens_of("na\u{ef}ve caf\u{e9}"), vec!["na\u{ef}ve", "caf\u{e9}"]);
    assert_eq!(tokens_of("\u{3b1}\u{3b2}1 \u{661}\u{662}"), vec!["\u{3b1}\u{3b2}1", "\u{661}\u{662}"]);
}

#[test]
fn no_token_is_empty() {
    for text in ["", " ", "a", " a ", "3.14", "x  y\n\nz", "..", "a1 1a", "\u{e9}\u{e9} !"] {
        let content = chars(text);
        for token in tokenize(&content) {
            assert!(!token.is_empty());
        }
    }
}

#[test]
fn tokens_and_skipped_white_space_cover_the_input() {
    for text in ["", "   ", "A cat sat on the MAT. A CAT.", " 3.14\t", "a\n\nb  ", "x", "  ;;  "] {
        let content = chars(text);
        let token_chars: usize = tokenize(&content).iter().map(|t| t.len()).sum();
        let white: usize = content.iter().filter(|c| c.is_whitespace()).count();
        assert_eq!(token_chars + white, content.len());
    }
}

#[test]
fn tokens_are_slices_of_the_buffer_in_order() {
    let content = chars("ab  12 ;");
    let tokens = tokenize(&content);
    assert_eq!(tokens.len(), 3);
    assert!(std::ptr::eq(tokens[0].as_ptr(), content[0..].as_ptr()));
    assert!(std::ptr::eq(tokens[1].as_ptr(), content[4..].as_ptr()));
    assert!(std::ptr::eq(tokens[2].as_ptr(), content[7..].as_ptr()));
}

#[test]
fn trim_left_passes_leading_white_space_only() {
    let content = chars("  \t a b ");
    let mut lexer = Lexer::new(&content);
    lexer.trim_left();
    assert_eq!(lexer.chop(1), &['a'][..]);
    lexer.trim_left();
    lexer.trim_left();
    assert_eq!(lexer.chop(1), &['b'][..]);
    lexer.trim_left();
    assert!(lexer.next_token().is_none());
}

#[test]
fn chop_takes_the_given_number_of_characters() {
    let content = chars("hello world");
    let mut lexer = Lexer::new(&content);
    assert_eq!(lexer.chop(0), &[][..]);
    assert_eq!(lexer.chop(5), &['h', 'e', 'l', 'l', 'o'][..]);
    assert_eq!(lexer.chop(1), &[' '][..]);
    assert_eq!(lexer.chop(5), &['w', 'o', 'r', 'l', 'd'][..]);
    assert_eq!(lexer.chop(0), &[][..]);
}

#[test]
fn chop_while_takes_the_longest_accepted_prefix() {
    let content = chars("aaab");
    let mut lexer = Lexer::new(&content);
    assert_eq!(lexer.chop_while(|c| *c == 'a'), &['a', 'a', 'a'][..]);
    assert_eq!(lexer.chop_while(|c| *c == 'a'), &[][..]);
    assert_eq!(lexer.chop_while(|c| *c == 'b'), &['b'][..]);
    assert_eq!(lexer.chop_while(|_| true), &[][..]);
}

#[test]
fn chop_while_may_take_everything() {
    let content = chars("zzzz");
    let mut lexer = Lexer::new(&content);
    assert_eq!(lexer.chop_while(|_| true).len(), 4);
    assert!(lexer.next_token().is_none());
}

#[test]
fn next_gives_the_tokens_one_by_one() {
    let content = chars(" go 7 ! ");
    let mut lexer = Lexer::new(&content);
    assert_eq!(lexer.next(), Some(&['g', 'o'][..]));
    assert_eq!(lexer.next(), Some(&['7'][..]));
    assert_eq!(lexer.next_token(), Some(&['!'][..]));
    assert_eq!(lexer.next(), None);
    assert_eq!(lexer.next_token(), None);
}

#[test]
fn a_new_cursor_scans_again() {
    let content = chars("one two");
    let mut first = Lexer::new(&content);
    while first.next_token().is_some() {}
    let mut second = Lexer::new(&content);
    assert_eq!(second.next_token(), Some(&['o', 'n', 'e'][..]));
}

#[test]
fn text_chars_gives_every_character() {
    assert_eq!(text_chars(""), Vec::<char>::new());
    assert_eq!(text_chars("a\u{e9}\u{1F600}z"), vec!['a', '\u{e9}', '\u{1F600}', 'z']);
}

#[test]
fn numeric_letter_starts_a_number() {
    assert_eq!(tokens_of("\u{2167}a"), vec!["\u{2167}", "a"]);
    assert_eq!(tokens_of("\u{2167}\u{2168}7x"), vec!["\u{2167}\u{2168}7", "x"]);
}

#[test]
fn word_may_hold_numbers_that_are_not_ascii() {
    assert_eq!(tokens_of("x\u{b2} y"), vec!["x\u{b2}", "y"]);
    assert_eq!(tokens_of("\u{b2}x"), vec!["\u{b2}", "x"]);
}

#[test]
fn ascii_white_space_is_the_space_and_five_controls() {
    for code in 0u8..128 {
        let c = code as char;
        let white = c == ' ' || ('\u{9}'..='\u{d}').contains(&c);
        let content = vec![c];
        assert_eq!(tokenize(&content).is_empty(), white, "{:?}", c);
    }
}

#[test]
fn ascii_digits_and_letters_are_the_stated_ones() {
    for code in 0u8..128 {
        let c = code as char;
        if c == ' ' || ('\u{9}'..='\u{d}').contains(&c) {
            continue;
        }
        let digit = ('0'..='9').contains(&c);
        let letter = ('a'..='z').contains(&c) || ('A'..='Z').contains(&c);
        let before_letter = tokenize(&[c, 'x']).len();
        let before_digit = tokenize(&[c, '7']).len();
        let before_dot = tokenize(&[c, '.']).len();
        assert_eq!(before_letter, if letter { 1 } else { 2 }, "{:?}", c);
        assert_eq!(before_digit, if letter || digit { 1 } else { 2 }, "{:?}", c);
        assert_eq!(before_dot, 2, "{:?}", c);
    }
}

#[test]
fn no_token_of_ascii_text_holds_white_space() {
    let content = chars("a1 \t2b\n;\u{b}c\u{c}d\re  f");
    let tokens = tokenize(&content);
    assert_eq!(tokens.len(), 8);
    for token in tokens {
        assert!(token.iter().all(|c| !c.is_whitespace()));
    }
}

#[test]
fn tokens_follow_each_other_and_the_rest_is_white_space() {
    let content = chars("  A cat1 sat.\n 3.14\t");
    let start = content.as_ptr() as usize;
    let mut covered = vec![false; content.len()];
    let mut last_end = 0;
    for token in tokenize(&content) {
        let at = (token.as_ptr() as usize - start) / std::mem::size_of::<char>();
        assert!(at >= last_end);
        assert_eq!(&content[at..at + token.len()], token);
        for place in at..at + token.len() {
            covered[place] = true;
        }
        last_end = at + token.len();
    }
    for (place, c) in content.iter().enumerate() {
        assert_eq!(covered[place], !c.is_whitespace());
    }
}
