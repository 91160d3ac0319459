use term_index::frequency::term_frequencies;
use term_index::normalize::normalize;
use term_index::table::TermFreq;

fn chars(text: &str) -> Vec<char> {
    text.chars().collect()
}

fn table_of(text: &str) -> TermFreq {
    term_frequencies(&chars(text))
}

fn sorted(table: &TermFreq) -> Vec<(String, usize)> {
    let mut entries = table.entries().clone();
    entries.sort();
    entries
}

fn pair(term: &str, count: usize) -> (String, usize) {
    (term.to_string(), count)
}

#[test]
fn normalize_upper_cases_ascii_letters() {
    assert_eq!(normalize(&chars("cat")), "CAT");
    assert_eq!(normalize(&chars("MAT")), "MAT");
    assert_eq!(normalize(&chars("glClear2D")), "GLCLEAR2D");
    assert_eq!(normalize(&chars("az")), "AZ");
}

#[test]
fn normalize_leaves_other_characters() {
    assert_eq!(normalize(&chars(".")), ".");
    assert_eq!(normalize(&chars("42")), "42");
    assert_eq!(normalize(&chars("`{")), "`{");
    assert_eq!(normalize(&chars("@[")), "@[");
    assert_eq!(normalize(&chars("")), "");
}

#[test]
fn normalize_passes_letters_outside_ascii_through() {
    assert_eq!(normalize(&chars("caf\u{e9}")), "CAF\u{e9}");
    assert_eq!(normalize(&chars("\u{3b1}\u{df}")), "\u{3b1}\u{df}");
}

#[test]
fn normalize_twice_is_normalize_once() {
    for token in ["cat", "CAT", "MiXeD9", ".", "\u{e9}t\u{e9}", "", "zZ"] {
        let once = normalize(&chars(token));
        let twice = normalize(&chars(&once));
        assert_eq!(twice, once);
    }
}

#[test]
fn sentence_gives_its_table() {
    let table = table_of("A cat sat on the MAT. A CAT.");
    assert_eq!(
        sorted(&table),
        vec![
            pair(".", 2),
            pair("A", 2),
            pair("CAT", 2),
            pair("MAT", 1),
            pair("ON", 1),
            pair("SAT", 1),
            pair("THE", 1),
        ]
    );
    assert_eq!(table.len(), 7);
}

#[test]
fn text_without_tokens_gives_the_empty_table() {
    for text in ["", "   ", "\n\t"] {
        let table = table_of(text);
        assert!(table.is_empty());
        assert_eq!(table.len(), 0);
        assert_eq!(table.entries().len(), 0);
    }
}

#[test]
fn counts_add_up_to_the_number_of_tokens() {
    let table = table_of("A cat sat on the MAT. A CAT.");
    let total: usize = table.entries().iter().map(|e| e.1).sum();
    assert_eq!(total, 10);
    let table = table_of("go go go");
    let total: usize = table.entries().iter().map(|e| e.1).sum();
    assert_eq!(total, 3);
    let table = table_of("3.14 3.14");
    let total: usize = table.entries().iter().map(|e| e.1).sum();
    assert_eq!(total, 6);
}

#[test]
fn terms_that_differ_in_case_only_are_one_term() {
    let table = table_of("go Go gO GO");
    assert_eq!(sorted(&table), vec![pair("GO", 4)]);
}

#[test]
fn every_count_is_at_least_one() {
    let table = table_of("x y x z 1 1 1 . . x");
    for entry in table.entries() {
        assert!(entry.1 >= 1);
    }
    assert_eq!(table.count(&"X".to_string()), 3);
    assert_eq!(table.count(&"1".to_string()), 3);
    assert_eq!(table.count(&".".to_string()), 2);
    assert_eq!(table.count(&"Y".to_string()), 1);
}

#[test]
fn absent_term_counts_zero() {
    let table = table_of("alpha beta");
    assert_eq!(table.count(&"GAMMA".to_string()), 0);
    assert_eq!(table.count(&"alpha".to_string()), 0);
    assert!(!table.contains(&"alpha".to_string()));
    assert!(table.contains(&"ALPHA".to_string()));
}

#[test]
fn add_inserts_at_one_and_increments() {
    let mut table = TermFreq::new();
    assert!(table.is_empty());
    table.add("A".to_string());
    assert_eq!(table.count(&"A".to_string()), 1);
    table.add("B".to_string());
    table.add("A".to_string());
    table.add("A".to_string());
    assert_eq!(table.count(&"A".to_string()), 3);
    assert_eq!(table.count(&"B".to_string()), 1);
    assert_eq!(table.len(), 2);
    assert!(!table.is_empty());
}

#[test]
fn table_keeps_each_term_once() {
    let table = table_of("a b a b a b c");
    let mut terms: Vec<String> = table.entries().iter().map(|e| e.0.clone()).collect();
    terms.sort();
    assert_eq!(terms, vec!["A", "B", "C"]);
}

#[test]
fn from_entries_takes_positive_counts() {
    let table = TermFreq::from_entries(&vec![pair("A", 2), pair("B", 5)]).unwrap();
    assert_eq!(sorted(&table), vec![pair("A", 2), pair("B", 5)]);
    let empty = TermFreq::from_entries(&Vec::new()).unwrap();
    assert!(empty.is_empty());
}

#[test]
fn from_entries_refuses_a_zero_count() {
    assert!(TermFreq::from_entries(&vec![pair("A", 2), pair("B", 0)]).is_none());
    assert!(TermFreq::from_entries(&vec![pair("A", 0)]).is_none());
}

#[test]
fn from_entries_lets_the_last_entry_of_a_term_count() {
    let table = TermFreq::from_entries(&vec![pair("A", 2), pair("B", 1), pair("A", 7)]).unwrap();
    assert_eq!(sorted(&table), vec![pair("A", 7), pair("B", 1)]);
}

#[test]
fn terms_with_one_hash_are_kept_apart() {
    let mut table = TermFreq::new();
    for term in ["Aa", "BB", "Aa", "AaAa", "BBBB", "AaBB", "BBAa", "BB", "Aa"] {
        table.add(term.to_string());
    }
    assert_eq!(
        sorted(&table),
        vec![pair("Aa", 3), pair("AaAa", 1), pair("AaBB", 1), pair("BB", 2), pair("BBAa", 1), pair("BBBB", 1)]
    );
    assert_eq!(table.count(&"BBAa".to_string()), 1);
    assert_eq!(table.count(&"AaAA".to_string()), 0);
    assert_eq!(table.len(), 6);
}

#[test]
fn many_terms_are_counted() {
    let mut text = String::new();
    for round in 0..3 {
        for number in 0..2000 {
            if number % 3 >= round {
                text.push_str(&format!("w{number} "));
            }
        }
    }
    let table = table_of(&text);
    assert_eq!(table.len(), 2000);
    for number in 0..2000 {
        assert_eq!(table.count(&format!("W{number}")), 1 + number % 3);
    }
    let total: usize = table.entries().iter().map(|e| e.1).sum();
    assert_eq!(total, 2000 + 1333 + 666);
}
