use term_index::builder::{build_index, Document, FailurePolicy};
use term_index::index::GlobalIndex;
use term_index::persist::{decode, encode, index_from_plain, to_plain, PersistError};
use term_index::table::TermFreq;

fn sorted(table: &TermFreq) -> Vec<(String, usize)> {
    let mut entries = table.entries().clone();
    entries.sort();
    entries
}

fn listing(index: &GlobalIndex) -> Vec<(String, Vec<(String, usize)>)> {
    let mut all: Vec<(String, Vec<(String, usize)>)> =
        index.entries().iter().map(|e| (e.0.clone(), sorted(&e.1))).collect();
    all.sort();
    all
}

fn pair(term: &str, count: usize) -> (String, usize) {
    (term.to_string(), count)
}

fn sample() -> GlobalIndex {
    let documents = vec![
        Document { key: "docs/a.xhtml".to_string(), extracted: Ok("A cat sat on the MAT. A CAT.".to_string()) },
        Document { key: "docs/empty.xhtml".to_string(), extracted: Ok("".to_string()) },
        Document { key: "docs/\"q\"\\\n\u{e9}.xhtml".to_string(), extracted: Ok("\" \\ \u{e9}t\u{e9} go go".to_string()) },
    ];
    build_index(documents, FailurePolicy::Skip).index
}

#[test]
fn decode_after_encode_gives_the_index_back() {
    let index = sample();
    let text = encode(&index).unwrap();
    let back = decode(&text).unwrap();
    assert_eq!(listing(&back), listing(&index));
    assert_eq!(back.len(), 3);
    assert!(back.get(&"docs/empty.xhtml".to_string()).unwrap().is_empty());
}

#[test]
fn empty_index_round_trips() {
    let text = encode(&GlobalIndex::new()).unwrap();
    assert_eq!(text, "{}");
    assert!(decode(&text).unwrap().is_empty());
}

#[test]
fn encode_writes_an_object_of_objects() {
    let mut index = GlobalIndex::new();
    index.insert("d".to_string(), TermFreq::from_entries(&vec![pair("GO", 3)]).unwrap());
    assert_eq!(encode(&index).unwrap(), "{\"d\":{\"GO\":3}}");
    let mut index = GlobalIndex::new();
    index.insert("e".to_string(), TermFreq::new());
    assert_eq!(encode(&index).unwrap(), "{\"e\":{}}");
}

#[test]
fn decode_reads_an_object_of_objects() {
    let index = decode(" { \"x\" : { \"A\" : 2 , \"B\" : 1 } , \"y\" : { } } ").unwrap();
    assert_eq!(
        listing(&index),
        vec![("x".to_string(), vec![pair("A", 2), pair("B", 1)]), ("y".to_string(), vec![])]
    );
}

#[test]
fn decode_unescapes_keys() {
    let index = decode("{\"a\\\"b\\u00e9\":{\"\\\\\":1}}").unwrap();
    assert_eq!(listing(&index), vec![("a\"b\u{e9}".to_string(), vec![pair("\\", 1)])]);
}

#[test]
fn decode_lets_the_last_of_a_repeated_key_count() {
    let index = decode("{\"x\":{\"A\":2},\"x\":{\"B\":1,\"B\":4}}").unwrap();
    assert_eq!(listing(&index), vec![("x".to_string(), vec![pair("B", 4)])]);
}

#[test]
fn decode_refuses_text_that_is_no_index() {
    for text in ["", "{", "[]", "{\"x\":3}", "{\"x\":{\"A\":-1}}", "{\"x\":{\"A\":1.5}}", "{\"x\":{\"A\":\"1\"}}",
        "{\"x\":{\"A\":18446744073709551616}}", "{\"x\":{}} trailing", "null"]
    {
        match decode(text) {
            Err(PersistError::Parse(message)) => assert!(!message.is_empty()),
            other => panic!("{:?} for {}", other.map(|i| i.len()), text),
        }
    }
}

#[test]
fn decode_refuses_a_zero_count() {
    match decode("{\"x\":{\"A\":1},\"y\":{\"B\":2,\"C\":0}}") {
        Err(PersistError::BadCount { document, term, count }) => {
            assert_eq!(document, "y");
            assert_eq!(term, "C");
            assert_eq!(count, 0);
        }
        other => panic!("{:?}", other.map(|i| i.len())),
    }
}

#[test]
fn decode_takes_the_largest_count() {
    let index = decode("{\"x\":{\"A\":18446744073709551615}}");
    if usize::MAX as u64 == u64::MAX {
        assert_eq!(listing(&index.unwrap()), vec![("x".to_string(), vec![pair("A", usize::MAX)])]);
    } else {
        assert!(matches!(index, Err(PersistError::BadCount { .. })));
    }
}

#[test]
fn to_plain_lists_every_entry_once() {
    let index = sample();
    let mut plain = to_plain(&index);
    plain.sort();
    for document in plain.iter_mut() {
        document.1.sort();
    }
    let expected: Vec<(String, Vec<(String, u64)>)> = listing(&index)
        .into_iter()
        .map(|(k, t)| (k, t.into_iter().map(|(w, n)| (w, n as u64)).collect()))
        .collect();
    assert_eq!(plain, expected);
}

#[test]
fn index_from_plain_builds_the_index() {
    let plain = vec![
        ("a".to_string(), vec![("X".to_string(), 2u64), ("Y".to_string(), 1u64)]),
        ("b".to_string(), vec![]),
    ];
    let index = index_from_plain(&plain).unwrap();
    assert_eq!(
        listing(&index),
        vec![("a".to_string(), vec![pair("X", 2), pair("Y", 1)]), ("b".to_string(), vec![])]
    );
}

#[test]
fn index_from_plain_names_the_bad_count() {
    let plain = vec![
        ("a".to_string(), vec![("X".to_string(), 2u64)]),
        ("b".to_string(), vec![("Y".to_string(), 1u64), ("Z".to_string(), 0u64)]),
    ];
    match index_from_plain(&plain) {
        Err(PersistError::BadCount { document, term, count }) => {
            assert_eq!((document.as_str(), term.as_str(), count), ("b", "Z", 0));
        }
        other => panic!("{:?}", other.map(|i| i.len())),
    }
}

#[test]
fn keys_with_unusual_characters_round_trip() {
    let mut index = GlobalIndex::new();
    let terms = vec![
        pair("\u{0}", 1),
        pair("\u{1f}\t\r\n", 2),
        pair("\u{7f}", 3),
        pair("\u{2028}\u{2029}", 4),
        pair("\u{1F600}", 5),
        pair("", 6),
        pair("/\\\"'", usize::MAX),
    ];
    index.insert("\u{feff}dir/\u{e9}\u{0}.xhtml".to_string(), TermFreq::from_entries(&terms).unwrap());
    index.insert("".to_string(), TermFreq::new());
    let text = encode(&index).unwrap();
    let back = decode(&text).unwrap();
    assert_eq!(listing(&back), listing(&index));
}
