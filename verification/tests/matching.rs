//! Tests of the tokenizer, the matcher, the deduplicator and the ratio.

use common_words::{
    common_words, dedup_case_insensitive, extract_words, list_contains_ci, parse_ratio, Ratio,
};

fn b(s: &str) -> Vec<u8> {
    s.as_bytes().to_vec()
}

#[test]
fn tokens_shorter_than_five_bytes_are_dropped() {
    let words = extract_words(&b("abcd abcde"));
    assert_eq!(words, vec![b("abcde")]);
}

#[test]
fn tokens_keep_order_and_duplicates() {
    let words = extract_words(&b("alpha,beta_x;alpha"));
    assert_eq!(words, vec![b("alpha"), b("beta_x"), b("alpha")]);
}

#[test]
fn contains_is_case_insensitive() {
    let list = vec![b("Hello"), b("WORLD")];
    assert!(list_contains_ci(&list, &b("hello")));
    assert!(list_contains_ci(&list, &b("world")));
    assert!(!list_contains_ci(&list, &b("other")));
}

#[test]
fn ratio_truncates_the_threshold() {
    // floor(0.67 * 3) = 2: a word in two documents qualifies, one does not.
    let docs = vec![
        vec![b("alpha"), b("delta")],
        vec![b("ALPHA")],
        vec![b("gamma")],
    ];
    let kept = common_words(&docs, &Ratio::new(67, 100)).unwrap();
    assert_eq!(kept, vec![b("alpha")]);
}

#[test]
fn full_ratio_requires_every_document() {
    let docs = vec![vec![b("alpha"), b("gamma")], vec![b("alpha")]];
    let kept = common_words(&docs, &Ratio::new(1, 1)).unwrap();
    assert_eq!(kept, vec![b("alpha")]);
}

#[test]
fn reference_document_counts_itself() {
    // One document alone: every token meets a full ratio of 1/1.
    let docs = vec![vec![b("alpha"), b("gamma")]];
    let kept = common_words(&docs, &Ratio::new(1, 1)).unwrap();
    assert_eq!(kept, vec![b("alpha"), b("gamma")]);
}

#[test]
fn empty_document_list_is_the_fatal_error() {
    let docs: Vec<Vec<Vec<u8>>> = Vec::new();
    let r = common_words(&docs, &Ratio::default());
    assert!(r.is_err());
    assert_eq!(r.unwrap_err().message(), "no documents were extracted");
}

#[test]
fn dedup_keeps_first_casing_and_order() {
    let mut words = vec![b("Hello"), b("hello"), b("WORLD"), b("world"), b("Hello")];
    dedup_case_insensitive(&mut words);
    assert_eq!(words, vec![b("Hello"), b("WORLD")]);
}

#[test]
fn parse_ratio_reads_plain_decimals() {
    let r = parse_ratio(&b("0.67"));
    assert_eq!((r.num, r.den), (67, 100));
    let r2 = parse_ratio(&b("1.00"));
    assert_eq!((r2.num, r2.den), (100, 100));
    let r3 = parse_ratio(&b("2"));
    assert_eq!((r3.num, r3.den), (2, 1));
    let r4 = parse_ratio(&b(".5"));
    assert_eq!((r4.num, r4.den), (5, 10));
    let r5 = parse_ratio(&b("5."));
    assert_eq!((r5.num, r5.den), (5, 1));
}

#[test]
fn parse_ratio_falls_back_to_one_on_invalid_input() {
    for s in ["", "abc", "-1", "1.2.3", "0.6x", "1e3", "."] {
        let r = parse_ratio(&b(s));
        assert_eq!((r.num, r.den), (1, 1), "input {:?}", s);
    }
}

#[test]
fn parse_ratio_falls_back_to_one_on_overflow() {
    let r = parse_ratio(&b("99999999999999999999999"));
    assert_eq!((r.num, r.den), (1, 1));
    let r2 = parse_ratio(&b("0.000000000000000000001"));
    assert_eq!((r2.num, r2.den), (1, 1));
}

#[test]
fn default_ratio_is_one() {
    let r = Ratio::default();
    assert_eq!((r.num, r.den), (1, 1));
}
