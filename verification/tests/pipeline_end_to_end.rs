//! End-to-end tests of the pipeline and of the input-line handling.

use common_words::{build_blacklist, is_success_status, parse_ratio, split_lines, trim_bytes,
    Ratio};

fn b(s: &str) -> Vec<u8> {
    s.as_bytes().to_vec()
}

#[test]
fn two_documents_share_repeated() {
    let docs = vec![
        b("Repeated repeated text here"),
        b("Some repeated text content"),
    ];
    let out = build_blacklist(&docs, &Ratio::new(1, 1)).unwrap();
    // "text" and "here" fall to the length filter; "Repeated" keeps the
    // casing of its first occurrence and absorbs its lower-case duplicate.
    assert_eq!(out, vec![b("Repeated")]);
}

#[test]
fn case_insensitive_match_keeps_first_seen_casing() {
    let docs = vec![b("Hello world"), b("hello WORLD")];
    let out = build_blacklist(&docs, &Ratio::new(1, 1)).unwrap();
    assert_eq!(out, vec![b("Hello"), b("world")]);
}

#[test]
fn markup_is_cleaned_before_matching() {
    let docs = vec![
        b("<html><body><script>var ignored = 1;</script>shared words</body></html>"),
        b("<p>shared &amp; words</p>"),
    ];
    let out = build_blacklist(&docs, &Ratio::new(1, 1)).unwrap();
    assert_eq!(out, vec![b("shared"), b("words")]);
}

#[test]
fn zero_documents_fail_before_any_output() {
    let docs: Vec<Vec<u8>> = Vec::new();
    let r = build_blacklist(&docs, &Ratio::default());
    assert!(r.is_err());
}

#[test]
fn attrition_lowers_the_absolute_threshold() {
    // With one of three sources lost, a full ratio needs only the two left.
    let docs = vec![b("alpha betax"), b("ALPHA gamma")];
    let out = build_blacklist(&docs, &Ratio::new(1, 1)).unwrap();
    assert_eq!(out, vec![b("alpha")]);
}

#[test]
fn parsed_ratio_drives_the_threshold() {
    // floor(0.67 * 3) = 2 documents must share a word.
    let ratio = parse_ratio(&b("0.67"));
    let docs = vec![
        b("shared lonely"),
        b("SHARED elsewhere"),
        b("nothing common"),
    ];
    let out = build_blacklist(&docs, &ratio).unwrap();
    assert_eq!(out, vec![b("shared")]);
}

#[test]
fn lines_are_trimmed_and_empty_lines_dropped() {
    let lines = split_lines(&b("http://a\n\n  http://b  \n \nhttp://c"));
    assert_eq!(lines, vec![b("http://a"), b("http://b"), b("http://c")]);
}

#[test]
fn trim_strips_ascii_whitespace_both_sides() {
    assert_eq!(trim_bytes(&b("  x y\t\r\n")), b("x y"));
    assert_eq!(trim_bytes(&b("   ")), b(""));
    assert_eq!(trim_bytes(&b("plain")), b("plain"));
}

#[test]
fn only_status_200_counts_as_success() {
    assert!(is_success_status(200));
    assert!(!is_success_status(201));
    assert!(!is_success_status(404));
    assert!(!is_success_status(500));
}
