//! Tests of the Cleaner's five substitution passes.

use common_words::{
    clean_document, remove_html_nodes, remove_html_text, remove_numbers, remove_scripts,
    remove_style,
};

fn b(s: &str) -> Vec<u8> {
    s.as_bytes().to_vec()
}

#[test]
fn clean_leaves_plain_text_unchanged() {
    let mut text = b("hello world plain text with_underscores");
    clean_document(&mut text);
    assert_eq!(text, b("hello world plain text with_underscores"));
}

#[test]
fn script_block_with_inner_tags_is_fully_removed() {
    let mut text = b("a<script type=\"x\">if (x) { window.y = \"<div>foo</div>\"; }</script>b");
    clean_document(&mut text);
    assert_eq!(text, b("ab"));
}

#[test]
fn script_block_spanning_lines_is_removed() {
    let mut text = b("before\n<script>\nvar x = 1;\n</script>\nafter");
    remove_scripts(&mut text);
    assert_eq!(text, b("before\n\nafter"));
}

#[test]
fn unclosed_script_is_kept() {
    let mut text = b("a<script>no closing tag here");
    remove_scripts(&mut text);
    assert_eq!(text, b("a<script>no closing tag here"));
}

#[test]
fn style_block_is_removed() {
    let mut text = b("x<style media=\"all\">p { color: red; }</style>y");
    remove_style(&mut text);
    assert_eq!(text, b("xy"));
}

#[test]
fn tags_are_removed_shortest_match() {
    let mut text = b("a<b>c</b>d<br/>e");
    remove_html_nodes(&mut text);
    assert_eq!(text, b("acde"));
}

#[test]
fn entity_is_removed_within_a_line() {
    let mut text = b("a&amp;b&#160;c");
    remove_html_text(&mut text);
    assert_eq!(text, b("abc"));
}

#[test]
fn entity_does_not_span_lines() {
    let mut text = b("a&b\nc;d");
    remove_html_text(&mut text);
    assert_eq!(text, b("a&b\nc;d"));
}

#[test]
fn integers_and_decimals_are_removed() {
    let mut text = b("x12y");
    remove_numbers(&mut text);
    assert_eq!(text, b("xy"));
    let mut text2 = b("x12.5y");
    remove_numbers(&mut text2);
    assert_eq!(text2, b("xy"));
}

#[test]
fn number_dot_without_digits_stays() {
    let mut text = b("x5.y");
    remove_numbers(&mut text);
    assert_eq!(text, b("x.y"));
    let mut text2 = b("x1.2.3y");
    remove_numbers(&mut text2);
    assert_eq!(text2, b("x.y"));
}

#[test]
fn passes_run_in_order_scripts_before_tags() {
    // The generic tag pass alone would leave fragments of the script's body;
    // the script pass must have removed the whole element first.
    let mut text = b("keep<script>a<b>c&lt;9</script>this");
    clean_document(&mut text);
    assert_eq!(text, b("keepthis"));
}
