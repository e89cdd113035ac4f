use anonym_mcp::edit::{replace_counting, replace_once, EditRefusal};
use anonym_mcp::xml::{replace_in_text_nodes, text_nodes};

#[test]
fn ooxml_transforms_text_nodes_and_leaves_markup_alone() {
    let xml = r#"<w:p><w:r><w:t>tckn 10000000146</w:t></w:r></w:p>"#;
    let (out, n) = replace_in_text_nodes(xml, "10000000146", "TCKN_1").unwrap();
    assert!(out.contains("TCKN_1"), "{out}");
    assert!(out.contains("<w:p><w:r><w:t>"), "{out}");
    assert!(!out.contains("10000000146"), "{out}");
    assert_eq!(n, 1);
}

#[test]
fn ooxml_never_transforms_attributes_or_tag_names() {
    let xml = r#"<w:p w:rsidR="10000000146"><w:t>ordinary 10000000146</w:t></w:p>"#;
    let (out, n) = replace_in_text_nodes(xml, "10000000146", "MASKED").unwrap();
    assert!(out.contains(r#"w:rsidR="10000000146""#), "{out}");
    assert!(out.contains("MASKED"), "{out}");
    assert_eq!(n, 1);
}

#[test]
fn ooxml_leaves_indentation_whitespace_untouched() {
    let xml = "<a>\n  <b>text</b>\n</a>";
    let seen = text_nodes(xml).unwrap();
    assert_eq!(seen, vec!["text".to_string()], "only real text is offered");
    let (out, n) = replace_in_text_nodes(xml, "nothing", "else").unwrap();
    assert_eq!(out, xml, "whitespace-only nodes pass through unchanged");
    assert_eq!(n, 0);
}

#[test]
fn rewritten_text_is_escaped_again() {
    let (out, n) = replace_in_text_nodes("<t>a &amp; b</t>", "b", "<c>").unwrap();
    assert_eq!(out, "<t>a &amp; &lt;c&gt;</t>");
    assert_eq!(n, 1);
}

#[test]
fn malformed_xml_is_an_error() {
    assert!(text_nodes("<a><b></a>").is_err());
}

#[test]
fn replacing_counts_non_overlapping_occurrences() {
    assert_eq!(replace_counting("aaaa", "aa", "b"), ("bb".to_string(), 2));
    assert_eq!(replace_counting("aaa", "aa", "b"), ("ba".to_string(), 1));
    assert_eq!(replace_counting("abc", "", "X"), ("XaXbXcX".to_string(), 4));
    assert_eq!(replace_counting("şifre şifre", "şifre", "x"), ("x x".to_string(), 2));
    assert_eq!(replace_counting("abc", "d", "X"), ("abc".to_string(), 0));
}

#[test]
fn an_edit_needs_exactly_one_occurrence() {
    assert_eq!(replace_once("satır\nsatır\n", "satır", "yeni"), Err(EditRefusal::Ambiguous(2)));
    assert_eq!(replace_once("abc", "x", "y"), Err(EditRefusal::NotFound));
    assert_eq!(replace_once("abc", "b", "yy"), Ok("ayyc".to_string()));
    assert_eq!(replace_once("", "", "new"), Ok("new".to_string()));
    assert_eq!(replace_once("a", "", "new"), Err(EditRefusal::Ambiguous(2)));
}
