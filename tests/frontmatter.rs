use mdnest::document::{block_has_content, frame_document};
use mdnest::frontmatter::extract_frontmatter;
use mdnest::value::{DynValue, NumberValue};

fn text(x: &str) -> DynValue {
    DynValue::Str(x.to_string())
}

#[test]
fn text_without_marker_has_no_block() {
    assert_eq!(extract_frontmatter("no marker here"), None);
}

#[test]
fn block_between_markers_is_read() {
    let block = extract_frontmatter("---\nkey: value\n---\nbody").unwrap();
    assert_eq!(block, DynValue::Mapping(vec![(text("key"), text("value"))]));
}

#[test]
fn block_values_keep_their_shapes() {
    let block = extract_frontmatter("---\ntags: [a, b]\ncount: 3\nflag: true\n---\n").unwrap();
    assert_eq!(
        block,
        DynValue::Mapping(vec![
            (text("tags"), DynValue::List(vec![text("a"), text("b")])),
            (text("count"), DynValue::Number(NumberValue::Int(3))),
            (text("flag"), DynValue::Bool(true)),
        ])
    );
}

#[test]
fn non_string_keys_are_dropped() {
    let block = extract_frontmatter("---\n1: one\nname: two\n---\n").unwrap();
    assert_eq!(block, DynValue::Mapping(vec![(text("name"), text("two"))]));
}

#[test]
fn missing_closing_marker_gives_none() {
    assert_eq!(extract_frontmatter("---\nkey: value\nbody"), None);
}

#[test]
fn block_that_is_not_a_mapping_gives_none() {
    assert_eq!(extract_frontmatter("---\n- a\n- b\n---\n"), None);
    assert_eq!(extract_frontmatter("---\njust text\n---\n"), None);
}

#[test]
fn malformed_yaml_gives_none() {
    assert_eq!(extract_frontmatter("---\nkey: [unclosed\n---\n"), None);
}

#[test]
fn marker_must_open_the_document() {
    assert_eq!(extract_frontmatter("\n---\nkey: value\n---\n"), None);
}

#[test]
fn framing_puts_block_above_body() {
    assert_eq!(frame_document("a: 1\n", "Body"), "---\na: 1\n---\n\nBody");
}

#[test]
fn content_check_ignores_null_and_blank_values() {
    let blank = DynValue::Mapping(vec![
        (text("a"), DynValue::Null),
        (text("b"), text("  ")),
        (text("c"), DynValue::List(vec![])),
    ]);
    assert!(!block_has_content(&blank));
    let flagged = DynValue::Mapping(vec![(text("a"), DynValue::Null), (text("d"), DynValue::Bool(false))]);
    assert!(block_has_content(&flagged));
    assert!(!block_has_content(&text("x")));
}

#[test]
fn block_text_lies_between_markers() {
    assert_eq!(mdnest::frontmatter::frontmatter_block_text("---\nkey: value\n---\nbody"), Some("\nkey: value\n"));
    assert_eq!(mdnest::frontmatter::frontmatter_block_text("------"), Some(""));
    assert_eq!(mdnest::frontmatter::frontmatter_block_text("-----"), None);
    assert_eq!(mdnest::frontmatter::frontmatter_block_text("--"), None);
}

#[test]
fn block_from_parsed_value_keeps_last_string_keyed_entries() {
    let parsed = DynValue::Mapping(vec![
        (text("a"), text("1")),
        (DynValue::Bool(true), text("x")),
        (text("b"), text("2")),
        (text("a"), text("3")),
    ]);
    let block = mdnest::frontmatter::block_from_yaml(Some(parsed)).unwrap();
    assert_eq!(block, DynValue::Mapping(vec![(text("a"), text("3")), (text("b"), text("2"))]));
    assert_eq!(mdnest::frontmatter::block_from_yaml(Some(text("a"))), None);
    assert_eq!(mdnest::frontmatter::block_from_yaml(None), None);
}

#[test]
fn deep_clone_copies_nested_values() {
    let v = DynValue::Mapping(vec![(
        text("k"),
        DynValue::List(vec![text("a"), DynValue::Tagged("!t".to_string(), Box::new(DynValue::Null))]),
    )]);
    assert_eq!(v.deep_clone(), v);
}

#[test]
fn document_text_frames_only_blocks_worth_writing() {
    let filled = DynValue::Mapping(vec![(text("a"), DynValue::Number(NumberValue::Int(1)))]);
    assert_eq!(mdnest::document::document_text(&filled, "a: 1\n", "Body"), "---\na: 1\n---\n\nBody");
    let blank = DynValue::Mapping(vec![(text("a"), text(" "))]);
    assert_eq!(mdnest::document::document_text(&blank, "a: ' '\n", "Body"), "Body");
}
