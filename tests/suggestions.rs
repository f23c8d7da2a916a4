use mdnest::suggestions::{is_markdown_file, FrontmatterSuggestions, SuggestionTally};
use mdnest::value::DynValue;

fn ranked(s: &FrontmatterSuggestions, field: &str) -> Vec<(String, usize)> {
    s.field_suggestions
        .iter()
        .find(|(f, _)| f == field)
        .map(|(_, list)| list.iter().map(|x| (x.value.clone(), x.count)).collect())
        .unwrap()
}

#[test]
fn tags_ranked_by_count_across_documents() {
    let mut tally = SuggestionTally::new();
    tally.add_document("---\ntags: [a, b]\n---\none");
    tally.add_document("---\ntags: [a]\n---\ntwo");
    tally.add_document("---\ntags:\n  - a\n  - c\n---\nthree");
    let s = tally.into_suggestions();
    let tags = ranked(&s, "tags");
    assert_eq!(tags.len(), 3);
    assert_eq!(tags[0], ("a".to_string(), 3));
    assert!(tags[1..].contains(&("b".to_string(), 1)));
    assert!(tags[1..].contains(&("c".to_string(), 1)));
}

#[test]
fn string_values_count_once_each() {
    let mut tally = SuggestionTally::new();
    tally.add_document("---\nauthor: Ann\n---\n");
    tally.add_document("---\nauthor: Bob\n---\n");
    tally.add_document("---\nauthor: Ann\n---\n");
    let s = tally.into_suggestions();
    assert_eq!(ranked(&s, "author"), vec![("Ann".to_string(), 2), ("Bob".to_string(), 1)]);
}

#[test]
fn other_values_note_the_field_without_suggestions() {
    let mut tally = SuggestionTally::new();
    tally.add_document("---\nrating: 5\nmixed: [x, 1, true]\n---\n");
    let s = tally.into_suggestions();
    assert_eq!(ranked(&s, "rating"), vec![]);
    assert_eq!(ranked(&s, "mixed"), vec![("x".to_string(), 1)]);
}

#[test]
fn documents_without_block_are_skipped() {
    let mut tally = SuggestionTally::new();
    tally.add_document("plain text");
    tally.add_document("---\n: : bad\n---\n");
    let s = tally.into_suggestions();
    assert!(s.field_suggestions.is_empty());
}

#[test]
fn markdown_files_by_extension() {
    assert!(is_markdown_file("note.md"));
    assert!(is_markdown_file("a.b.md"));
    assert!(!is_markdown_file(".md"));
    assert!(!is_markdown_file("note.MD"));
    assert!(!is_markdown_file("note.mdx"));
    assert!(!is_markdown_file("md"));
}

#[test]
fn blocks_are_counted_directly() {
    let text = |x: &str| DynValue::Str(x.to_string());
    let mut tally = SuggestionTally::new();
    tally.add_block(&DynValue::Mapping(vec![
        (text("tags"), DynValue::List(vec![text("x"), text("y"), text("x")])),
        (text("kind"), text("note")),
    ]));
    tally.add_block(&text("not a block"));
    let s = tally.into_suggestions();
    assert_eq!(ranked(&s, "tags"), vec![("x".to_string(), 2), ("y".to_string(), 1)]);
    assert_eq!(ranked(&s, "kind"), vec![("note".to_string(), 1)]);
    assert_eq!(s.field_suggestions.len(), 2);
}
