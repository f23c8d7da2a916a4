use mdnest::form::{initialize_form_data, save_form_data_to_frontmatter, FrontmatterField};
use mdnest::value::{DynValue, NumberValue};

fn text(x: &str) -> DynValue {
    DynValue::Str(x.to_string())
}

fn strings(xs: &[&str]) -> DynValue {
    DynValue::List(xs.iter().map(|x| text(x)).collect())
}

fn object(entries: Vec<(&str, DynValue)>) -> DynValue {
    DynValue::Mapping(entries.into_iter().map(|(k, v)| (text(k), v)).collect())
}

fn field(key: usize, title: &str, field_type: &str) -> FrontmatterField {
    FrontmatterField { key, title: title.to_string(), field_type: field_type.to_string() }
}

fn entries(v: &DynValue) -> &Vec<(DynValue, DynValue)> {
    match v {
        DynValue::Mapping(e) => e,
        other => panic!("not a mapping: {:?}", other),
    }
}

fn get<'a>(v: &'a DynValue, key: &str) -> Option<&'a DynValue> {
    entries(v).iter().find(|(k, _)| *k == text(key)).map(|(_, v)| v)
}

#[test]
fn empty_block_gives_each_field_its_default() {
    let schema = vec![field(1, "title", "string"), field(2, "rating", "number"), field(3, "tags", "string[]")];
    let form = initialize_form_data(schema, object(vec![])).unwrap();
    assert_eq!(entries(&form).len(), 3);
    assert_eq!(get(&form, "title"), Some(&text("")));
    assert_eq!(get(&form, "rating"), Some(&DynValue::Number(NumberValue::Int(0))));
    assert_eq!(get(&form, "tags"), Some(&DynValue::List(vec![])));
}

#[test]
fn temporal_fields_default_to_null() {
    let schema = vec![field(1, "day", "date"), field(2, "at", "time"), field(3, "when", "dateandtime")];
    let block = object(vec![("day", text("2024-01-02")), ("at", DynValue::Bool(true))]);
    let form = initialize_form_data(schema, block).unwrap();
    assert_eq!(get(&form, "day"), Some(&text("2024-01-02")));
    assert_eq!(get(&form, "at"), Some(&DynValue::Null));
    assert_eq!(get(&form, "when"), Some(&DynValue::Null));
}

#[test]
fn string_list_field_splits_a_string() {
    let schema = vec![field(1, "tags", "string[]")];
    let block = object(vec![("tags", text(" a , b ,, c ,"))]);
    let form = initialize_form_data(schema, block).unwrap();
    assert_eq!(get(&form, "tags"), Some(&strings(&["a", "b", "c"])));
}

#[test]
fn string_list_field_of_other_value_is_empty_list() {
    let schema = vec![field(1, "tags", "string[]")];
    let block = object(vec![("tags", DynValue::Number(NumberValue::Int(4)))]);
    let form = initialize_form_data(schema, block).unwrap();
    assert_eq!(get(&form, "tags"), Some(&DynValue::List(vec![])));
}

#[test]
fn plain_and_number_fields_pass_values_through() {
    let schema = vec![field(1, "title", "string"), field(2, "n", "number"), field(3, "misc", "color")];
    let block = object(vec![
        ("title", text("Hello")),
        ("n", text("not a number")),
        ("misc", strings(&["x"])),
    ]);
    let form = initialize_form_data(schema, block).unwrap();
    assert_eq!(get(&form, "title"), Some(&text("Hello")));
    assert_eq!(get(&form, "n"), Some(&text("not a number")));
    assert_eq!(get(&form, "misc"), Some(&strings(&["x"])));
}

#[test]
fn block_that_is_not_a_mapping_counts_as_empty() {
    let schema = vec![field(1, "title", "string")];
    let form = initialize_form_data(schema, strings(&["a"])).unwrap();
    assert_eq!(get(&form, "title"), Some(&text("")));
    assert_eq!(entries(&form).len(), 1);
}

#[test]
fn string_list_round_trip_reproduces_block() {
    let schema = vec![field(1, "tags", "string[]")];
    let block = object(vec![("tags", strings(&["x", "y"]))]);
    let form = initialize_form_data(schema.clone(), block).unwrap();
    let saved = save_form_data_to_frontmatter(schema, form).unwrap();
    assert_eq!(saved, object(vec![("tags", strings(&["x", "y"]))]));
}

#[test]
fn all_empty_form_saves_empty_block() {
    let schema = vec![
        field(1, "title", "string"),
        field(2, "tags", "string[]"),
        field(3, "day", "date"),
        field(4, "n", "number"),
    ];
    let form = object(vec![("title", text("")), ("tags", DynValue::List(vec![])), ("day", text("")), ("n", text(""))]);
    let saved = save_form_data_to_frontmatter(schema, form).unwrap();
    assert_eq!(saved, object(vec![]));
}

#[test]
fn whitespace_string_counts_as_content() {
    let schema = vec![field(1, "title", "string"), field(2, "tags", "string[]")];
    let form = object(vec![("title", text("   ")), ("tags", text(" , "))]);
    let saved = save_form_data_to_frontmatter(schema, form).unwrap();
    assert_eq!(get(&saved, "title"), Some(&text("   ")));
    assert_eq!(get(&saved, "tags"), Some(&DynValue::List(vec![])));
    assert_eq!(entries(&saved).len(), 2);
}

#[test]
fn only_empty_list_from_blank_pieces_saves_nothing() {
    let schema = vec![field(1, "tags", "string[]")];
    let form = object(vec![("tags", text(" , \u{3000},"))]);
    let saved = save_form_data_to_frontmatter(schema, form).unwrap();
    assert_eq!(saved, object(vec![]));
}

#[test]
fn list_items_are_trimmed_of_unicode_white_space() {
    let schema = vec![field(1, "tags", "string[]")];
    let block = object(vec![("tags", text("\u{3000}a\u{a0}, b\t"))]);
    let form = initialize_form_data(schema, block).unwrap();
    assert_eq!(get(&form, "tags"), Some(&strings(&["a", "b"])));
}

#[test]
fn number_field_truncates_toward_zero() {
    let schema = vec![field(1, "a", "number"), field(2, "b", "number"), field(3, "c", "number")];
    let form = object(vec![
        ("a", DynValue::Number(NumberValue::Float(3.7f64.to_bits()))),
        ("b", DynValue::Number(NumberValue::Float((-2.5f64).to_bits()))),
        ("c", DynValue::Number(NumberValue::Int(-7))),
    ]);
    let saved = save_form_data_to_frontmatter(schema, form).unwrap();
    assert_eq!(get(&saved, "a"), Some(&DynValue::Number(NumberValue::Int(3))));
    assert_eq!(get(&saved, "b"), Some(&DynValue::Number(NumberValue::Int(-2))));
    assert_eq!(get(&saved, "c"), Some(&DynValue::Number(NumberValue::Int(-7))));
}

#[test]
fn number_truncation_saturates() {
    assert_eq!(NumberValue::Float(1e30f64.to_bits()).truncate(), i64::MAX);
    assert_eq!(NumberValue::Float((-1e30f64).to_bits()).truncate(), i64::MIN);
    assert_eq!(NumberValue::Float(f64::NAN.to_bits()).truncate(), 0);
    assert_eq!(NumberValue::Float(f64::INFINITY.to_bits()).truncate(), i64::MAX);
    assert_eq!(NumberValue::Float(0.25f64.to_bits()).truncate(), 0);
    assert_eq!(NumberValue::Float((-2.9f64).to_bits()).truncate(), -2);
    assert_eq!(NumberValue::Float(4503599627370497.0f64.to_bits()).truncate(), 4503599627370497);
    assert_eq!(NumberValue::Float(1152921504606846976.0f64.to_bits()).truncate(), 1152921504606846976);
    assert_eq!(NumberValue::UInt(u64::MAX).truncate(), i64::MAX);
}

#[test]
fn number_field_drops_non_numbers() {
    let schema = vec![field(1, "n", "number"), field(2, "title", "string")];
    let form = object(vec![("n", text("12")), ("title", text("T"))]);
    let saved = save_form_data_to_frontmatter(schema, form).unwrap();
    assert_eq!(saved, object(vec![("title", text("T"))]));
}

#[test]
fn temporal_fields_drop_empty_strings() {
    let schema = vec![field(1, "day", "date"), field(2, "at", "time"), field(3, "n", "number")];
    let form = object(vec![
        ("day", text("")),
        ("at", text("10:30")),
        ("n", DynValue::Number(NumberValue::Int(1))),
    ]);
    let saved = save_form_data_to_frontmatter(schema, form).unwrap();
    assert_eq!(get(&saved, "day"), None);
    assert_eq!(get(&saved, "at"), Some(&text("10:30")));
}

#[test]
fn string_list_form_value_as_text_is_split() {
    let schema = vec![field(1, "tags", "string[]")];
    let form = object(vec![("tags", text("rust,  verus ,"))]);
    let saved = save_form_data_to_frontmatter(schema, form).unwrap();
    assert_eq!(saved, object(vec![("tags", strings(&["rust", "verus"]))]));
}

#[test]
fn later_field_with_same_title_wins() {
    let schema = vec![field(1, "x", "string"), field(2, "x", "number")];
    let form = initialize_form_data(schema, object(vec![])).unwrap();
    assert_eq!(entries(&form).len(), 1);
    assert_eq!(get(&form, "x"), Some(&DynValue::Number(NumberValue::Int(0))));
}
