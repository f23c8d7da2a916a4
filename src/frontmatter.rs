use crate::text::chars_of;
use crate::value::{
    as_object, entries_map, pairs_view, set_field, string_keys, unique_keys, Dyn, DynValue,
    NumberValue,
};
use vstd::prelude::*;
use vstd::string::StrSliceExecFns;

verus! {

#[verifier::external_type_specification]
#[verifier::external_body]
pub struct ExYamlValue(serde_yaml::Value);

#[verifier::external_type_specification]
#[verifier::external_body]
pub struct ExYamlNumber(serde_yaml::Number);

/// What `serde_yaml::from_str` makes of a text read as a YAML value, in the library's
/// terms; `None` when the text is not valid YAML.
pub uninterp spec fn yaml_parse(text: Seq<char>) -> Option<Dyn>;

/// Carries a YAML number over into the library's number type.
#[verifier::external_body]
fn number_from_yaml(n: &serde_yaml::Number) -> NumberValue {
    match (n.as_i64(), n.as_u64(), n.as_f64()) {
        (Some(i), _, _) => NumberValue::Int(i),
        (None, Some(u), _) => NumberValue::UInt(u),
        (None, None, f) => NumberValue::Float(f.unwrap_or_default().to_bits()),
    }
}

/// Carries a YAML value over into the library's value type, one variant for one.
#[verifier::external_body]
fn value_from_yaml(v: serde_yaml::Value) -> DynValue {
    match v {
        serde_yaml::Value::Null => DynValue::Null,
        serde_yaml::Value::Bool(b) => DynValue::Bool(b),
        serde_yaml::Value::Number(n) => DynValue::Number(number_from_yaml(&n)),
        serde_yaml::Value::String(s) => DynValue::Str(s),
        serde_yaml::Value::Sequence(s) => DynValue::List(s.into_iter().map(value_from_yaml).collect()),
        serde_yaml::Value::Mapping(m) => DynValue::Mapping(
            m.into_iter().map(|(k, v)| (value_from_yaml(k), value_from_yaml(v))).collect(),
        ),
        serde_yaml::Value::Tagged(t) => DynValue::Tagged(t.tag.to_string(), Box::new(value_from_yaml(t.value))),
    }
}

/// Relies on `serde_yaml::from_str` to read a text as one YAML value; the outcome
/// depends on the text alone.
#[verifier::external_body]
fn parse_yaml(text: &str) -> (r: Option<DynValue>)
    ensures
        match r {
            Some(v) => yaml_parse(text@) == Some(v@),
            None => yaml_parse(text@) is None,
        },
{
    serde_yaml::from_str::<serde_yaml::Value>(text).ok().map(value_from_yaml)
}

/// A marker line's three dashes start at position `i`.
pub open spec fn marker_at(s: Seq<char>, i: int) -> bool {
    0 <= i && i + 3 <= s.len() && s[i] == '-' && s[i + 1] == '-' && s[i + 2] == '-'
}

/// The first position at or after `i` where a marker starts.
pub open spec fn first_marker_from(s: Seq<char>, i: int) -> Option<int>
    decreases s.len() - i,
{
    if i < 0 || i + 3 > s.len() {
        None
    } else if marker_at(s, i) {
        Some(i)
    } else {
        first_marker_from(s, i + 1)
    }
}

/// The text of the metadata block of a document: what lies between the opening marker
/// at the very start and the next marker.
pub open spec fn frontmatter_text(s: Seq<char>) -> Option<Seq<char>> {
    if marker_at(s, 0) {
        match first_marker_from(s, 3) {
            Some(e) => Some(s.subrange(3, e)),
            None => None,
        }
    } else {
        None
    }
}

/// The metadata block of a document, as a mapping from its string keys: present when
/// the block's text reads as a YAML mapping.
pub open spec fn frontmatter_of(s: Seq<char>) -> Option<Map<Seq<char>, Dyn>> {
    match frontmatter_text(s) {
        Some(t) => match yaml_parse(t) {
            Some(Dyn::Mapping(e)) => Some(entries_map(e)),
            _ => None,
        },
        None => None,
    }
}

/// Finds the first marker at or after position `from` in `cs`.
fn find_marker(cs: &Vec<char>, from: usize) -> (r: Option<usize>)
    requires
        from <= cs@.len(),
    ensures
        match r {
            Some(e) => from <= e && e + 3 <= cs@.len() && first_marker_from(cs@, from as int)
                == Some(e as int),
            None => first_marker_from(cs@, from as int) is None,
        },
{
    let n = cs.len();
    let mut i: usize = from;
    while n - i >= 3
        invariant
            from <= i <= n,
            n == cs@.len(),
            first_marker_from(cs@, from as int) == first_marker_from(cs@, i as int),
        decreases n - i,
    {
        if cs[i] == '-' && cs[i + 1] == '-' && cs[i + 2] == '-' {
            return Some(i);
        }
        i = i + 1;
    }
    None
}

/// The text of the metadata block of a document: what lies between a `---` at the very
/// start and the next `---`; `None` when there is no such pair of markers.
pub fn frontmatter_block_text(content: &str) -> (r: Option<&str>)
    ensures
        match r {
            Some(t) => frontmatter_text(content@) == Some(t@),
            None => frontmatter_text(content@) is None,
        },
{
    let cs = chars_of(content);
    if cs.len() < 3 || !(cs[0] == '-' && cs[1] == '-' && cs[2] == '-') {
        return None;
    }
    match find_marker(&cs, 3) {
        Some(end) => Some(content.substring_char(3, end)),
        None => None,
    }
}

/// The metadata block made of a parsed YAML value: its entries with string keys, a later
/// entry replacing an earlier one with the same key, when the value is a mapping; `None`
/// otherwise.
pub fn block_from_yaml(parsed: Option<DynValue>) -> (r: Option<DynValue>)
    ensures
        match r {
            Some(v) => {
                &&& v@ is Mapping
                &&& string_keys(v@->Mapping_0)
                &&& unique_keys(v@->Mapping_0)
                &&& parsed matches Some(p) && p@ is Mapping && as_object(v@) == entries_map(
                    p@->Mapping_0,
                )
            },
            None => !(parsed matches Some(p) && p@ is Mapping),
        },
{
    let ghost parsed_in = parsed;
    let entries = match parsed {
        Some(DynValue::Mapping(entries)) => entries,
        _ => {
            return None;
        },
    };
    let ghost ev = pairs_view(entries@);
    proof {
        assert(DynValue::Mapping(entries)@->Mapping_0 =~= ev);
    }
    let mut out: Vec<(DynValue, DynValue)> = Vec::new();
    let mut i: usize = 0;
    proof {
        assert(pairs_view(out@) =~= Seq::<(Dyn, Dyn)>::empty());
        assert(ev.take(0) =~= Seq::<(Dyn, Dyn)>::empty());
    }
    while i < entries.len()
        invariant
            i <= entries@.len(),
            ev == pairs_view(entries@),
            string_keys(pairs_view(out@)),
            unique_keys(pairs_view(out@)),
            entries_map(pairs_view(out@)) == entries_map(ev.take(i as int)),
        decreases entries@.len() - i,
    {
        proof {
            assert(ev.take(i + 1).drop_last() =~= ev.take(i as int));
            assert(ev.take(i + 1).last() == ev[i as int]);
        }
        match &entries[i].0 {
            DynValue::Str(k) => {
                let v = entries[i].1.deep_clone();
                set_field(&mut out, k.clone(), v);
            },
            _ => {},
        }
        i = i + 1;
    }
    proof {
        assert(ev.take(i as int) =~= ev);
    }
    let r = DynValue::Mapping(out);
    assert(r@->Mapping_0 =~= pairs_view(out@));
    Some(r)
}

/// Reads the metadata block at the top of a document: the text between a leading `---`
/// and the next `---`, read as YAML. The result is the block's entries with string keys
/// (others are dropped), or `None` when the document does not start with the marker,
/// has no closing marker, or the block is not a YAML mapping.
pub fn extract_frontmatter(content: &str) -> (r: Option<DynValue>)
    ensures
        match r {
            Some(v) => {
                &&& v@ is Mapping
                &&& string_keys(v@->Mapping_0)
                &&& unique_keys(v@->Mapping_0)
                &&& frontmatter_of(content@) == Some(as_object(v@))
            },
            None => frontmatter_of(content@) is None,
        },
{
    match frontmatter_block_text(content) {
        Some(text) => block_from_yaml(parse_yaml(text)),
        None => None,
    }
}

} // verus!
