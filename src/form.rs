use crate::text::{list_items, split_list};
use crate::value::{
    as_object, entries_map, get_field, lemma_entries_map_source, lemma_entries_map_unique,
    lookup, pairs_view, set_field, string_keys, unique_keys, Dyn, DynValue, NumberValue,
};
use vstd::prelude::*;
use vstd::string::StringExecFns;

verus! {

/// One field of the metadata schema: its title and the tag of its type.
#[derive(Clone, Debug)]
pub struct FrontmatterField {
    pub key: usize,
    pub title: String,
    pub field_type: String,
}

/// How a field's type tag governs coercion.
#[derive(Clone, Copy, Debug, PartialEq, Eq, Structural)]
pub enum FieldKind {
    /// `"string[]"`
    StringList,
    /// `"date"`, `"time"` or `"dateandtime"`
    Temporal,
    /// `"number"`
    Number,
    /// `"string"` and every other tag
    Plain,
}

pub open spec fn kind_of(tag: Seq<char>) -> FieldKind {
    if tag == "string[]"@ {
        FieldKind::StringList
    } else if tag == "date"@ || tag == "time"@ || tag == "dateandtime"@ {
        FieldKind::Temporal
    } else if tag == "number"@ {
        FieldKind::Number
    } else {
        FieldKind::Plain
    }
}

/// The kind of a field type tag.
pub fn field_kind(tag: &String) -> (k: FieldKind)
    ensures
        k == kind_of(tag@),
{
    if *tag == String::from_str("string[]") {
        FieldKind::StringList
    } else if *tag == String::from_str("date") || *tag == String::from_str("time")
        || *tag == String::from_str("dateandtime") {
        FieldKind::Temporal
    } else if *tag == String::from_str("number") {
        FieldKind::Number
    } else {
        FieldKind::Plain
    }
}

/// A list of strings, as values.
pub open spec fn str_list(items: Seq<Seq<char>>) -> Dyn {
    Dyn::List(items.map_values(|s: Seq<char>| Dyn::Str(s)))
}

/// The form value of a field of the given kind whose stored value is `stored`.
pub open spec fn form_value(kind: FieldKind, stored: Option<Dyn>) -> Dyn {
    match kind {
        FieldKind::StringList => match stored {
            Some(Dyn::List(items)) => Dyn::List(items),
            Some(Dyn::Str(s)) => str_list(list_items(s)),
            _ => Dyn::List(Seq::empty()),
        },
        FieldKind::Temporal => match stored {
            Some(Dyn::Str(s)) => Dyn::Str(s),
            _ => Dyn::Null,
        },
        FieldKind::Number => match stored {
            Some(v) => v,
            None => Dyn::Number(NumberValue::Int(0)),
        },
        FieldKind::Plain => match stored {
            Some(v) => v,
            None => Dyn::Str(Seq::empty()),
        },
    }
}

/// The form values for a schema, read from a metadata block: every title of the schema
/// gets a value, from the last field with that title.
pub open spec fn form_map(schema: Seq<FrontmatterField>, block: Map<Seq<char>, Dyn>) -> Map<
    Seq<char>,
    Dyn,
>
    decreases schema.len(),
{
    if schema.len() == 0 {
        Map::empty()
    } else {
        let f = schema.last();
        form_map(schema.drop_last(), block).insert(
            f.title@,
            form_value(kind_of(f.field_type@), lookup(block, f.title@)),
        )
    }
}

/// The value stored for a field of the given kind whose form value is `raw`; `None`
/// when the field is left out.
pub open spec fn saved_value(kind: FieldKind, raw: Option<Dyn>) -> Option<Dyn> {
    match kind {
        FieldKind::Number => match raw {
            Some(Dyn::Number(n)) => Some(Dyn::Number(NumberValue::Int(n.spec_truncate() as i64))),
            _ => None,
        },
        FieldKind::StringList => match raw {
            Some(Dyn::List(items)) => Some(Dyn::List(items)),
            Some(Dyn::Str(s)) => Some(str_list(list_items(s))),
            _ => None,
        },
        FieldKind::Temporal => match raw {
            Some(Dyn::Str(s)) => if s.len() > 0 {
                Some(Dyn::Str(s))
            } else {
                None
            },
            _ => None,
        },
        FieldKind::Plain => raw,
    }
}

/// The fields stored from a form, in schema order, a later field replacing an earlier
/// one with the same title.
pub open spec fn saved_map(schema: Seq<FrontmatterField>, form: Map<Seq<char>, Dyn>) -> Map<
    Seq<char>,
    Dyn,
>
    decreases schema.len(),
{
    if schema.len() == 0 {
        Map::empty()
    } else {
        let f = schema.last();
        let m = saved_map(schema.drop_last(), form);
        match saved_value(kind_of(f.field_type@), lookup(form, f.title@)) {
            Some(v) => m.insert(f.title@, v),
            None => m,
        }
    }
}

/// A value that carries content: a non-empty list, a non-empty string, or a number.
pub open spec fn meaningful(d: Dyn) -> bool {
    match d {
        Dyn::List(items) => items.len() > 0,
        Dyn::Str(s) => s.len() > 0,
        Dyn::Number(_) => true,
        _ => false,
    }
}

/// The metadata block saved from a form: the stored fields when one of them carries
/// content, and otherwise the empty block.
pub open spec fn saved_block(schema: Seq<FrontmatterField>, form: Map<Seq<char>, Dyn>) -> Map<
    Seq<char>,
    Dyn,
> {
    let m = saved_map(schema, form);
    if exists|k: Seq<char>| m.dom().contains(k) && meaningful(#[trigger] m[k]) {
        m
    } else {
        Map::empty()
    }
}

/// The entries of `v` when it is a mapping with string keys only.
fn object_entries(v: &DynValue) -> (r: Option<&Vec<(DynValue, DynValue)>>)
    ensures
        match r {
            Some(e) => v@ == Dyn::Mapping(pairs_view(e@)) && string_keys(pairs_view(e@)),
            None => as_object(v@) == Map::<Seq<char>, Dyn>::empty(),
        },
{
    match v {
        DynValue::Mapping(e) => {
            assert(v@ == Dyn::Mapping(pairs_view(e@))) by {
                assert(v@->Mapping_0 =~= pairs_view(e@));
            }
            let mut i: usize = 0;
            while i < e.len()
                invariant
                    i <= e@.len(),
                    v@ == Dyn::Mapping(pairs_view(e@)),
                    forall|j: int| 0 <= j < i ==> (#[trigger] pairs_view(e@)[j]).0 is Str,
                decreases e@.len() - i,
            {
                let is_str = match &e[i].0 {
                    DynValue::Str(_) => true,
                    _ => false,
                };
                if !is_str {
                    assert(!string_keys(pairs_view(e@))) by {
                        assert(!(pairs_view(e@)[i as int].0 is Str));
                    }
                    return None;
                }
                i = i + 1;
            }
            Some(e)
        },
        _ => None,
    }
}

fn str_list_value(items: Vec<String>, expected: Ghost<Seq<Seq<char>>>) -> (r: DynValue)
    requires
        items@.len() == expected@.len(),
        forall|i: int| 0 <= i < items@.len() ==> (#[trigger] items@[i])@ == expected@[i],
    ensures
        r@ == str_list(expected@),
{
    let mut out: Vec<DynValue> = Vec::new();
    let mut i: usize = 0;
    while i < items.len()
        invariant
            i <= items@.len(),
            items@.len() == expected@.len(),
            forall|j: int| 0 <= j < items@.len() ==> (#[trigger] items@[j])@ == expected@[j],
            out@.len() == i,
            forall|j: int| 0 <= j < i ==> (#[trigger] out@[j])@ == Dyn::Str(expected@[j]),
        decreases items@.len() - i,
    {
        out.push(DynValue::Str(items[i].clone()));
        i = i + 1;
    }
    let r = DynValue::List(out);
    assert(r@->List_0 =~= str_list(expected@)->List_0);
    r
}

/// Coerces a stored value into the form value of a field of the given kind.
fn to_form_value(kind: FieldKind, stored: Option<&DynValue>) -> (r: DynValue)
    ensures
        r@ == form_value(
            kind,
            match stored {
                Some(v) => Some(v@),
                None => None,
            },
        ),
{
    match kind {
        FieldKind::StringList => match stored {
            Some(DynValue::List(_)) => stored.unwrap().deep_clone(),
            Some(DynValue::Str(s)) => str_list_value(split_list(s.as_str()), Ghost(list_items(s@))),
            _ => {
                let r = DynValue::List(Vec::new());
                assert(r@->List_0 =~= Seq::<Dyn>::empty());
                r
            },
        },
        FieldKind::Temporal => match stored {
            Some(DynValue::Str(s)) => DynValue::Str(s.clone()),
            _ => DynValue::Null,
        },
        FieldKind::Number => match stored {
            Some(v) => v.deep_clone(),
            None => DynValue::Number(NumberValue::Int(0)),
        },
        FieldKind::Plain => match stored {
            Some(v) => v.deep_clone(),
            None => DynValue::Str(String::new()),
        },
    }
}

/// Builds the form values for `schema` from the metadata block `current_frontmatter`.
/// Every title of the schema gets a value; a block that is not a mapping with string
/// keys counts as empty.
pub fn initialize_form_data(schema: Vec<FrontmatterField>, current_frontmatter: DynValue) -> (r:
    Result<DynValue, String>)
    ensures
        r is Ok,
        r->Ok_0@ is Mapping,
        string_keys(r->Ok_0@->Mapping_0),
        as_object(r->Ok_0@) == form_map(schema@, as_object(current_frontmatter@)),
{
    let no_entries: Vec<(DynValue, DynValue)> = Vec::new();
    let current: &Vec<(DynValue, DynValue)> = match object_entries(&current_frontmatter) {
        Some(e) => e,
        None => &no_entries,
    };
    let ghost block = as_object(current_frontmatter@);
    assert(entries_map(pairs_view(current@)) == block) by {
        if current@.len() == 0 {
            assert(pairs_view(current@) =~= Seq::<(Dyn, Dyn)>::empty());
        }
    }
    let mut out: Vec<(DynValue, DynValue)> = Vec::new();
    let mut i: usize = 0;
    proof {
        assert(pairs_view(out@) =~= Seq::<(Dyn, Dyn)>::empty());
        assert(schema@.take(0) =~= Seq::<FrontmatterField>::empty());
    }
    while i < schema.len()
        invariant
            i <= schema@.len(),
            entries_map(pairs_view(current@)) == block,
            string_keys(pairs_view(out@)),
            unique_keys(pairs_view(out@)),
            entries_map(pairs_view(out@)) == form_map(schema@.take(i as int), block),
        decreases schema@.len() - i,
    {
        let field = &schema[i];
        let kind = field_kind(&field.field_type);
        let stored = get_field(current, &field.title);
        let v = to_form_value(kind, stored);
        set_field(&mut out, field.title.clone(), v);
        proof {
            assert(schema@.take(i + 1).drop_last() =~= schema@.take(i as int));
            assert(schema@.take(i + 1).last() == schema@[i as int]);
        }
        i = i + 1;
    }
    proof {
        assert(schema@.take(i as int) =~= schema@);
    }
    let r = DynValue::Mapping(out);
    assert(r@->Mapping_0 =~= pairs_view(out@));
    Ok(r)
}

/// Coerces a form value into the stored value of a field of the given kind, or `None`
/// when the field is to be left out.
fn to_saved_value(kind: FieldKind, raw: Option<&DynValue>) -> (r: Option<DynValue>)
    ensures
        match r {
            Some(v) => saved_value(
                kind,
                match raw {
                    Some(x) => Some(x@),
                    None => None,
                },
            ) == Some(v@),
            None => saved_value(
                kind,
                match raw {
                    Some(x) => Some(x@),
                    None => None,
                },
            ) is None,
        },
{
    match kind {
        FieldKind::Number => match raw {
            Some(DynValue::Number(n)) => Some(DynValue::Number(NumberValue::Int(n.truncate()))),
            _ => None,
        },
        FieldKind::StringList => match raw {
            Some(DynValue::List(_)) => Some(raw.unwrap().deep_clone()),
            Some(DynValue::Str(s)) => Some(
                str_list_value(split_list(s.as_str()), Ghost(list_items(s@))),
            ),
            _ => None,
        },
        FieldKind::Temporal => match raw {
            Some(DynValue::Str(s)) => {
                if s.as_str().is_empty() {
                    None
                } else {
                    Some(DynValue::Str(s.clone()))
                }
            },
            _ => None,
        },
        FieldKind::Plain => match raw {
            Some(v) => Some(v.deep_clone()),
            None => None,
        },
    }
}

/// Whether a value carries content.
pub fn is_meaningful(v: &DynValue) -> (r: bool)
    ensures
        r == meaningful(v@),
{
    match v {
        DynValue::List(items) => items.len() > 0,
        DynValue::Str(s) => !s.as_str().is_empty(),
        DynValue::Number(_) => true,
        _ => false,
    }
}

/// Builds the metadata block to save from the form values `form_data` under `schema`.
/// Fields whose form value is missing or unusable for their type are left out, and the
/// block is empty when none of the stored fields carries content.
pub fn save_form_data_to_frontmatter(schema: Vec<FrontmatterField>, form_data: DynValue) -> (r:
    Result<DynValue, String>)
    ensures
        r is Ok,
        r->Ok_0@ is Mapping,
        string_keys(r->Ok_0@->Mapping_0),
        as_object(r->Ok_0@) == saved_block(schema@, as_object(form_data@)),
{
    let no_entries: Vec<(DynValue, DynValue)> = Vec::new();
    let form: &Vec<(DynValue, DynValue)> = match object_entries(&form_data) {
        Some(e) => e,
        None => &no_entries,
    };
    let ghost fm = as_object(form_data@);
    assert(entries_map(pairs_view(form@)) == fm) by {
        if form@.len() == 0 {
            assert(pairs_view(form@) =~= Seq::<(Dyn, Dyn)>::empty());
        }
    }
    let mut out: Vec<(DynValue, DynValue)> = Vec::new();
    let mut i: usize = 0;
    proof {
        assert(pairs_view(out@) =~= Seq::<(Dyn, Dyn)>::empty());
        assert(schema@.take(0) =~= Seq::<FrontmatterField>::empty());
    }
    while i < schema.len()
        invariant
            i <= schema@.len(),
            entries_map(pairs_view(form@)) == fm,
            string_keys(pairs_view(out@)),
            unique_keys(pairs_view(out@)),
            entries_map(pairs_view(out@)) == saved_map(schema@.take(i as int), fm),
        decreases schema@.len() - i,
    {
        let field = &schema[i];
        let kind = field_kind(&field.field_type);
        let raw = get_field(form, &field.title);
        match to_saved_value(kind, raw) {
            Some(v) => {
                set_field(&mut out, field.title.clone(), v);
            },
            None => {},
        }
        proof {
            assert(schema@.take(i + 1).drop_last() =~= schema@.take(i as int));
            assert(schema@.take(i + 1).last() == schema@[i as int]);
        }
        i = i + 1;
    }
    proof {
        assert(schema@.take(i as int) =~= schema@);
    }
    let ghost m = saved_map(schema@, fm);
    let ghost e = pairs_view(out@);
    let mut has_content = false;
    let mut j: usize = 0;
    while j < out.len()
        invariant
            j <= out@.len(),
            e == pairs_view(out@),
            entries_map(e) == m,
            unique_keys(e),
            string_keys(e),
            has_content ==> exists|k: Seq<char>| m.dom().contains(k) && meaningful(#[trigger] m[k]),
            !has_content ==> forall|a: int| 0 <= a < j ==> !meaningful((#[trigger] e[a]).1),
        decreases out@.len() - j,
    {
        if is_meaningful(&out[j].1) {
            proof {
                lemma_entries_map_unique(e, j as int);
                assert(meaningful(m[e[j as int].0->Str_0]));
            }
            has_content = true;
        }
        j = j + 1;
    }
    if has_content {
        let r = DynValue::Mapping(out);
        assert(r@->Mapping_0 =~= pairs_view(out@));
        Ok(r)
    } else {
        proof {
            assert forall|k: Seq<char>| m.dom().contains(k) implies !meaningful(#[trigger] m[k]) by {
                lemma_entries_map_source(e, k);
                let a = choose|a: int| 0 <= a < e.len() && (#[trigger] e[a]).0 == Dyn::Str(k);
                lemma_entries_map_unique(e, a);
            }
        }
        let r = DynValue::Mapping(Vec::new());
        assert(r@->Mapping_0 =~= Seq::<(Dyn, Dyn)>::empty());
        Ok(r)
    }
}

/// The default form value of a field of the given kind.
pub open spec fn default_form_value(kind: FieldKind) -> Dyn {
    match kind {
        FieldKind::StringList => Dyn::List(Seq::empty()),
        FieldKind::Temporal => Dyn::Null,
        FieldKind::Number => Dyn::Number(NumberValue::Int(0)),
        FieldKind::Plain => Dyn::Str(Seq::empty()),
    }
}

/// A blank form value: null, the empty string or the empty list.
pub open spec fn blank(d: Dyn) -> bool {
    match d {
        Dyn::Null => true,
        Dyn::Str(s) => s.len() == 0,
        Dyn::List(items) => items.len() == 0,
        _ => false,
    }
}

/// A string-list field survives a round trip through the form: a block whose only
/// field is that one, holding a non-empty list, is saved back unchanged from the form
/// values built from it.
pub proof fn lemma_list_field_round_trip(schema: Seq<FrontmatterField>, items: Seq<Dyn>)
    requires
        schema.len() == 1,
        kind_of(schema[0].field_type@) == FieldKind::StringList,
        items.len() > 0,
    ensures
        ({
            let block = Map::<Seq<char>, Dyn>::empty().insert(schema[0].title@, Dyn::List(items));
            saved_block(schema, form_map(schema, block)) == block
        }),
{
    let t = schema[0].title@;
    let block = Map::<Seq<char>, Dyn>::empty().insert(t, Dyn::List(items));
    assert(schema.drop_last() =~= Seq::<FrontmatterField>::empty());
    assert(schema.last() == schema[0]);
    assert(form_map(schema.drop_last(), block) == Map::<Seq<char>, Dyn>::empty());
    let form = form_map(schema, block);
    assert(form =~= block);
    assert(saved_map(schema.drop_last(), form) == Map::<Seq<char>, Dyn>::empty());
    let m = saved_map(schema, form);
    assert(m =~= block);
    assert(m.dom().contains(t) && meaningful(m[t]));
}

/// A form whose values are all blank saves as the empty block.
pub proof fn lemma_blank_form_saves_nothing(schema: Seq<FrontmatterField>, form: Map<Seq<char>, Dyn>)
    requires
        forall|k: Seq<char>| form.dom().contains(k) ==> blank(#[trigger] form[k]),
    ensures
        saved_block(schema, form) == Map::<Seq<char>, Dyn>::empty(),
{
    lemma_blank_values_not_meaningful(schema, form);
}

proof fn lemma_blank_values_not_meaningful(schema: Seq<FrontmatterField>, form: Map<Seq<char>, Dyn>)
    requires
        forall|k: Seq<char>| form.dom().contains(k) ==> blank(#[trigger] form[k]),
    ensures
        forall|k: Seq<char>|
            saved_map(schema, form).dom().contains(k) ==> !meaningful(
                #[trigger] saved_map(schema, form)[k],
            ),
    decreases schema.len(),
{
    if schema.len() > 0 {
        lemma_blank_values_not_meaningful(schema.drop_last(), form);
        let f = schema.last();
        let raw = lookup(form, f.title@);
        match raw {
            Some(Dyn::Str(s)) => {
                lemma_empty_list_items(s);
                assert(str_list(list_items(s))->List_0.len() == 0);
            },
            _ => {},
        }
        match saved_value(kind_of(f.field_type@), raw) {
            Some(v) => {
                assert(!meaningful(v));
            },
            None => {},
        }
        let pm = saved_map(schema.drop_last(), form);
        let m = saved_map(schema, form);
        assert forall|k: Seq<char>| m.dom().contains(k) implies !meaningful(#[trigger] m[k]) by {
            if k != f.title@ {
                assert(pm.dom().contains(k) && m[k] == pm[k]);
            }
        }
    }
}

proof fn lemma_empty_list_items(s: Seq<char>)
    requires
        s.len() == 0,
    ensures
        crate::text::comma_pieces(s) == seq![Seq::<char>::empty()],
        crate::text::kept_pieces(seq![Seq::<char>::empty()]) == Seq::<Seq<char>>::empty(),
{
    assert(seq![Seq::<char>::empty()].drop_last() =~= Seq::<Seq<char>>::empty());
    assert(crate::text::kept_pieces(Seq::<Seq<char>>::empty()) == Seq::<Seq<char>>::empty());
}

/// With an empty metadata block, a schema whose titles are distinct gets one form value
/// per field, each the default of the field's type.
pub proof fn lemma_empty_block_defaults(schema: Seq<FrontmatterField>)
    requires
        forall|i: int, j: int|
            0 <= i < j < schema.len() ==> (#[trigger] schema[i]).title@ != (#[trigger] schema[j]).title@,
    ensures
        form_map(schema, Map::empty()).dom().finite(),
        form_map(schema, Map::empty()).dom().len() == schema.len(),
        forall|k: Seq<char>|
            #![trigger form_map(schema, Map::empty()).dom().contains(k)]
            form_map(schema, Map::empty()).dom().contains(k) <==> exists|i: int|
                0 <= i < schema.len() && (#[trigger] schema[i]).title@ == k,
        forall|i: int|
            0 <= i < schema.len() ==> form_map(schema, Map::empty())[(#[trigger] schema[i]).title@]
                == default_form_value(kind_of(schema[i].field_type@)),
    decreases schema.len(),
{
    let m = form_map(schema, Map::empty());
    if schema.len() == 0 {
        assert(m.dom() =~= Set::<Seq<char>>::empty());
    } else {
        let p = schema.drop_last();
        assert forall|i: int, j: int| 0 <= i < j < p.len() implies (#[trigger] p[i]).title@ != (
        #[trigger] p[j]).title@ by {
            assert(p[i] == schema[i] && p[j] == schema[j]);
        }
        lemma_empty_block_defaults(p);
        let pm = form_map(p, Map::empty());
        let f = schema.last();
        assert(f == schema[schema.len() - 1]);
        assert(!pm.dom().contains(f.title@)) by {
            if pm.dom().contains(f.title@) {
                let i = choose|i: int| 0 <= i < p.len() && (#[trigger] p[i]).title@ == f.title@;
                assert(p[i] == schema[i]);
            }
        }
        assert forall|k: Seq<char>| #[trigger] m.dom().contains(k) <==> exists|i: int|
            0 <= i < schema.len() && (#[trigger] schema[i]).title@ == k by {
            if m.dom().contains(k) && k != f.title@ {
                let i = choose|i: int| 0 <= i < p.len() && (#[trigger] p[i]).title@ == k;
                assert(p[i] == schema[i]);
            }
            if exists|i: int| 0 <= i < schema.len() && (#[trigger] schema[i]).title@ == k {
                let i = choose|i: int| 0 <= i < schema.len() && (#[trigger] schema[i]).title@ == k;
                if i < schema.len() - 1 {
                    assert(p[i] == schema[i]);
                }
            }
        }
        assert forall|i: int| 0 <= i < schema.len() implies m[(#[trigger] schema[i]).title@]
            == default_form_value(kind_of(schema[i].field_type@)) by {
            if i < schema.len() - 1 {
                assert(p[i] == schema[i]);
                assert(schema[i].title@ != f.title@);
            }
        }
    }
}

} // verus!
