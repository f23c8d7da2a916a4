use vstd::arithmetic::power2::{lemma_pow2_strictly_increases, pow2};
use vstd::bits::{lemma_u64_shl_is_mul, lemma_u64_shr_is_div};
use vstd::prelude::*;

verus! {

/// A number held in a metadata block or a form.
#[derive(Clone, Copy, Debug, PartialEq, Eq)]
pub enum NumberValue {
    /// An integer that fits in `i64`.
    Int(i64),
    /// A non-negative integer above `i64::MAX`.
    UInt(u64),
    /// A binary64 floating-point number, held as its IEEE 754 bit pattern.
    Float(u64),
}

/// A dynamically shaped value: what a metadata block or a form field holds.
#[derive(Debug, PartialEq)]
pub enum DynValue {
    Null,
    Bool(bool),
    Number(NumberValue),
    Str(String),
    List(Vec<DynValue>),
    Mapping(Vec<(DynValue, DynValue)>),
    Tagged(String, Box<DynValue>),
}

/// The mathematical form of a `DynValue`: strings as character sequences.
pub ghost enum Dyn {
    Null,
    Bool(bool),
    Number(NumberValue),
    Str(Seq<char>),
    List(Seq<Dyn>),
    Mapping(Seq<(Dyn, Dyn)>),
    Tagged(Seq<char>, Box<Dyn>),
}

impl DynValue {
    pub open spec fn view(&self) -> Dyn
        decreases self,
    {
        match self {
            DynValue::Null => Dyn::Null,
            DynValue::Bool(b) => Dyn::Bool(*b),
            DynValue::Number(n) => Dyn::Number(*n),
            DynValue::Str(s) => Dyn::Str(s@),
            DynValue::List(items) => Dyn::List(
                Seq::new(
                    items@.len(),
                    |i: int|
                        if 0 <= i < items@.len() {
                            items@[i].view()
                        } else {
                            Dyn::Null
                        },
                ),
            ),
            DynValue::Mapping(entries) => Dyn::Mapping(
                Seq::new(
                    entries@.len(),
                    |i: int|
                        if 0 <= i < entries@.len() {
                            (entries@[i].0.view(), entries@[i].1.view())
                        } else {
                            (Dyn::Null, Dyn::Null)
                        },
                ),
            ),
            DynValue::Tagged(t, v) => Dyn::Tagged(t@, Box::new(v.view())),
        }
    }

    /// A copy of the whole value, nested lists and mappings included.
    #[verifier::loop_isolation(false)]
    pub fn deep_clone(&self) -> (r: DynValue)
        ensures
            r@ == self@,
        decreases self,
    {
        match self {
            DynValue::Null => DynValue::Null,
            DynValue::Bool(b) => DynValue::Bool(*b),
            DynValue::Number(n) => DynValue::Number(*n),
            DynValue::Str(s) => DynValue::Str(s.clone()),
            DynValue::List(items) => {
                let mut out: Vec<DynValue> = Vec::new();
                let mut i: usize = 0;
                while i < items.len()
                    invariant
                        i <= items@.len(),
                        out@.len() == i,
                        forall|j: int| 0 <= j < i ==> (#[trigger] out@[j])@ == items@[j]@,
                    decreases items@.len() - i,
                {
                    proof {
                        vstd::std_specs::vec::axiom_vec_index_decreases(*items, i as int);
                    }
                    let c = items[i].deep_clone();
                    out.push(c);
                    i = i + 1;
                }
                let r = DynValue::List(out);
                assert(r@ == self@) by {
                    if let Dyn::List(a) = r@ {
                        if let Dyn::List(b) = self@ {
                            assert(a =~= b);
                        }
                    }
                }
                r
            },
            DynValue::Mapping(entries) => {
                let mut out: Vec<(DynValue, DynValue)> = Vec::new();
                let mut i: usize = 0;
                while i < entries.len()
                    invariant
                        i <= entries@.len(),
                        out@.len() == i,
                        forall|j: int|
                            0 <= j < i ==> (#[trigger] out@[j]).0@ == entries@[j].0@ && out@[j].1@
                                == entries@[j].1@,
                    decreases entries@.len() - i,
                {
                    proof {
                        vstd::std_specs::vec::axiom_vec_index_decreases(*entries, i as int);
                    }
                    let k = entries[i].0.deep_clone();
                    let v = entries[i].1.deep_clone();
                    out.push((k, v));
                    i = i + 1;
                }
                let r = DynValue::Mapping(out);
                assert(r@ == self@) by {
                    if let Dyn::Mapping(a) = r@ {
                        if let Dyn::Mapping(b) = self@ {
                            assert(a =~= b);
                        }
                    }
                }
                r
            },
            DynValue::Tagged(t, v) => DynValue::Tagged(t.clone(), Box::new((**v).deep_clone())),
        }
    }
}

/// The views of a sequence of key/value entries.
pub open spec fn pairs_view(e: Seq<(DynValue, DynValue)>) -> Seq<(Dyn, Dyn)> {
    Seq::new(e.len(), |i: int| (e[i].0@, e[i].1@))
}

/// Every key is a string.
pub open spec fn string_keys(e: Seq<(Dyn, Dyn)>) -> bool {
    forall|i: int| 0 <= i < e.len() ==> (#[trigger] e[i]).0 is Str
}

/// No key occurs twice.
pub open spec fn unique_keys(e: Seq<(Dyn, Dyn)>) -> bool {
    forall|i: int, j: int| 0 <= i < j < e.len() ==> (#[trigger] e[i]).0 != (#[trigger] e[j]).0
}

/// The string-keyed mapping that a sequence of entries denotes: entries are taken in
/// order, a later one replacing an earlier one with the same key; entries whose key
/// is not a string are left out.
pub open spec fn entries_map(e: Seq<(Dyn, Dyn)>) -> Map<Seq<char>, Dyn>
    decreases e.len(),
{
    if e.len() == 0 {
        Map::empty()
    } else {
        let m = entries_map(e.drop_last());
        match e.last().0 {
            Dyn::Str(k) => m.insert(k, e.last().1),
            _ => m,
        }
    }
}

/// What a value denotes as a string-keyed mapping: the mapping itself when it is one
/// with string keys only, and otherwise the empty mapping.
pub open spec fn as_object(d: Dyn) -> Map<Seq<char>, Dyn> {
    match d {
        Dyn::Mapping(e) => if string_keys(e) {
            entries_map(e)
        } else {
            Map::empty()
        },
        _ => Map::empty(),
    }
}

/// The value under `k` in `m`, if any.
pub open spec fn lookup(m: Map<Seq<char>, Dyn>, k: Seq<char>) -> Option<Dyn> {
    if m.dom().contains(k) {
        Some(m[k])
    } else {
        None
    }
}

/// The value of the last entry with key `k` is what the mapping holds under `k`.
pub proof fn lemma_entries_map_last(e: Seq<(Dyn, Dyn)>, i: int, k: Seq<char>)
    requires
        0 <= i < e.len(),
        e[i].0 == Dyn::Str(k),
        forall|j: int| i < j < e.len() ==> (#[trigger] e[j]).0 != Dyn::Str(k),
    ensures
        entries_map(e).dom().contains(k),
        entries_map(e)[k] == e[i].1,
    decreases e.len(),
{
    if i < e.len() - 1 {
        let p = e.drop_last();
        assert forall|j: int| i < j < p.len() implies (#[trigger] p[j]).0 != Dyn::Str(k) by {
            assert(p[j] == e[j]);
        }
        lemma_entries_map_last(p, i, k);
        assert(e.last() == e[e.len() - 1]);
    }
}

/// A key that no entry has is not in the mapping.
pub proof fn lemma_entries_map_absent(e: Seq<(Dyn, Dyn)>, k: Seq<char>)
    requires
        forall|j: int| 0 <= j < e.len() ==> (#[trigger] e[j]).0 != Dyn::Str(k),
    ensures
        !entries_map(e).dom().contains(k),
    decreases e.len(),
{
    if e.len() > 0 {
        let p = e.drop_last();
        assert forall|j: int| 0 <= j < p.len() implies (#[trigger] p[j]).0 != Dyn::Str(k) by {
            assert(p[j] == e[j]);
        }
        lemma_entries_map_absent(p, k);
        assert(e.last() == e[e.len() - 1]);
    }
}

/// Each key of the mapping is the key of some entry.
pub proof fn lemma_entries_map_source(e: Seq<(Dyn, Dyn)>, k: Seq<char>)
    requires
        entries_map(e).dom().contains(k),
    ensures
        exists|i: int| 0 <= i < e.len() && (#[trigger] e[i]).0 == Dyn::Str(k),
    decreases e.len(),
{
    if forall|j: int| 0 <= j < e.len() ==> (#[trigger] e[j]).0 != Dyn::Str(k) {
        lemma_entries_map_absent(e, k);
    }
}

/// With unique keys, every entry's value is what the mapping holds under its key.
pub proof fn lemma_entries_map_unique(e: Seq<(Dyn, Dyn)>, i: int)
    requires
        unique_keys(e),
        0 <= i < e.len(),
        e[i].0 is Str,
    ensures
        entries_map(e).dom().contains(e[i].0->Str_0),
        entries_map(e)[e[i].0->Str_0] == e[i].1,
{
    let k = e[i].0->Str_0;
    assert forall|j: int| i < j < e.len() implies (#[trigger] e[j]).0 != Dyn::Str(k) by {
        assert(e[i].0 != e[j].0);
    }
    lemma_entries_map_last(e, i, k);
}

/// Replacing the value of the entry with key `k`, in entries with unique keys,
/// replaces the value under `k` in the mapping.
pub proof fn lemma_entries_map_update(e: Seq<(Dyn, Dyn)>, i: int, k: Seq<char>, v: Dyn)
    requires
        unique_keys(e),
        0 <= i < e.len(),
        e[i].0 == Dyn::Str(k),
    ensures
        entries_map(e.update(i, (Dyn::Str(k), v))) == entries_map(e).insert(k, v),
    decreases e.len(),
{
    let u = e.update(i, (Dyn::Str(k), v));
    let p = e.drop_last();
    if i == e.len() - 1 {
        assert(u.drop_last() =~= p);
        assert(entries_map(u) =~= entries_map(e).insert(k, v));
    } else {
        assert(u.drop_last() =~= p.update(i, (Dyn::Str(k), v)));
        assert(unique_keys(p)) by {
            assert forall|a: int, b: int| 0 <= a < b < p.len() implies (#[trigger] p[a]).0 != (
            #[trigger] p[b]).0 by {
                assert(p[a] == e[a] && p[b] == e[b]);
            }
        }
        lemma_entries_map_update(p, i, k, v);
        assert(e.last() == e[e.len() - 1]);
        assert(e[i].0 != e[e.len() - 1].0);
        assert(u.last() == e.last());
        assert(entries_map(u) =~= entries_map(e).insert(k, v));
    }
}

/// The index of the last entry whose key is the string `key`.
pub fn find_key(entries: &Vec<(DynValue, DynValue)>, key: &String) -> (r: Option<usize>)
    ensures
        match r {
            Some(i) => {
                &&& i < entries@.len()
                &&& pairs_view(entries@)[i as int].0 == Dyn::Str(key@)
                &&& forall|j: int|
                    i < j < entries@.len() ==> (#[trigger] pairs_view(entries@)[j]).0 != Dyn::Str(
                        key@,
                    )
            },
            None => forall|j: int|
                0 <= j < entries@.len() ==> (#[trigger] pairs_view(entries@)[j]).0 != Dyn::Str(
                    key@,
                ),
        },
{
    let ghost pv = pairs_view(entries@);
    let mut i: usize = entries.len();
    while i > 0
        invariant
            i <= entries@.len(),
            pv == pairs_view(entries@),
            forall|j: int| i <= j < entries@.len() ==> (#[trigger] pv[j]).0 != Dyn::Str(key@),
        decreases i,
    {
        i = i - 1;
        let found = match &entries[i].0 {
            DynValue::Str(s) => *s == *key,
            _ => false,
        };
        if found {
            return Some(i);
        }
    }
    None
}

/// Looks up `key` in entries that denote a string-keyed mapping.
pub fn get_field<'a>(entries: &'a Vec<(DynValue, DynValue)>, key: &String) -> (r: Option<
    &'a DynValue,
>)
    ensures
        match r {
            Some(v) => lookup(entries_map(pairs_view(entries@)), key@) == Some(v@),
            None => lookup(entries_map(pairs_view(entries@)), key@) is None,
        },
{
    match find_key(entries, key) {
        Some(i) => {
            proof {
                lemma_entries_map_last(pairs_view(entries@), i as int, key@);
            }
            Some(&entries[i].1)
        },
        None => {
            proof {
                lemma_entries_map_absent(pairs_view(entries@), key@);
            }
            None
        },
    }
}

/// Sets `key` to `value` in entries with unique string keys, replacing the entry
/// with that key if there is one.
pub fn set_field(entries: &mut Vec<(DynValue, DynValue)>, key: String, value: DynValue)
    requires
        string_keys(pairs_view(old(entries)@)),
        unique_keys(pairs_view(old(entries)@)),
    ensures
        string_keys(pairs_view(final(entries)@)),
        unique_keys(pairs_view(final(entries)@)),
        entries_map(pairs_view(final(entries)@)) == entries_map(pairs_view(old(entries)@)).insert(
            key@,
            value@,
        ),
{
    let ghost e0 = pairs_view(entries@);
    let ghost k = key@;
    let ghost v = value@;
    match find_key(entries, &key) {
        Some(i) => {
            entries.set(i, (DynValue::Str(key), value));
            proof {
                assert(pairs_view(entries@) =~= e0.update(i as int, (Dyn::Str(k), v)));
                lemma_entries_map_update(e0, i as int, k, v);
            }
        },
        None => {
            entries.push((DynValue::Str(key), value));
            proof {
                let e1 = pairs_view(entries@);
                assert(e1.drop_last() =~= e0);
                assert(e1.last() == (Dyn::Str(k), v));
                assert forall|a: int, b: int| 0 <= a < b < e1.len() implies (#[trigger] e1[a]).0
                    != (#[trigger] e1[b]).0 by {
                    if b == e1.len() - 1 {
                        assert(e1[a] == e0[a]);
                    } else {
                        assert(e1[a] == e0[a] && e1[b] == e0[b]);
                    }
                }
                assert forall|a: int| 0 <= a < e1.len() implies (#[trigger] e1[a]).0 is Str by {
                    if a < e0.len() {
                        assert(e1[a] == e0[a]);
                    }
                }
            }
        },
    }
}

/// `v` clamped into the range of `i64`.
pub open spec fn clamp_i64(v: int) -> int {
    if v < i64::MIN {
        i64::MIN as int
    } else if v > i64::MAX {
        i64::MAX as int
    } else {
        v
    }
}

/// The binary64 number with bit pattern `bits`, rounded toward zero to an integer and
/// saturated to the range of `i64`; a NaN gives 0.
pub open spec fn float_bits_trunc(bits: u64) -> int {
    let neg = bits >= 0x8000_0000_0000_0000u64;
    let exp = (bits / 0x10_0000_0000_0000u64) % 0x800u64;
    let frac = bits % 0x10_0000_0000_0000u64;
    if exp == 0x7ff {
        if frac != 0 {
            0
        } else if neg {
            i64::MIN as int
        } else {
            i64::MAX as int
        }
    } else if exp < 1023 {
        0
    } else {
        let sig = frac + 0x10_0000_0000_0000;
        let mag = if exp >= 1075 {
            sig * pow2((exp - 1075) as nat)
        } else {
            sig / pow2((1075 - exp) as nat) as int
        };
        clamp_i64(
            if neg {
                -mag
            } else {
                mag
            },
        )
    }
}

impl NumberValue {
    /// The number rounded toward zero to an integer, saturated to the range of `i64`.
    pub open spec fn spec_truncate(&self) -> int {
        match self {
            NumberValue::Int(i) => *i as int,
            NumberValue::UInt(u) => clamp_i64(*u as int),
            NumberValue::Float(bits) => float_bits_trunc(*bits),
        }
    }

    /// The number rounded toward zero to an integer, saturated to the range of `i64`.
    pub fn truncate(&self) -> (r: i64)
        ensures
            r == self.spec_truncate(),
    {
        match self {
            NumberValue::Int(i) => *i,
            NumberValue::UInt(u) => {
                if *u > i64::MAX as u64 {
                    i64::MAX
                } else {
                    *u as i64
                }
            },
            NumberValue::Float(bits) => truncate_float_bits(*bits),
        }
    }
}

fn truncate_float_bits(bits: u64) -> (r: i64)
    ensures
        r == float_bits_trunc(bits),
{
    let exp: u64 = (bits >> 52u64) & 0x7ffu64;
    let frac: u64 = bits & 0xf_ffff_ffff_ffffu64;
    let neg: bool = bits >= 0x8000_0000_0000_0000u64;
    assert(((bits >> 52u64) & 0x7ffu64) == (bits / 0x10_0000_0000_0000u64) % 0x800u64) by (
    bit_vector);
    assert((bits & 0xf_ffff_ffff_ffffu64) == bits % 0x10_0000_0000_0000u64) by (bit_vector);
    if exp == 0x7ff {
        if frac != 0 {
            0
        } else if neg {
            i64::MIN
        } else {
            i64::MAX
        }
    } else if exp < 1023 {
        0
    } else if exp >= 1086 {
        proof {
            let sig = frac + 0x10_0000_0000_0000;
            if exp - 1075 > 11 {
                lemma_pow2_strictly_increases(11, (exp - 1075) as nat);
            }
            vstd::arithmetic::power2::lemma2_to64();
            assert(sig * pow2((exp - 1075) as nat) >= 0x10_0000_0000_0000 * 2048) by (
            nonlinear_arith)
                requires
                    sig >= 0x10_0000_0000_0000,
                    pow2((exp - 1075) as nat) >= 2048,
            ;
        }
        if neg {
            i64::MIN
        } else {
            i64::MAX
        }
    } else {
        let sig: u64 = frac + 0x10_0000_0000_0000u64;
        let mag: u64;
        if exp >= 1075 {
            let shift: u64 = exp - 1075;
            proof {
                if shift < 10 {
                    lemma_pow2_strictly_increases(shift as nat, 10);
                }
                vstd::arithmetic::power2::lemma2_to64();
                vstd::arithmetic::power2::lemma_pow2_pos(shift as nat);
                assert(sig * pow2(shift as nat) < 0x20_0000_0000_0000 * 1024) by (
                nonlinear_arith)
                    requires
                        sig < 0x20_0000_0000_0000,
                        0 < pow2(shift as nat) <= 1024,
                ;
                lemma_u64_shl_is_mul(sig, shift);
            }
            mag = sig << shift;
        } else {
            let shift: u64 = 1075 - exp;
            proof {
                lemma_u64_shr_is_div(sig, shift);
                assert(sig as nat / pow2(shift as nat) <= sig) by {
                    vstd::arithmetic::power2::lemma_pow2_pos(shift as nat);
                    vstd::arithmetic::div_mod::lemma_div_is_ordered_by_denominator(
                        sig as int,
                        1,
                        pow2(shift as nat) as int,
                    );
                }
            }
            mag = sig >> shift;
        }
        if neg {
            -(mag as i64)
        } else {
            mag as i64
        }
    }
}

} // verus!
