use vstd::prelude::*;
use vstd::std_specs::iter::IteratorSpec;
use vstd::string::StrSliceExecFns;

verus! {

broadcast use vstd::string::group_string_axioms;

/// A character with the Unicode White_Space property, which `char::is_whitespace`
/// tests: the 25 code points U+0009 to U+000D, U+0020, U+0085, U+00A0, U+1680,
/// U+2000 to U+200A, U+2028, U+2029, U+202F, U+205F and U+3000.
pub open spec fn is_white_space(c: char) -> bool {
    let n = c as int;
    ||| 0x09 <= n <= 0x0d
    ||| n == 0x20
    ||| n == 0x85
    ||| n == 0xa0
    ||| n == 0x1680
    ||| 0x2000 <= n <= 0x200a
    ||| n == 0x2028
    ||| n == 0x2029
    ||| n == 0x202f
    ||| n == 0x205f
    ||| n == 0x3000
}

/// `s` without its leading white space.
pub open spec fn trim_start(s: Seq<char>) -> Seq<char>
    decreases s.len(),
{
    if s.len() > 0 && is_white_space(s[0]) {
        trim_start(s.drop_first())
    } else {
        s
    }
}

/// `s` without its trailing white space.
pub open spec fn trim_end(s: Seq<char>) -> Seq<char>
    decreases s.len(),
{
    if s.len() > 0 && is_white_space(s.last()) {
        trim_end(s.drop_last())
    } else {
        s
    }
}

/// What `str::trim` leaves of a string: the string without its leading and trailing
/// white space.
pub open spec fn trimmed(s: Seq<char>) -> Seq<char> {
    trim_end(trim_start(s))
}

/// Relies on `str::trim`, documented to return the text with leading and trailing white
/// space (the White_Space property) removed.
#[verifier::external_body]
pub(crate) fn trim(s: &str) -> (r: String)
    ensures
        r@ == trimmed(s@),
{
    s.trim().to_string()
}

/// The characters of `s`, in order.
pub fn chars_of(s: &str) -> (r: Vec<char>)
    ensures
        r@ == s@,
{
    let mut out: Vec<char> = Vec::new();
    for c in iter: s.chars()
        invariant
            iter.seq() == s@,
            out@ == iter.seq().take(iter.index() as int),
    {
        proof {
            assert(iter.seq().take(iter.index() + 1) =~= out@.push(c));
        }
        out.push(c);
    }
    proof {
        assert(out@ =~= s@);
    }
    out
}

/// The pieces of `s` between commas, in order: one more piece than there are commas.
pub open spec fn comma_pieces(s: Seq<char>) -> Seq<Seq<char>>
    decreases s.len(),
{
    if s.len() == 0 {
        seq![Seq::empty()]
    } else {
        let p = comma_pieces(s.drop_last());
        if s.last() == ',' {
            p.push(Seq::empty())
        } else {
            p.update(p.len() - 1, p.last().push(s.last()))
        }
    }
}

/// The pieces trimmed of white space, those left empty dropped.
pub open spec fn kept_pieces(p: Seq<Seq<char>>) -> Seq<Seq<char>>
    decreases p.len(),
{
    if p.len() == 0 {
        Seq::empty()
    } else {
        let r = kept_pieces(p.drop_last());
        if p.last().len() > 0 && trimmed(p.last()).len() > 0 {
            r.push(trimmed(p.last()))
        } else {
            r
        }
    }
}

/// The items of a comma-separated list: split on commas, each piece trimmed, empty
/// pieces dropped.
pub open spec fn list_items(s: Seq<char>) -> Seq<Seq<char>> {
    kept_pieces(comma_pieces(s))
}

/// Splits `s` on commas, trims each piece and keeps the pieces that are not empty.
pub fn split_list(s: &str) -> (r: Vec<String>)
    ensures
        r@.len() == list_items(s@).len(),
        forall|i: int| 0 <= i < r@.len() ==> (#[trigger] r@[i])@ == list_items(s@)[i],
{
    let cs = chars_of(s);
    let n = cs.len();
    let mut out: Vec<String> = Vec::new();
    let mut start: usize = 0;
    let mut i: usize = 0;
    let ghost mut done: Seq<Seq<char>> = Seq::empty();
    proof {
        assert(s@.subrange(0, 0) =~= Seq::<char>::empty());
        assert(done.push(s@.subrange(0, 0)) =~= seq![Seq::<char>::empty()]);
    }
    while i < n
        invariant
            cs@ == s@,
            n == cs@.len(),
            start <= i <= n,
            comma_pieces(s@.subrange(0, i as int)) == done.push(s@.subrange(start as int, i as int)),
            out@.len() == kept_pieces(done).len(),
            forall|j: int| 0 <= j < out@.len() ==> (#[trigger] out@[j])@ == kept_pieces(done)[j],
        decreases n - i,
    {
        let ghost pre = s@.subrange(0, i as int);
        let ghost cur = s@.subrange(start as int, i as int);
        assert(s@.subrange(0, i + 1).drop_last() =~= pre);
        assert(s@.subrange(0, i + 1).last() == s@[i as int]);
        if cs[i] == ',' {
            let piece = s.substring_char(start, i);
            let ghost old_done = done;
            proof {
                done = done.push(cur);
                assert(done.drop_last() =~= old_done);
                assert(done.last() == cur);
                assert(s@.subrange(i + 1, i + 1) =~= Seq::<char>::empty());
                assert(comma_pieces(s@.subrange(0, i + 1)) =~= done.push(
                    s@.subrange(i + 1, i + 1),
                ));
            }
            if !piece.is_empty() {
                let t = trim(piece);
                if !t.as_str().is_empty() {
                    out.push(t);
                }
            }
            start = i + 1;
        } else {
            proof {
                assert(cur.push(s@[i as int]) =~= s@.subrange(start as int, i + 1));
                assert(comma_pieces(s@.subrange(0, i + 1)) =~= done.push(
                    s@.subrange(start as int, i + 1),
                ));
            }
        }
        i = i + 1;
    }
    let piece = s.substring_char(start, n);
    let ghost old_done = done;
    proof {
        assert(s@.subrange(0, n as int) =~= s@);
        done = done.push(s@.subrange(start as int, n as int));
        assert(done.drop_last() =~= old_done);
        assert(comma_pieces(s@) == done);
    }
    if !piece.is_empty() {
        let t = trim(piece);
        if !t.as_str().is_empty() {
            out.push(t);
        }
    }
    out
}

} // verus!
