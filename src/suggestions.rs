use crate::frontmatter::{block_from_yaml, extract_frontmatter, frontmatter_of};
use crate::text::chars_of;
use crate::value::{
    as_object, entries_map, lemma_entries_map_absent, pairs_view, string_keys, unique_keys, Dyn,
    DynValue,
};
use vstd::prelude::*;

verus! {

/// One observed value of a field, with the number of times it was seen.
#[derive(Clone, Debug)]
pub struct FrontmatterSuggestion {
    pub value: String,
    pub count: usize,
}

/// The observed values of each field, ranked by descending count.
#[derive(Clone, Debug)]
pub struct FrontmatterSuggestions {
    pub field_suggestions: Vec<(String, Vec<FrontmatterSuggestion>)>,
}

/// How many items of `items` are the string `v`.
pub open spec fn str_count(items: Seq<Dyn>, v: Seq<char>) -> nat
    decreases items.len(),
{
    if items.len() == 0 {
        0
    } else {
        str_count(items.drop_last(), v) + if items.last() == Dyn::Str(v) {
            1nat
        } else {
            0nat
        }
    }
}

/// How many times a field value counts as an occurrence of `v`: once when it is the
/// string `v`, once per item `v` when it is a list, and never otherwise.
pub open spec fn value_occurrences(d: Dyn, v: Seq<char>) -> nat {
    match d {
        Dyn::Str(s) => if s == v {
            1nat
        } else {
            0nat
        },
        Dyn::List(items) => str_count(items, v),
        _ => 0,
    }
}

/// How many times field `f` of a metadata block holds the value `v`.
pub open spec fn block_occurrences(block: Map<Seq<char>, Dyn>, f: Seq<char>, v: Seq<char>) -> nat {
    if block.dom().contains(f) {
        value_occurrences(block[f], v)
    } else {
        0
    }
}

/// `n` saturated at `usize::MAX`.
pub open spec fn sat(n: nat) -> nat {
    if n > usize::MAX {
        usize::MAX as nat
    } else {
        n
    }
}

/// The count recorded for the pair `(f, v)`; a later record replaces an earlier one.
pub open spec fn count_in(s: Seq<(String, String, usize)>, f: Seq<char>, v: Seq<char>) -> nat
    decreases s.len(),
{
    if s.len() == 0 {
        0
    } else if s.last().0@ == f && s.last().1@ == v {
        s.last().2 as nat
    } else {
        count_in(s.drop_last(), f, v)
    }
}

proof fn lemma_count_in_bounded(s: Seq<(String, String, usize)>, f: Seq<char>, v: Seq<char>)
    ensures
        count_in(s, f, v) <= usize::MAX,
    decreases s.len(),
{
    if s.len() > 0 {
        lemma_count_in_bounded(s.drop_last(), f, v);
    }
}

proof fn lemma_count_in_at(s: Seq<(String, String, usize)>, i: int)
    requires
        0 <= i < s.len(),
        forall|a: int, b: int|
            0 <= a < b < s.len() ==> !((#[trigger] s[a]).0@ == (#[trigger] s[b]).0@ && s[a].1@
                == s[b].1@),
    ensures
        count_in(s, s[i].0@, s[i].1@) == s[i].2,
    decreases s.len(),
{
    if i < s.len() - 1 {
        let p = s.drop_last();
        assert forall|a: int, b: int| 0 <= a < b < p.len() implies !((#[trigger] p[a]).0@ == (
        #[trigger] p[b]).0@ && p[a].1@ == p[b].1@) by {
            assert(p[a] == s[a] && p[b] == s[b]);
        }
        assert(s.last() == s[s.len() - 1]);
        assert(p[i] == s[i]);
        lemma_count_in_at(p, i);
    }
}

proof fn lemma_count_in_absent(s: Seq<(String, String, usize)>, f: Seq<char>, v: Seq<char>)
    requires
        forall|a: int| 0 <= a < s.len() ==> !((#[trigger] s[a]).0@ == f && s[a].1@ == v),
    ensures
        count_in(s, f, v) == 0,
    decreases s.len(),
{
    if s.len() > 0 {
        let p = s.drop_last();
        assert forall|a: int| 0 <= a < p.len() implies !((#[trigger] p[a]).0@ == f && p[a].1@
            == v) by {
            assert(p[a] == s[a]);
        }
        assert(s.last() == s[s.len() - 1]);
        lemma_count_in_absent(p, f, v);
    }
}

proof fn lemma_count_in_update(
    s: Seq<(String, String, usize)>,
    i: int,
    e: (String, String, usize),
    f: Seq<char>,
    v: Seq<char>,
)
    requires
        0 <= i < s.len(),
        e.0@ == s[i].0@ && e.1@ == s[i].1@,
        forall|a: int, b: int|
            0 <= a < b < s.len() ==> !((#[trigger] s[a]).0@ == (#[trigger] s[b]).0@ && s[a].1@
                == s[b].1@),
    ensures
        count_in(s.update(i, e), f, v) == if f == e.0@ && v == e.1@ {
            e.2 as nat
        } else {
            count_in(s, f, v)
        },
    decreases s.len(),
{
    let u = s.update(i, e);
    if f == e.0@ && v == e.1@ {
        assert forall|a: int, b: int| 0 <= a < b < u.len() implies !((#[trigger] u[a]).0@ == (
        #[trigger] u[b]).0@ && u[a].1@ == u[b].1@) by {
            if a != i && b != i {
                assert(u[a] == s[a] && u[b] == s[b]);
            } else if a == i {
                assert(u[b] == s[b]);
            } else {
                assert(u[a] == s[a]);
            }
        }
        lemma_count_in_at(u, i);
    } else if i == s.len() - 1 {
        assert(u.drop_last() =~= s.drop_last());
        assert(s.last() == s[i]);
    } else {
        let p = s.drop_last();
        assert(u.drop_last() =~= p.update(i, e));
        assert forall|a: int, b: int| 0 <= a < b < p.len() implies !((#[trigger] p[a]).0@ == (
        #[trigger] p[b]).0@ && p[a].1@ == p[b].1@) by {
            assert(p[a] == s[a] && p[b] == s[b]);
        }
        assert(p[i] == s[i]);
        lemma_count_in_update(p, i, e, f, v);
        assert(u.last() == s.last());
    }
}

/// A file name whose extension is `md`: it ends in `.md`, with at least one character
/// before the dot.
pub open spec fn is_markdown_name(name: Seq<char>) -> bool {
    name.len() >= 4 && name.subrange(name.len() - 3, name.len() as int) == seq!['.', 'm', 'd']
}

/// Whether a file, by its name, belongs to the corpus.
pub fn is_markdown_file(name: &str) -> (r: bool)
    ensures
        r == is_markdown_name(name@),
{
    let cs = chars_of(name);
    let n = cs.len();
    if n < 4 {
        return false;
    }
    let r = cs[n - 3] == '.' && cs[n - 2] == 'm' && cs[n - 1] == 'd';
    proof {
        let t = name@.subrange(n - 3, n as int);
        if r {
            assert(t =~= seq!['.', 'm', 'd']);
        } else {
            if t == seq!['.', 'm', 'd'] {
                assert(t[0] == name@[n - 3] && t[1] == name@[n - 2] && t[2] == name@[n - 1]);
            }
        }
    }
    r
}

/// A running tally of the values seen for each field across a corpus of documents.
pub struct SuggestionTally {
    fields: Vec<String>,
    counts: Vec<(String, String, usize)>,
}

impl SuggestionTally {
    /// The fields seen so far.
    pub closed spec fn fields_seen(&self) -> Set<Seq<char>> {
        Set::new(|f: Seq<char>| exists|i: int| 0 <= i < self.fields@.len() && (#[trigger] self.fields@[i])@ == f)
    }

    /// How many times field `f` was seen holding `v`, saturated at `usize::MAX`.
    pub closed spec fn count(&self, f: Seq<char>, v: Seq<char>) -> nat {
        count_in(self.counts@, f, v)
    }

    pub closed spec fn wf(&self) -> bool {
        &&& forall|a: int, b: int|
            0 <= a < b < self.fields@.len() ==> (#[trigger] self.fields@[a])@ != (
            #[trigger] self.fields@[b])@
        &&& forall|a: int, b: int|
            0 <= a < b < self.counts@.len() ==> !((#[trigger] self.counts@[a]).0@ == (
            #[trigger] self.counts@[b]).0@ && self.counts@[a].1@ == self.counts@[b].1@)
        &&& forall|a: int|
            0 <= a < self.counts@.len() ==> (#[trigger] self.counts@[a]).2 > 0
                && self.fields_seen().contains(self.counts@[a].0@)
    }

    /// An empty tally.
    pub fn new() -> (r: SuggestionTally)
        ensures
            r.wf(),
            r.fields_seen() == Set::<Seq<char>>::empty(),
            forall|f: Seq<char>, v: Seq<char>| r.count(f, v) == 0,
    {
        let r = SuggestionTally { fields: Vec::new(), counts: Vec::new() };
        assert(r.fields_seen() =~= Set::<Seq<char>>::empty());
        r
    }

    fn note_field(&mut self, f: &String)
        requires
            old(self).wf(),
        ensures
            final(self).wf(),
            final(self).fields_seen() == old(self).fields_seen().insert(f@),
            final(self).counts@ == old(self).counts@,
    {
        let mut i: usize = 0;
        while i < self.fields.len()
            invariant
                i <= self.fields@.len(),
                self.fields@ == old(self).fields@,
                self.counts@ == old(self).counts@,
                old(self).wf(),
                forall|a: int| 0 <= a < i ==> (#[trigger] self.fields@[a])@ != f@,
            decreases self.fields@.len() - i,
        {
            if self.fields[i] == *f {
                assert(self.fields_seen().insert(f@) =~= self.fields_seen());
                return ;
            }
            i = i + 1;
        }
        let ghost before = self.fields_seen();
        self.fields.push(f.clone());
        assert(self.fields_seen() =~= before.insert(f@)) by {
            assert(self.fields@.last() == self.fields@[self.fields@.len() - 1]);
            assert forall|g: Seq<char>| before.contains(g) implies self.fields_seen().contains(g) by {
                let j = choose|j: int| 0 <= j < old(self).fields@.len() && (#[trigger] old(self).fields@[j])@ == g;
                assert(self.fields@[j] == old(self).fields@[j]);
            }
            assert forall|g: Seq<char>| self.fields_seen().contains(g) implies before.insert(f@).contains(g) by {
                let j = choose|j: int| 0 <= j < self.fields@.len() && (#[trigger] self.fields@[j])@ == g;
                if j < old(self).fields@.len() {
                    assert(self.fields@[j] == old(self).fields@[j]);
                }
            }
        }
    }

    fn bump(&mut self, f: &String, v: &String)
        requires
            old(self).wf(),
            old(self).fields_seen().contains(f@),
        ensures
            final(self).wf(),
            final(self).fields_seen() == old(self).fields_seen(),
            forall|g: Seq<char>, w: Seq<char>|
                #[trigger] final(self).count(g, w) == if g == f@ && w == v@ {
                    sat(old(self).count(g, w) + 1)
                } else {
                    old(self).count(g, w)
                },
    {
        let ghost s = self.counts@;
        let mut i: usize = 0;
        while i < self.counts.len()
            invariant
                i <= self.counts@.len(),
                s == old(self).counts@,
                self.counts@ == old(self).counts@,
                self.fields@ == old(self).fields@,
                old(self).wf(),
                old(self).fields_seen().contains(f@),
                forall|a: int|
                    0 <= a < i ==> !((#[trigger] self.counts@[a]).0@ == f@ && self.counts@[a].1@
                        == v@),
            decreases self.counts@.len() - i,
        {
            if self.counts[i].0 == *f && self.counts[i].1 == *v {
                let c = self.counts[i].2;
                let nc = if c < usize::MAX {
                    c + 1
                } else {
                    c
                };
                let e = (self.counts[i].0.clone(), self.counts[i].1.clone(), nc);
                proof {
                    lemma_count_in_at(s, i as int);
                    assert forall|g: Seq<char>, w: Seq<char>| #[trigger]
                        count_in(s.update(i as int, e), g, w) == if g == f@ && w == v@ {
                            sat(count_in(s, g, w) + 1)
                        } else {
                            count_in(s, g, w)
                        } by {
                        lemma_count_in_update(s, i as int, e, g, w);
                    }
                }
                self.counts.set(i, e);
                proof {
                    assert(self.counts@ == s.update(i as int, e));
                    assert(self.fields_seen() =~= old(self).fields_seen());
                    assert forall|a: int| 0 <= a < self.counts@.len() implies (
                    #[trigger] self.counts@[a]).2 > 0 && self.fields_seen().contains(
                        self.counts@[a].0@,
                    ) by {
                        if a != i {
                            assert(self.counts@[a] == s[a]);
                        }
                    }
                    assert forall|a: int, b: int| 0 <= a < b < self.counts@.len() implies !((
                    #[trigger] self.counts@[a]).0@ == (#[trigger] self.counts@[b]).0@
                        && self.counts@[a].1@ == self.counts@[b].1@) by {
                        if a != i && b != i {
                            assert(self.counts@[a] == s[a] && self.counts@[b] == s[b]);
                        } else if a == i {
                            assert(self.counts@[b] == s[b]);
                        } else {
                            assert(self.counts@[a] == s[a]);
                        }
                    }
                }
                return ;
            }
            i = i + 1;
        }
        let e = (f.clone(), v.clone(), 1usize);
        self.counts.push(e);
        proof {
            lemma_count_in_absent(s, f@, v@);
            let t = self.counts@;
            assert(t.drop_last() =~= s);
            assert(t.last() == e);
            assert(self.fields_seen() =~= old(self).fields_seen());
            assert forall|a: int| 0 <= a < t.len() implies (#[trigger] t[a]).2 > 0
                && self.fields_seen().contains(t[a].0@) by {
                if a < s.len() {
                    assert(t[a] == s[a]);
                }
            }
            assert forall|a: int, b: int| 0 <= a < b < t.len() implies !((#[trigger] t[a]).0@ == (
            #[trigger] t[b]).0@ && t[a].1@ == t[b].1@) by {
                assert(t[a] == s[a]);
                if b < s.len() {
                    assert(t[b] == s[b]);
                }
            }
        }
    }

    fn add_entry(&mut self, k: &String, val: &DynValue)
        requires
            old(self).wf(),
        ensures
            final(self).wf(),
            final(self).fields_seen() == old(self).fields_seen().insert(k@),
            forall|f: Seq<char>, v: Seq<char>|
                #[trigger] final(self).count(f, v) == sat(
                    old(self).count(f, v) + if f == k@ {
                        value_occurrences(val@, v)
                    } else {
                        0nat
                    },
                ),
    {
        self.note_field(k);
        let ghost noted = *self;
        proof {
            assert forall|f: Seq<char>, v: Seq<char>| #[trigger] self.count(f, v) == old(self).count(f, v) by {}
        }
        match val {
            DynValue::Str(s) => {
                self.bump(k, s);
                proof {
                    assert forall|f: Seq<char>, v: Seq<char>| #[trigger] self.count(f, v) == sat(
                        old(self).count(f, v) + if f == k@ {
                            value_occurrences(val@, v)
                        } else {
                            0nat
                        },
                    ) by {
                        lemma_count_in_bounded(old(self).counts@, f, v);
                        assert(noted.count(f, v) == old(self).count(f, v));
                    }
                }
            },
            DynValue::List(items) => {
                let ghost iv = val@->List_0;
                let mut m: usize = 0;
                proof {
                    assert(iv.take(0) =~= Seq::<Dyn>::empty());
                    assert forall|f: Seq<char>, v: Seq<char>| #[trigger] self.count(f, v) == sat(
                        old(self).count(f, v) + if f == k@ {
                            str_count(iv.take(0), v)
                        } else {
                            0nat
                        },
                    ) by {
                        lemma_count_in_bounded(old(self).counts@, f, v);
                    }
                }
                while m < items.len()
                    invariant
                        m <= items@.len(),
                        val@ == DynValue::List(*items)@,
                        iv == val@->List_0,
                        self.wf(),
                        self.fields_seen() == old(self).fields_seen().insert(k@),
                        forall|f: Seq<char>, v: Seq<char>|
                            #[trigger] self.count(f, v) == sat(
                                old(self).count(f, v) + if f == k@ {
                                    str_count(iv.take(m as int), v)
                                } else {
                                    0nat
                                },
                            ),
                    decreases items@.len() - m,
                {
                    proof {
                        assert(iv.take(m + 1).drop_last() =~= iv.take(m as int));
                        assert(iv.take(m + 1).last() == items@[m as int]@);
                    }
                    match &items[m] {
                        DynValue::Str(s) => {
                            self.bump(k, s);
                        },
                        _ => {},
                    }
                    m = m + 1;
                }
                proof {
                    assert(iv.take(m as int) =~= iv);
                }
            },
            _ => {
                proof {
                    assert forall|f: Seq<char>, v: Seq<char>| #[trigger] self.count(f, v) == sat(
                        old(self).count(f, v) + if f == k@ {
                            value_occurrences(val@, v)
                        } else {
                            0nat
                        },
                    ) by {
                        lemma_count_in_bounded(old(self).counts@, f, v);
                    }
                }
            },
        }
    }

    /// Adds one metadata block: each string key of it is noted as a field, and each
    /// string value, or string item of a list value, is counted once for its field; a
    /// later entry replaces an earlier one with the same key. A value that is not a
    /// mapping changes nothing.
    pub fn add_block(&mut self, block: &DynValue)
        requires
            old(self).wf(),
        ensures
            final(self).wf(),
            match block@ {
                Dyn::Mapping(e) => {
                    &&& final(self).fields_seen() == old(self).fields_seen().union(entries_map(e).dom())
                    &&& forall|f: Seq<char>, v: Seq<char>|
                        #[trigger] final(self).count(f, v) == sat(
                            old(self).count(f, v) + block_occurrences(entries_map(e), f, v),
                        )
                },
                _ => {
                    &&& final(self).fields_seen() == old(self).fields_seen()
                    &&& forall|f: Seq<char>, v: Seq<char>|
                        #[trigger] final(self).count(f, v) == old(self).count(f, v)
                },
            },
    {
        let normalized = match block_from_yaml(Some(block.deep_clone())) {
            Some(b) => b,
            None => {
                proof {
                    assert(!(block@ is Mapping));
                }
                return ;
            },
        };
        let entries = match normalized {
            DynValue::Mapping(e) => e,
            _ => {
                return ;
            },
        };
        let ghost ev = pairs_view(entries@);
        proof {
            assert(DynValue::Mapping(entries)@->Mapping_0 =~= ev);
            assert(entries_map(ev) == entries_map(block@->Mapping_0));
            assert(ev.take(0) =~= Seq::<(Dyn, Dyn)>::empty());
            assert(old(self).fields_seen().union(Set::<Seq<char>>::empty()) =~= old(self).fields_seen());
            assert forall|f: Seq<char>, v: Seq<char>| #[trigger] self.count(f, v) == sat(
                old(self).count(f, v) + block_occurrences(entries_map(ev.take(0)), f, v),
            ) by {
                lemma_count_in_bounded(self.counts@, f, v);
            }
        }
        let mut j: usize = 0;
        while j < entries.len()
            invariant
                j <= entries@.len(),
                ev == pairs_view(entries@),
                string_keys(ev),
                unique_keys(ev),
                self.wf(),
                self.fields_seen() == old(self).fields_seen().union(entries_map(ev.take(j as int)).dom()),
                forall|f: Seq<char>, v: Seq<char>|
                    #[trigger] self.count(f, v) == sat(
                        old(self).count(f, v) + block_occurrences(entries_map(ev.take(j as int)), f, v),
                    ),
            decreases entries@.len() - j,
        {
            let ghost pre = entries_map(ev.take(j as int));
            let ghost next = entries_map(ev.take(j + 1));
            let ghost mid = *self;
            proof {
                assert(ev.take(j + 1).drop_last() =~= ev.take(j as int));
                assert(ev.take(j + 1).last() == ev[j as int]);
                assert(ev[j as int].0 is Str);
                let k = ev[j as int].0->Str_0;
                assert(next == pre.insert(k, ev[j as int].1));
                assert forall|a: int| 0 <= a < ev.take(j as int).len() implies (#[trigger] ev.take(j as int)[a]).0 != Dyn::Str(k) by {
                    assert(ev.take(j as int)[a] == ev[a]);
                }
                lemma_entries_map_absent(ev.take(j as int), k);
            }
            match &entries[j].0 {
                DynValue::Str(k) => {
                    self.add_entry(k, &entries[j].1);
                    proof {
                        assert(self.fields_seen() =~= old(self).fields_seen().union(next.dom()));
                        assert forall|f: Seq<char>, v: Seq<char>| #[trigger] self.count(f, v) == sat(
                            old(self).count(f, v) + block_occurrences(next, f, v),
                        ) by {
                            assert(mid.count(f, v) == sat(old(self).count(f, v) + block_occurrences(pre, f, v)));
                            if f == k@ {
                                assert(block_occurrences(next, f, v) == block_occurrences(pre, f, v) + value_occurrences(entries@[j as int].1@, v));
                            } else {
                                assert(block_occurrences(next, f, v) == block_occurrences(pre, f, v));
                            }
                        }
                    }
                },
                _ => {},
            }
            j = j + 1;
        }
        proof {
            assert(ev.take(j as int) =~= ev);
        }
    }

    /// Adds one document of the corpus: its metadata block, when it has one that reads
    /// as a YAML mapping (see `add_block`); any other document changes nothing.
    pub fn add_document(&mut self, content: &str)
        requires
            old(self).wf(),
        ensures
            final(self).wf(),
            match frontmatter_of(content@) {
                Some(block) => {
                    &&& final(self).fields_seen() == old(self).fields_seen().union(block.dom())
                    &&& forall|f: Seq<char>, v: Seq<char>|
                        #[trigger] final(self).count(f, v) == sat(
                            old(self).count(f, v) + block_occurrences(block, f, v),
                        )
                },
                None => {
                    &&& final(self).fields_seen() == old(self).fields_seen()
                    &&& forall|f: Seq<char>, v: Seq<char>|
                        #[trigger] final(self).count(f, v) == old(self).count(f, v)
                },
            },
    {
        match extract_frontmatter(content) {
            Some(b) => {
                self.add_block(&b);
            },
            None => {
                proof {
                    assert(self.fields_seen() =~= old(self).fields_seen());
                }
            },
        }
    }
    /// `list` ranks the values seen for field `f`: each once, with its count, by
    /// descending count.
    pub open spec fn ranks(&self, f: Seq<char>, list: Seq<FrontmatterSuggestion>) -> bool {
        &&& forall|a: int, b: int|
            0 <= a < b < list.len() ==> (#[trigger] list[a]).count >= (#[trigger] list[b]).count
        &&& forall|a: int, b: int|
            0 <= a < b < list.len() ==> (#[trigger] list[a]).value@ != (#[trigger] list[b]).value@
        &&& forall|a: int|
            0 <= a < list.len() ==> (#[trigger] list[a]).count > 0 && list[a].count == self.count(
                f,
                list[a].value@,
            )
        &&& forall|v: Seq<char>|
            #[trigger] self.count(f, v) > 0 ==> exists|a: int|
                0 <= a < list.len() && (#[trigger] list[a]).value@ == v
    }

    fn rank_field(&self, f: &String) -> (list: Vec<FrontmatterSuggestion>)
        requires
            self.wf(),
        ensures
            self.ranks(f@, list@),
    {
        let cs = &self.counts;
        let mut list: Vec<FrontmatterSuggestion> = Vec::new();
        let ghost mut src: Seq<int> = Seq::empty();
        let mut i: usize = 0;
        while i < cs.len()
            invariant
                cs == &self.counts,
                self.wf(),
                i <= cs@.len(),
                src.len() == list@.len(),
                forall|a: int, b: int|
                    0 <= a < b < list@.len() ==> (#[trigger] list@[a]).count >= (
                    #[trigger] list@[b]).count,
                forall|a: int|
                    0 <= a < list@.len() ==> 0 <= #[trigger] src[a] < i && cs@[src[a]].0@ == f@
                        && cs@[src[a]].1@ == list@[a].value@ && cs@[src[a]].2 == list@[a].count,
                forall|a: int, b: int| 0 <= a < b < list@.len() ==> #[trigger] src[a] != #[trigger] src[b],
                forall|c: int|
                    0 <= c < i && (#[trigger] cs@[c]).0@ == f@ ==> exists|a: int|
                        0 <= a < list@.len() && #[trigger] src[a] == c,
            decreases cs@.len() - i,
        {
            if cs[i].0 == *f {
                let c = cs[i].2;
                let mut p: usize = 0;
                while p < list.len() && list[p].count >= c
                    invariant
                        p <= list@.len(),
                        forall|a: int| 0 <= a < p ==> (#[trigger] list@[a]).count >= c,
                    decreases list@.len() - p,
                {
                    p = p + 1;
                }
                let ghost old_list = list@;
                let ghost old_src = src;
                let item = FrontmatterSuggestion { value: cs[i].1.clone(), count: c };
                list.insert(p, item);
                proof {
                    src = src.insert(p as int, i as int);
                    old_list.insert_ensures(p as int, item);
                    old_src.insert_ensures(p as int, i as int);
                    assert forall|a: int| p <= a < old_list.len() implies (#[trigger] old_list[a]).count < c by {
                        if a > p {
                            assert(old_list[p as int].count >= old_list[a].count);
                        }
                    }
                    assert forall|a: int, b: int|
                        0 <= a < b < list@.len() implies (#[trigger] list@[a]).count >= (
                        #[trigger] list@[b]).count by {
                        if a < p && b < p {
                            assert(list@[a] == old_list[a] && list@[b] == old_list[b]);
                        } else if a < p && b == p {
                            assert(list@[a] == old_list[a]);
                        } else if a < p {
                            assert(list@[a] == old_list[a] && list@[b] == old_list[b - 1]);
                        } else if a == p {
                            assert(list@[b] == old_list[b - 1]);
                        } else {
                            assert(list@[a] == old_list[a - 1] && list@[b] == old_list[b - 1]);
                        }
                    }
                    assert forall|a: int| 0 <= a < list@.len() implies 0 <= #[trigger] src[a] < i + 1
                        && cs@[src[a]].0@ == f@ && cs@[src[a]].1@ == list@[a].value@ && cs@[src[a]].2
                        == list@[a].count by {
                        if a < p {
                            assert(src[a] == old_src[a] && list@[a] == old_list[a]);
                        } else if a > p {
                            assert(src[a] == old_src[a - 1] && list@[a] == old_list[a - 1]);
                        }
                    }
                    assert forall|a: int, b: int| 0 <= a < b < list@.len() implies #[trigger] src[a]
                        != #[trigger] src[b] by {
                        if a != p && b != p {
                            let oa = if a < p { a } else { a - 1 };
                            let ob = if b < p { b } else { b - 1 };
                            assert(src[a] == old_src[oa] && src[b] == old_src[ob]);
                        } else if a == p {
                            assert(src[b] == old_src[b - 1]);
                        } else {
                            assert(src[a] == old_src[a]);
                        }
                    }
                    assert forall|d: int| 0 <= d < i + 1 && (#[trigger] cs@[d]).0@ == f@ implies exists|a: int|
                        0 <= a < list@.len() && #[trigger] src[a] == d by {
                        if d == i {
                            assert(src[p as int] == d);
                        } else {
                            let a = choose|a: int| 0 <= a < old_list.len() && #[trigger] old_src[a] == d;
                            if a < p {
                                assert(src[a] == old_src[a]);
                            } else {
                                assert(src[a + 1] == old_src[a]);
                            }
                        }
                    }
                }
            }
            i = i + 1;
        }
        proof {
            assert forall|a: int, b: int|
                0 <= a < b < list@.len() implies (#[trigger] list@[a]).value@ != (
                #[trigger] list@[b]).value@ by {
                assert(src[a] != src[b]);
                if src[a] < src[b] {
                    assert(!(cs@[src[a]].0@ == cs@[src[b]].0@ && cs@[src[a]].1@ == cs@[src[b]].1@));
                } else {
                    assert(!(cs@[src[b]].0@ == cs@[src[a]].0@ && cs@[src[b]].1@ == cs@[src[a]].1@));
                }
            }
            assert forall|a: int| 0 <= a < list@.len() implies (#[trigger] list@[a]).count > 0
                && list@[a].count == self.count(f@, list@[a].value@) by {
                lemma_count_in_at(cs@, src[a]);
            }
            assert forall|v: Seq<char>| #[trigger] self.count(f@, v) > 0 implies exists|a: int|
                0 <= a < list@.len() && (#[trigger] list@[a]).value@ == v by {
                if forall|c: int| 0 <= c < cs@.len() ==> !((#[trigger] cs@[c]).0@ == f@ && cs@[c].1@ == v) {
                    lemma_count_in_absent(cs@, f@, v);
                } else {
                    let c = choose|c: int| 0 <= c < cs@.len() && (#[trigger] cs@[c]).0@ == f@ && cs@[c].1@ == v;
                    let a = choose|a: int| 0 <= a < list@.len() && #[trigger] src[a] == c;
                    assert(list@[a].value@ == v);
                }
            }
        }
        list
    }

    /// The suggestions gathered so far: for each field seen, its values ranked by
    /// descending count.
    pub fn into_suggestions(&self) -> (r: FrontmatterSuggestions)
        requires
            self.wf(),
        ensures
            forall|a: int, b: int|
                0 <= a < b < r.field_suggestions@.len() ==> (#[trigger] r.field_suggestions@[a]).0@
                    != (#[trigger] r.field_suggestions@[b]).0@,
            forall|f: Seq<char>|
                #[trigger] self.fields_seen().contains(f) <==> exists|a: int|
                    0 <= a < r.field_suggestions@.len() && (#[trigger] r.field_suggestions@[a]).0@ == f,
            forall|a: int|
                0 <= a < r.field_suggestions@.len() ==> self.ranks(
                    (#[trigger] r.field_suggestions@[a]).0@,
                    r.field_suggestions@[a].1@,
                ),
    {
        let mut out: Vec<(String, Vec<FrontmatterSuggestion>)> = Vec::new();
        let mut a: usize = 0;
        while a < self.fields.len()
            invariant
                self.wf(),
                a <= self.fields@.len(),
                out@.len() == a,
                forall|b: int| 0 <= b < a ==> (#[trigger] out@[b]).0@ == self.fields@[b]@,
                forall|b: int| 0 <= b < a ==> self.ranks((#[trigger] out@[b]).0@, out@[b].1@),
            decreases self.fields@.len() - a,
        {
            let list = self.rank_field(&self.fields[a]);
            out.push((self.fields[a].clone(), list));
            a = a + 1;
        }
        let r = FrontmatterSuggestions { field_suggestions: out };
        proof {
            let rs = r.field_suggestions@;
            assert forall|f: Seq<char>| #[trigger] self.fields_seen().contains(f) <==> exists|b: int|
                0 <= b < rs.len() && (#[trigger] rs[b]).0@ == f by {
                assert(self.fields_seen().contains(f) <==> exists|b: int|
                    0 <= b < self.fields@.len() && (#[trigger] self.fields@[b])@ == f);
                if self.fields_seen().contains(f) {
                    let b = choose|b: int| 0 <= b < self.fields@.len() && (#[trigger] self.fields@[b])@ == f;
                    assert(rs[b].0@ == f);
                }
                if exists|b: int| 0 <= b < rs.len() && (#[trigger] rs[b]).0@ == f {
                    let b = choose|b: int| 0 <= b < rs.len() && (#[trigger] rs[b]).0@ == f;
                    assert(self.fields@[b]@ == f);
                }
            }
        }
        r
    }
}

} // verus!
