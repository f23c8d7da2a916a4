use crate::text::chars_of;
use vstd::prelude::*;
use vstd::seq_lib::to_multiset_insert;

verus! {

/// How deep below the root the walk lists directories.
pub const MAX_DEPTH: usize = 6;

/// How many nodes the walk builds before it stops taking new entries.
pub const MAX_NODES: usize = 5000;

/// One node of a directory snapshot.
#[derive(Debug)]
pub struct TreeNode {
    pub name: String,
    pub path: String,
    pub is_dir: bool,
    /// Present exactly for a directory; it may be empty.
    pub children: Option<Vec<TreeNode>>,
    /// Present exactly for a file: its size in bytes.
    pub size: Option<u64>,
}

/// The mathematical form of a `TreeNode`.
pub ghost struct NodeView {
    pub name: Seq<char>,
    pub path: Seq<char>,
    pub is_dir: bool,
    pub children: Option<Seq<NodeView>>,
    pub size: Option<u64>,
}

pub open spec fn blank_node() -> NodeView {
    NodeView { name: Seq::empty(), path: Seq::empty(), is_dir: false, children: None, size: None }
}

impl TreeNode {
    pub open spec fn view(&self) -> NodeView
        decreases self,
    {
        NodeView {
            name: self.name@,
            path: self.path@,
            is_dir: self.is_dir,
            children: match &self.children {
                Some(c) => Some(
                    Seq::new(
                        c@.len(),
                        |i: int|
                            if 0 <= i < c@.len() {
                                c@[i].view()
                            } else {
                                blank_node()
                            },
                    ),
                ),
                None => None,
            },
            size: self.size,
        }
    }
}

/// One entry of a directory listing: its file name and its full path.
#[derive(Debug)]
pub struct DirEntry {
    pub name: String,
    pub path: String,
}

pub ghost struct EntryView {
    pub name: Seq<char>,
    pub path: Seq<char>,
}

impl DirEntry {
    pub open spec fn view(&self) -> EntryView {
        EntryView { name: self.name@, path: self.path@ }
    }
}

pub open spec fn entries_view(s: Seq<DirEntry>) -> Seq<EntryView> {
    Seq::new(s.len(), |i: int| s[i]@)
}

/// What an inspected path turned out to be, read without following a final symbolic
/// link.
pub enum EntryKind {
    Directory,
    File(u64),
}

/// Why a walk failed.
#[derive(Clone, Copy, Debug, PartialEq, Eq, Structural)]
pub enum TraversalError {
    /// The path does not exist.
    NotFound,
    /// The path's metadata could not be read.
    Unreadable,
    /// The node budget was spent before any node was built. A walk made by `start`
    /// begins with the whole budget, so it never ends this way.
    BudgetExceeded,
}

/// A directory whose node is being built: the entries still to visit, the last one
/// next, and the children built so far.
pub struct Frame {
    pub name: String,
    pub path: String,
    pub depth: usize,
    pub pending: Vec<DirEntry>,
    pub children: Vec<TreeNode>,
}

pub ghost struct FrameView {
    pub name: Seq<char>,
    pub path: Seq<char>,
    pub depth: int,
    pub pending: Seq<EntryView>,
    pub children: Seq<NodeView>,
}

impl Frame {
    pub open spec fn view(&self) -> FrameView {
        FrameView {
            name: self.name@,
            path: self.path@,
            depth: self.depth as int,
            pending: entries_view(self.pending@),
            children: Seq::new(self.children@.len(), |i: int| self.children@[i]@),
        }
    }
}

pub open spec fn frames_view(s: Seq<Frame>) -> Seq<FrameView> {
    Seq::new(s.len(), |i: int| s[i]@)
}

/// What the walk waits for.
pub enum Waiting {
    /// The kind of this entry, found at this depth.
    Inspect(DirEntry, usize),
    /// The listing of the innermost open directory.
    List,
    /// Nothing: the walk is over.
    Idle,
}

pub ghost enum WaitView {
    Inspect(EntryView, int),
    List,
    Idle,
}

/// What the walk asks of the file system next.
pub enum WalkRequest {
    /// Read the metadata of this path, without following a final symbolic link.
    Inspect(String),
    /// List the entries of this directory.
    List(String),
    /// Nothing: the outcome is ready.
    Finished,
}

pub ghost enum RequestView {
    Inspect(Seq<char>),
    List(Seq<char>),
    Finished,
}

impl WalkRequest {
    pub open spec fn view(&self) -> RequestView {
        match self {
            WalkRequest::Inspect(p) => RequestView::Inspect(p@),
            WalkRequest::List(p) => RequestView::List(p@),
            WalkRequest::Finished => RequestView::Finished,
        }
    }
}

/// A bounded walk of a directory tree, driven by the file-system answers that the
/// caller feeds it.
pub struct TreeWalk {
    pub frames: Vec<Frame>,
    pub count: usize,
    pub waiting: Waiting,
    pub outcome: Option<Result<TreeNode, TraversalError>>,
}

pub ghost struct WalkView {
    pub frames: Seq<FrameView>,
    pub count: int,
    pub waiting: WaitView,
    pub outcome: Option<Result<NodeView, TraversalError>>,
}

impl TreeWalk {
    pub open spec fn view(&self) -> WalkView {
        WalkView {
            frames: frames_view(self.frames@),
            count: self.count as int,
            waiting: match &self.waiting {
                Waiting::Inspect(e, d) => WaitView::Inspect(e@, *d as int),
                Waiting::List => WaitView::List,
                Waiting::Idle => WaitView::Idle,
            },
            outcome: match &self.outcome {
                Some(Ok(n)) => Some(Ok(n@)),
                Some(Err(e)) => Some(Err(*e)),
                None => None,
            },
        }
    }
}

/// The node of a directory whose walk is over.
pub open spec fn closed_dir(f: FrameView) -> NodeView {
    NodeView { name: f.name, path: f.path, is_dir: true, children: Some(f.children), size: None }
}

/// The node of a file.
pub open spec fn file_leaf(e: EntryView, size: u64) -> NodeView {
    NodeView { name: e.name, path: e.path, is_dir: false, children: None, size: Some(size) }
}

/// A directory entered at `depth`, with nothing visited yet.
pub open spec fn opened(e: EntryView, depth: int) -> FrameView {
    FrameView { name: e.name, path: e.path, depth, pending: Seq::empty(), children: Seq::empty() }
}

/// How the walk goes on once `node` (if any) is built: the node joins the innermost open
/// directory, or is the outcome when none is open; then the innermost directory visits
/// its next entry while the node budget lasts, or is closed, counted and joins its own
/// parent in turn.
pub open spec fn settle(frames: Seq<FrameView>, count: int, node: Option<NodeView>) -> WalkView
    decreases 2 * frames.len() + if node is Some {
        1int
    } else {
        0int
    },
{
    match node {
        Some(n) => if frames.len() == 0 {
            WalkView { frames, count, waiting: WaitView::Idle, outcome: Some(Ok(n)) }
        } else {
            let top = frames.last();
            settle(
                frames.update(
                    frames.len() - 1,
                    FrameView {
                        name: top.name,
                        path: top.path,
                        depth: top.depth,
                        pending: top.pending,
                        children: top.children.push(n),
                    },
                ),
                count,
                None,
            )
        },
        None => if frames.len() == 0 {
            WalkView { frames, count, waiting: WaitView::Idle, outcome: None }
        } else {
            let top = frames.last();
            if top.pending.len() > 0 && count < MAX_NODES {
                WalkView {
                    frames: frames.update(
                        frames.len() - 1,
                        FrameView {
                            name: top.name,
                            path: top.path,
                            depth: top.depth,
                            pending: top.pending.drop_last(),
                            children: top.children,
                        },
                    ),
                    count,
                    waiting: WaitView::Inspect(top.pending.last(), top.depth + 1),
                    outcome: None,
                }
            } else {
                settle(frames.drop_last(), count + 1, Some(closed_dir(top)))
            }
        },
    }
}

/// The walk after the entry it waits for was inspected: a failure ends the walk when
/// the entry is the root and skips the entry otherwise; a file becomes a counted leaf;
/// a directory at `MAX_DEPTH` or deeper is entered and closed at once, with no
/// children; a shallower directory is entered and its listing asked for.
pub open spec fn after_inspect(v: WalkView, r: Result<EntryKind, TraversalError>) -> WalkView {
    match v.waiting {
        WaitView::Inspect(e, d) => match r {
            Err(err) => if v.frames.len() == 0 {
                WalkView { frames: v.frames, count: v.count, waiting: WaitView::Idle, outcome: Some(Err(err)) }
            } else {
                settle(v.frames, v.count, None)
            },
            Ok(EntryKind::File(size)) => settle(v.frames, v.count + 1, Some(file_leaf(e, size))),
            Ok(EntryKind::Directory) => if d >= MAX_DEPTH {
                settle(v.frames.push(opened(e, d)), v.count, None)
            } else {
                WalkView {
                    frames: v.frames.push(opened(e, d)),
                    count: v.count,
                    waiting: WaitView::List,
                    outcome: None,
                }
            },
        },
        _ => v,
    }
}

/// The walk after the innermost directory's entries, in visiting order reversed, were
/// found to be `p`.
pub open spec fn after_list(v: WalkView, p: Seq<EntryView>) -> WalkView {
    let top = v.frames.last();
    settle(
        v.frames.update(
            v.frames.len() - 1,
            FrameView { name: top.name, path: top.path, depth: top.depth, pending: p, children: top.children },
        ),
        v.count,
        None,
    )
}

/// What a walk in this state asks for.
pub open spec fn request_of(v: WalkView) -> RequestView {
    match v.waiting {
        WaitView::Inspect(e, _) => RequestView::Inspect(e.path),
        WaitView::List => RequestView::List(v.frames.last().path),
        WaitView::Idle => RequestView::Finished,
    }
}

/// `a` comes before `b` in lexicographic order of characters.
pub open spec fn lex_lt(a: Seq<char>, b: Seq<char>) -> bool
    decreases a.len(),
{
    if a.len() == 0 {
        b.len() > 0
    } else if b.len() == 0 {
        false
    } else if a[0] != b[0] {
        (a[0] as int) < (b[0] as int)
    } else {
        lex_lt(a.drop_first(), b.drop_first())
    }
}

/// Entries by descending name: visited from the end, they come by ascending name.
pub open spec fn by_name_desc(p: Seq<EntryView>) -> bool {
    forall|a: int, b: int| 0 <= a < b < p.len() ==> !lex_lt((#[trigger] p[a]).name, (#[trigger] p[b]).name)
}

/// The well-formed states of a walk. The count and the open directories together never
/// pass `MAX_NODES + MAX_DEPTH`, so a finished walk has built at most that many nodes.
pub open spec fn walk_wf(v: WalkView) -> bool {
    &&& v.frames.len() <= MAX_DEPTH + 1
    &&& forall|i: int| 0 <= i < v.frames.len() ==> (#[trigger] v.frames[i]).depth == i
    &&& forall|i: int|
        0 <= i < v.frames.len() && (#[trigger] v.frames[i]).pending.len() > 0 ==> v.frames[i].depth
            < MAX_DEPTH
    &&& 0 <= v.count
    &&& v.count + v.frames.len() <= MAX_NODES + MAX_DEPTH
    &&& match v.waiting {
        WaitView::Inspect(_, d) => d == v.frames.len() && d <= MAX_DEPTH && v.count < MAX_NODES
            && v.outcome is None,
        WaitView::List => v.frames.len() > 0 && v.frames.last().depth < MAX_DEPTH
            && v.frames.last().pending.len() == 0 && v.outcome is None,
        WaitView::Idle => v.outcome is Some,
    }
}

proof fn lemma_lex_lt_asym(a: Seq<char>, b: Seq<char>)
    requires
        lex_lt(a, b),
    ensures
        !lex_lt(b, a),
    decreases a.len(),
{
    if a.len() > 0 && b.len() > 0 && a[0] == b[0] {
        lemma_lex_lt_asym(a.drop_first(), b.drop_first());
    }
}

proof fn lemma_lex_lt_trans(a: Seq<char>, b: Seq<char>, c: Seq<char>)
    requires
        lex_lt(a, b),
        lex_lt(b, c),
    ensures
        lex_lt(a, c),
    decreases a.len(),
{
    if a.len() > 0 && a[0] == b[0] && b[0] == c[0] {
        lemma_lex_lt_trans(a.drop_first(), b.drop_first(), c.drop_first());
    }
}

proof fn lemma_lex_lt_total(a: Seq<char>, b: Seq<char>)
    requires
        !lex_lt(a, b),
        !lex_lt(b, a),
    ensures
        a == b,
    decreases a.len(),
{
    if a.len() > 0 && b.len() > 0 {
        if a[0] == b[0] {
            lemma_lex_lt_total(a.drop_first(), b.drop_first());
            assert(a =~= seq![a[0]] + a.drop_first());
            assert(b =~= seq![b[0]] + b.drop_first());
        } else {
            assert((a[0] as int) != (b[0] as int));
        }
    } else {
        assert(a =~= b);
    }
}

fn chars_lt(a: &Vec<char>, b: &Vec<char>) -> (r: bool)
    ensures
        r == lex_lt(a@, b@),
{
    let mut i: usize = 0;
    assert(a@.skip(0) =~= a@ && b@.skip(0) =~= b@);
    while i < a.len() && i < b.len()
        invariant
            i <= a@.len(),
            i <= b@.len(),
            lex_lt(a@, b@) == lex_lt(a@.skip(i as int), b@.skip(i as int)),
        decreases a@.len() - i,
    {
        if a[i] != b[i] {
            return a[i] < b[i];
        }
        assert(a@.skip(i as int).drop_first() =~= a@.skip(i + 1));
        assert(b@.skip(i as int).drop_first() =~= b@.skip(i + 1));
        i = i + 1;
    }
    i < b.len()
}

/// The entries sorted by descending name.
fn sort_by_name_desc(v: Vec<DirEntry>) -> (r: Vec<DirEntry>)
    ensures
        by_name_desc(entries_view(r@)),
        entries_view(r@).to_multiset() == entries_view(v@).to_multiset(),
{
    let mut v = v;
    let ghost orig = entries_view(v@);
    let mut out: Vec<DirEntry> = Vec::new();
    let mut keys: Vec<Vec<char>> = Vec::new();
    let ghost mut taken: Seq<EntryView> = Seq::empty();
    proof {
        assert(entries_view(out@) =~= Seq::<EntryView>::empty());
        assert(orig =~= entries_view(v@) + taken.reverse());
    }
    while v.len() > 0
        invariant
            keys@.len() == out@.len(),
            forall|a: int| 0 <= a < out@.len() ==> (#[trigger] keys@[a])@ == out@[a].name@,
            by_name_desc(entries_view(out@)),
            entries_view(out@).to_multiset() == taken.to_multiset(),
            orig =~= entries_view(v@) + taken.reverse(),
        decreases v@.len(),
    {
        let ghost before = v@;
        let ghost old_taken = taken;
        let e = v.pop().unwrap();
        proof {
            assert(entries_view(before) =~= entries_view(v@).push(e@));
            assert(taken.push(e@).reverse() =~= seq![e@] + taken.reverse());
            assert(orig =~= entries_view(v@) + taken.push(e@).reverse());
        }
        let k = chars_of(e.name.as_str());
        let mut p: usize = 0;
        while p < out.len() && chars_lt(&k, &keys[p])
            invariant
                p <= out@.len(),
                keys@.len() == out@.len(),
                forall|a: int| 0 <= a < out@.len() ==> (#[trigger] keys@[a])@ == out@[a].name@,
                forall|a: int| 0 <= a < p ==> lex_lt(k@, (#[trigger] out@[a]).name@),
            decreases out@.len() - p,
        {
            p = p + 1;
        }
        let ghost old_out = entries_view(out@);
        let ghost old_keys = keys@;
        let ghost ev = e@;
        out.insert(p, e);
        keys.insert(p, k);
        proof {
            let n = entries_view(out@);
            assert(n =~= old_out.insert(p as int, ev));
            old_out.insert_ensures(p as int, ev);
            to_multiset_insert(old_out, p as int, ev);
            vstd::seq_lib::to_multiset_build(old_taken, ev);
            taken = old_taken.push(ev);
            assert forall|a: int| 0 <= a < out@.len() implies (#[trigger] keys@[a])@ == out@[a].name@ by {
                if a < p {
                    assert(keys@[a] == old_keys[a]);
                } else if a > p {
                    assert(keys@[a] == old_keys[a - 1]);
                }
            }
            assert forall|a: int, b: int| 0 <= a < b < n.len() implies !lex_lt((#[trigger] n[a]).name, (#[trigger] n[b]).name) by {
                let x = ev.name;
                if a < p && b == p {
                    assert(lex_lt(x, old_out[a].name));
                    lemma_lex_lt_asym(x, old_out[a].name);
                } else if a == p {
                    let y = old_out[b - 1].name;
                    assert(n[b] == old_out[b - 1]);
                    if lex_lt(x, y) {
                        // the scan stopped at p: x is not before the entry there
                        let z = old_out[p as int].name;
                        assert(!lex_lt(x, z));
                        if b - 1 > p {
                            assert(!lex_lt(z, y));
                            if z != y {
                                if !lex_lt(y, z) {
                                    lemma_lex_lt_total(y, z);
                                }
                                lemma_lex_lt_trans(x, y, z);
                            }
                        }
                    }
                } else if a < p && b < p {
                    assert(n[a] == old_out[a] && n[b] == old_out[b]);
                } else if a < p {
                    assert(n[a] == old_out[a] && n[b] == old_out[b - 1]);
                } else {
                    assert(n[a] == old_out[a - 1] && n[b] == old_out[b - 1]);
                }
            }
        }
    }
    proof {
        assert(orig =~= taken.reverse());
        taken.lemma_reverse_to_multiset();
    }
    out
}

/// The view of an optional node.
pub open spec fn node_opt_view(n: Option<TreeNode>) -> Option<NodeView> {
    match n {
        Some(t) => Some(t@),
        None => None,
    }
}

/// The states from which `settle` goes on: well-formed open directories, a count within
/// bounds, and something to do.
pub open spec fn settle_ready(frames: Seq<FrameView>, count: int, node: Option<NodeView>) -> bool {
    &&& frames.len() <= MAX_DEPTH + 1
    &&& forall|i: int| 0 <= i < frames.len() ==> (#[trigger] frames[i]).depth == i
    &&& forall|i: int|
        0 <= i < frames.len() && (#[trigger] frames[i]).pending.len() > 0 ==> frames[i].depth
            < MAX_DEPTH
    &&& 0 <= count
    &&& count + frames.len() <= MAX_NODES + MAX_DEPTH
    &&& (node is None ==> frames.len() > 0)
}

impl TreeWalk {
    /// Starts a walk at `root`, which is inspected first.
    pub fn start(root: DirEntry) -> (r: (TreeWalk, WalkRequest))
        ensures
            r.0@ == (WalkView {
                frames: Seq::empty(),
                count: 0,
                waiting: WaitView::Inspect(root@, 0),
                outcome: None,
            }),
            walk_wf(r.0@),
            r.1@ == request_of(r.0@),
    {
        let path = root.path.clone();
        let w = TreeWalk { frames: Vec::new(), count: 0, waiting: Waiting::Inspect(root, 0), outcome: None };
        assert(frames_view(w.frames@) =~= Seq::<FrameView>::empty());
        (w, WalkRequest::Inspect(path))
    }

    fn settle_walk(&mut self, built: Option<TreeNode>) -> (r: WalkRequest)
        requires
            settle_ready(old(self)@.frames, old(self)@.count, node_opt_view(built)),
            old(self).outcome is None,
        ensures
            final(self)@ == settle(old(self)@.frames, old(self)@.count, node_opt_view(built)),
            walk_wf(final(self)@),
            r@ == request_of(final(self)@),
    {
        let ghost target = settle(old(self)@.frames, old(self)@.count, node_opt_view(built));
        let mut node = built;
        loop
            invariant
                settle_ready(self@.frames, self@.count, node_opt_view(node)),
                settle(self@.frames, self@.count, node_opt_view(node)) == target,
                target == settle(old(self)@.frames, old(self)@.count, node_opt_view(built)),
                self.outcome is None,
            decreases 2 * self.frames@.len() + if node is Some {
                1int
            } else {
                0int
            },
        {
            let ghost fv = self@.frames;
            match node {
                Some(n) => {
                    if self.frames.len() == 0 {
                        let ghost nv = n@;
                        self.outcome = Some(Ok(n));
                        self.waiting = Waiting::Idle;
                        proof {
                            assert(self@.frames =~= fv);
                            assert(self@ == settle(fv, self@.count, Some(nv)));
                        }
                        return WalkRequest::Finished;
                    }
                    let ghost nv = n@;
                    let mut top = self.frames.pop().unwrap();
                    let ghost tv = top@;
                    top.children.push(n);
                    proof {
                        assert(top@.children =~= tv.children.push(nv));
                    }
                    self.frames.push(top);
                    node = None;
                    proof {
                        assert(fv.last() == tv);
                        assert(self@.frames =~= fv.update(
                            fv.len() - 1,
                            FrameView {
                                name: tv.name,
                                path: tv.path,
                                depth: tv.depth,
                                pending: tv.pending,
                                children: tv.children.push(nv),
                            },
                        ));
                    }
                },
                None => {
                    let mut top = self.frames.pop().unwrap();
                    let ghost tv = top@;
                    proof {
                        assert(fv.last() == tv);
                        assert(self@.frames =~= fv.drop_last());
                    }
                    if top.pending.len() > 0 && self.count < MAX_NODES {
                        let e = top.pending.pop().unwrap();
                        proof {
                            assert(top@.pending =~= tv.pending.drop_last());
                            assert(e@ == tv.pending.last());
                        }
                        let d = top.depth + 1;
                        let path = e.path.clone();
                        self.frames.push(top);
                        self.waiting = Waiting::Inspect(e, d);
                        proof {
                            assert(self@.frames =~= fv.update(
                                fv.len() - 1,
                                FrameView {
                                    name: tv.name,
                                    path: tv.path,
                                    depth: tv.depth,
                                    pending: tv.pending.drop_last(),
                                    children: tv.children,
                                },
                            ));
                            assert(self@ == settle(fv, self@.count, None));
                        }
                        return WalkRequest::Inspect(path);
                    }
                    self.count = self.count + 1;
                    let t = TreeNode {
                        name: top.name,
                        path: top.path,
                        is_dir: true,
                        children: Some(top.children),
                        size: None,
                    };
                    proof {
                        assert(t@.children->Some_0 =~= tv.children);
                        assert(t@ == closed_dir(tv));
                    }
                    node = Some(t);
                },
            }
        }
    }

    /// Feeds the walk the kind of the entry it asked to inspect, or why it could not be
    /// read; returns what the walk asks for next.
    pub fn inspected(&mut self, r: Result<EntryKind, TraversalError>) -> (req: WalkRequest)
        requires
            walk_wf(old(self)@),
            old(self)@.waiting is Inspect,
        ensures
            final(self)@ == after_inspect(old(self)@, r),
            walk_wf(final(self)@),
            req@ == request_of(final(self)@),
    {
        let mut w = Waiting::Idle;
        std::mem::swap(&mut self.waiting, &mut w);
        match w {
            Waiting::Inspect(e, d) => {
                match r {
                    Err(err) => {
                        if self.frames.len() == 0 {
                            self.outcome = Some(Err(err));
                            WalkRequest::Finished
                        } else {
                            self.settle_walk(None)
                        }
                    },
                    Ok(EntryKind::File(size)) => {
                        self.count = self.count + 1;
                        let leaf = TreeNode {
                            name: e.name,
                            path: e.path,
                            is_dir: false,
                            children: None,
                            size: Some(size),
                        };
                        self.settle_walk(Some(leaf))
                    },
                    Ok(EntryKind::Directory) => {
                        let ghost ev = e@;
                        let ghost fv = self@.frames;
                        let path = e.path.clone();
                        let f = Frame {
                            name: e.name,
                            path: e.path,
                            depth: d,
                            pending: Vec::new(),
                            children: Vec::new(),
                        };
                        proof {
                            assert(f@.pending =~= Seq::<EntryView>::empty());
                            assert(f@.children =~= Seq::<NodeView>::empty());
                            assert(f@ == opened(ev, d as int));
                        }
                        self.frames.push(f);
                        proof {
                            assert(self@.frames =~= fv.push(opened(ev, d as int)));
                        }
                        if d >= MAX_DEPTH {
                            self.settle_walk(None)
                        } else {
                            self.waiting = Waiting::List;
                            WalkRequest::List(path)
                        }
                    },
                }
            },
            _ => {
                proof {
                    assert(false);
                }
                WalkRequest::Finished
            },
        }
    }

    /// Feeds the walk the entries of the directory it asked to list, or `None` when
    /// the directory could not be read (it then keeps no children); returns what the
    /// walk asks for next. The entries are visited by ascending name.
    pub fn listed(&mut self, entries: Option<Vec<DirEntry>>) -> (req: WalkRequest)
        requires
            walk_wf(old(self)@),
            old(self)@.waiting is List,
        ensures
            walk_wf(final(self)@),
            req@ == request_of(final(self)@),
            match entries {
                Some(v) => exists|p: Seq<EntryView>|
                    by_name_desc(p) && p.to_multiset() == entries_view(v@).to_multiset()
                        && final(self)@ == after_list(old(self)@, p),
                None => final(self)@ == after_list(old(self)@, Seq::empty()),
            },
    {
        let ghost entries_in = entries;
        let sorted = match entries {
            Some(v) => sort_by_name_desc(v),
            None => Vec::new(),
        };
        let ghost p = entries_view(sorted@);
        let ghost fv = self@.frames;
        let mut top = self.frames.pop().unwrap();
        let ghost tv = top@;
        top.pending = sorted;
        self.frames.push(top);
        self.waiting = Waiting::Idle;
        proof {
            assert(fv.last() == tv);
            assert(self@.frames =~= fv.update(
                fv.len() - 1,
                FrameView { name: tv.name, path: tv.path, depth: tv.depth, pending: p, children: tv.children },
            ));
            if entries_in is None {
                assert(p =~= Seq::<EntryView>::empty());
            }
        }
        self.settle_walk(None)
    }

    /// The outcome of a finished walk: the tree, or why the root could not be read.
    pub fn into_outcome(self) -> (r: Option<Result<TreeNode, TraversalError>>)
        ensures
            match r {
                Some(Ok(n)) => self@.outcome == Some(Ok::<NodeView, TraversalError>(n@)),
                Some(Err(e)) => self@.outcome == Some(Err::<NodeView, TraversalError>(e)),
                None => self@.outcome is None,
            },
    {
        self.outcome
    }
}

/// A directory met at `MAX_DEPTH` or deeper is never listed: it enters the tree at once,
/// counted, as a directory node whose children are present and empty.
pub proof fn lemma_cutoff_directory_is_empty(v: WalkView, e: EntryView, d: int)
    requires
        walk_wf(v),
        v.waiting == WaitView::Inspect(e, d),
        d >= MAX_DEPTH,
    ensures
        after_inspect(v, Ok(EntryKind::Directory)) == settle(
            v.frames,
            v.count + 1,
            Some(
                NodeView {
                    name: e.name,
                    path: e.path,
                    is_dir: true,
                    children: Some(Seq::empty()),
                    size: None,
                },
            ),
        ),
{
    let f = opened(e, d);
    assert(v.frames.push(f).drop_last() =~= v.frames);
    assert(v.frames.push(f).last() == f);
}

/// A directory tree as the file system holds it: a file with its size, or a directory
/// with its entries in name order.
pub ghost enum FsTree {
    File { name: Seq<char>, path: Seq<char>, size: u64 },
    Dir { name: Seq<char>, path: Seq<char>, entries: Seq<FsTree> },
}

/// The listing entry of a tree's root.
pub open spec fn fs_entry(t: FsTree) -> EntryView {
    match t {
        FsTree::File { name, path, .. } => EntryView { name, path },
        FsTree::Dir { name, path, .. } => EntryView { name, path },
    }
}

/// The node that mirrors a tree exactly.
pub open spec fn mirror(t: FsTree) -> NodeView
    decreases t,
{
    match t {
        FsTree::File { name, path, size } => file_leaf(EntryView { name, path }, size),
        FsTree::Dir { name, path, entries } => NodeView {
            name,
            path,
            is_dir: true,
            children: Some(
                Seq::new(
                    entries.len(),
                    |i: int|
                        if 0 <= i < entries.len() {
                            mirror(entries[i])
                        } else {
                            blank_node()
                        },
                ),
            ),
            size: None,
        },
    }
}

/// How many nodes a tree has.
pub open spec fn fs_size(t: FsTree) -> nat
    decreases t,
{
    match t {
        FsTree::File { .. } => 1,
        FsTree::Dir { entries, .. } => 1 + fs_sizes(entries),
    }
}

/// How many nodes a sequence of trees has.
pub open spec fn fs_sizes(ts: Seq<FsTree>) -> nat
    decreases ts,
{
    if ts.len() == 0 {
        0
    } else {
        fs_sizes(ts.drop_last()) + fs_size(ts.last())
    }
}

/// How many levels of directories a tree has: none for a file, one more than its
/// entries have for a directory.
pub open spec fn dir_levels(t: FsTree) -> nat
    decreases t,
{
    match t {
        FsTree::File { .. } => 0,
        FsTree::Dir { entries, .. } => 1 + max_dir_levels(entries),
    }
}

/// The most levels of directories that one of the trees has.
pub open spec fn max_dir_levels(ts: Seq<FsTree>) -> nat
    decreases ts,
{
    if ts.len() == 0 {
        0
    } else {
        let a = max_dir_levels(ts.drop_last());
        let b = dir_levels(ts.last());
        if a >= b {
            a
        } else {
            b
        }
    }
}

/// The entries come in strictly ascending name order.
pub open spec fn names_ascending(ts: Seq<FsTree>) -> bool {
    forall|a: int, b: int|
        0 <= a < b < ts.len() ==> lex_lt(fs_entry(#[trigger] ts[a]).name, fs_entry(#[trigger] ts[b]).name)
}

/// Every directory of the tree holds its entries in strictly ascending name order.
pub open spec fn names_ordered(t: FsTree) -> bool
    decreases t,
{
    match t {
        FsTree::File { .. } => true,
        FsTree::Dir { entries, .. } => names_ascending(entries) && all_names_ordered(entries),
    }
}

/// Every tree of the sequence has its directories' entries in name order.
pub open spec fn all_names_ordered(ts: Seq<FsTree>) -> bool
    decreases ts,
{
    if ts.len() == 0 {
        true
    } else {
        all_names_ordered(ts.drop_last()) && names_ordered(ts.last())
    }
}

/// An answer of the file system to one request of the walk.
pub ghost enum Answer {
    /// The kind of the entry at this path.
    Kind(Seq<char>, Result<EntryKind, TraversalError>),
    /// The entries of the directory at this path, in visiting order reversed.
    Listing(Seq<char>, Seq<EntryView>),
}

/// The walk after one answer; an answer to a question the walk did not ask leaves it
/// as it is.
pub open spec fn apply(v: WalkView, a: Answer) -> WalkView {
    match a {
        Answer::Kind(p, r) => if request_of(v) == RequestView::Inspect(p) {
            after_inspect(v, r)
        } else {
            v
        },
        Answer::Listing(p, l) => if request_of(v) == RequestView::List(p) {
            after_list(v, l)
        } else {
            v
        },
    }
}

/// The walk after a run of answers.
pub open spec fn run(v: WalkView, answers: Seq<Answer>) -> WalkView
    decreases answers.len(),
{
    if answers.len() == 0 {
        v
    } else {
        apply(run(v, answers.drop_last()), answers.last())
    }
}

/// The entries of a directory, in visiting order reversed.
pub open spec fn listing_of(entries: Seq<FsTree>) -> Seq<EntryView> {
    Seq::new(entries.len(), |i: int| fs_entry(entries[entries.len() - 1 - i]))
}

/// What the file system answers, in order, while the walk takes in a tree: the kind of
/// its root, then for a directory its listing and the answers for each entry in turn.
pub open spec fn answers_of(t: FsTree) -> Seq<Answer>
    decreases t,
{
    match t {
        FsTree::File { path, size, .. } => seq![Answer::Kind(path, Ok(EntryKind::File(size)))],
        FsTree::Dir { path, entries, .. } => seq![
            Answer::Kind(path, Ok(EntryKind::Directory)),
            Answer::Listing(path, listing_of(entries)),
        ] + answers_of_all(entries),
    }
}

/// The answers for a sequence of trees, one after the other.
pub open spec fn answers_of_all(ts: Seq<FsTree>) -> Seq<Answer>
    decreases ts,
{
    if ts.len() == 0 {
        Seq::empty()
    } else {
        answers_of_all(ts.drop_last()) + answers_of(ts.last())
    }
}

proof fn lemma_run_append(v: WalkView, a: Seq<Answer>, b: Seq<Answer>)
    ensures
        run(v, a + b) == run(run(v, a), b),
    decreases b.len(),
{
    if b.len() == 0 {
        assert(a + b =~= a);
    } else {
        assert((a + b).drop_last() =~= a + b.drop_last());
        assert((a + b).last() == b.last());
        lemma_run_append(v, a, b.drop_last());
    }
}

proof fn lemma_fs_size_pos(t: FsTree)
    ensures
        fs_size(t) >= 1,
{
}

/// The open directory of a tree's root after its first `k` entries are taken in.
pub open spec fn partial_frame(t: FsTree, depth: int, k: int) -> FrameView {
    let entries = t->Dir_entries;
    FrameView {
        name: fs_entry(t).name,
        path: fs_entry(t).path,
        depth,
        pending: listing_of(entries).take(entries.len() - k),
        children: Seq::new(k as nat, |i: int| mirror(entries[i])),
    }
}

proof fn lemma_entries_taken(frames: Seq<FrameView>, count: int, t: FsTree, depth: int, k: int)
    requires
        t is Dir,
        0 <= k <= t->Dir_entries.len(),
        0 <= depth,
        depth + dir_levels(t) <= MAX_DEPTH,
        0 <= count,
        count + fs_sizes(t->Dir_entries.take(k)) <= MAX_NODES,
    ensures
        run(
            settle(frames.push(partial_frame(t, depth, 0)), count, None),
            answers_of_all(t->Dir_entries.take(k)),
        ) == settle(
            frames.push(partial_frame(t, depth, k)),
            count + fs_sizes(t->Dir_entries.take(k)),
            None,
        ),
    decreases t->Dir_entries, k,
{
    let entries = t->Dir_entries;
    let n = entries.len();
    if k == 0 {
        assert(entries.take(0) =~= Seq::<FsTree>::empty());
    } else {
        let j = k - 1;
        assert(entries.take(k).drop_last() =~= entries.take(j));
        assert(entries.take(k).last() == entries[j]);
        assert(fs_sizes(entries.take(k)) == fs_sizes(entries.take(j)) + fs_size(entries[j]));
        lemma_entries_taken(frames, count, t, depth, j);
        let a = answers_of_all(entries.take(j));
        assert(answers_of_all(entries.take(k)) == a + answers_of(entries[j]));
        lemma_run_append(settle(frames.push(partial_frame(t, depth, 0)), count, None), a, answers_of(entries[j]));
        let cj = count + fs_sizes(entries.take(j));
        lemma_fs_size_pos(entries[j]);
        assert(fs_sizes(entries.take(k)) == fs_sizes(entries.take(j)) + fs_size(entries[j]));
        let g = frames.push(partial_frame(t, depth, j));
        let top = partial_frame(t, depth, j);
        assert(g.last() == top);
        assert(top.pending.len() == n - j);
        assert(top.pending.last() == fs_entry(entries[j]));
        let gp = g.update(
            g.len() - 1,
            FrameView { name: top.name, path: top.path, depth: top.depth, pending: top.pending.drop_last(), children: top.children },
        );
        let sj = settle(g, cj, None);
        assert(sj == WalkView { frames: gp, count: cj, waiting: WaitView::Inspect(fs_entry(entries[j]), depth + 1), outcome: None });
        lemma_max_dir_levels(entries, j);
        lemma_tree_taken(sj, entries[j], depth + 1);
        let m = mirror(entries[j]);
        let gp_top = gp.last();
        assert(gp_top == gp[gp.len() - 1]);
        let g2 = gp.update(
            gp.len() - 1,
            FrameView { name: gp_top.name, path: gp_top.path, depth: gp_top.depth, pending: gp_top.pending, children: gp_top.children.push(m) },
        );
        assert(settle(gp, cj + fs_size(entries[j]), Some(m)) == settle(g2, cj + fs_size(entries[j]), None));
        assert(top.pending.drop_last() =~= listing_of(entries).take(n - k));
        assert(top.children.push(m) =~= Seq::new(k as nat, |i: int| mirror(entries[i])));
        assert(g2 =~= frames.push(partial_frame(t, depth, k)));
    }
}

proof fn lemma_max_dir_levels(ts: Seq<FsTree>, i: int)
    requires
        0 <= i < ts.len(),
    ensures
        dir_levels(ts[i]) <= max_dir_levels(ts),
    decreases ts.len(),
{
    if i < ts.len() - 1 {
        lemma_max_dir_levels(ts.drop_last(), i);
        assert(ts.drop_last()[i] == ts[i]);
    }
}

proof fn lemma_tree_taken(v: WalkView, t: FsTree, depth: int)
    requires
        v.waiting == WaitView::Inspect(fs_entry(t), depth),
        0 <= depth,
        depth + dir_levels(t) <= MAX_DEPTH,
        0 <= v.count,
        v.count + fs_size(t) <= MAX_NODES,
    ensures
        run(v, answers_of(t)) == settle(v.frames, v.count + fs_size(t), Some(mirror(t))),
    decreases t, 0int,
{
    match t {
        FsTree::File { name, path, size } => {
            let ans = answers_of(t);
            assert(ans.drop_last() =~= Seq::<Answer>::empty());
            assert(run(v, ans) == after_inspect(v, Ok(EntryKind::File(size)))) by {
                reveal_with_fuel(run, 2);
            }
        },
        FsTree::Dir { name, path, entries } => {
            let n = entries.len();
            let head = seq![
                Answer::Kind(path, Ok(EntryKind::Directory)),
                Answer::Listing(path, listing_of(entries)),
            ];
            lemma_run_append(v, head, answers_of_all(entries));
            assert(head.drop_last().drop_last() =~= Seq::<Answer>::empty());
            assert(head.drop_last() =~= seq![Answer::Kind(path, Ok(EntryKind::Directory))]);
            assert(seq![Answer::Kind(path, Ok(EntryKind::Directory))].drop_last() =~= Seq::<Answer>::empty());
            let v1 = after_inspect(v, Ok(EntryKind::Directory));
            assert(run(v, head.drop_last()) == v1) by {
                reveal_with_fuel(run, 2);
            }
            let e = fs_entry(t);
            assert(v1.frames == v.frames.push(opened(e, depth)));
            assert(v1.frames.last() == opened(e, depth));
            assert(request_of(v1) == RequestView::List(path));
            assert(run(v, head) == after_list(v1, listing_of(entries)));
            assert(listing_of(entries).take(n as int) =~= listing_of(entries));
            assert(Seq::new(0nat, |i: int| mirror(entries[i])) =~= Seq::<NodeView>::empty());
            assert(v1.frames.update(
                v1.frames.len() - 1,
                FrameView { name, path, depth, pending: listing_of(entries), children: Seq::empty() },
            ) =~= v.frames.push(partial_frame(t, depth, 0)));
            assert(depth < MAX_DEPTH);
            assert(t->Dir_entries == entries);
            assert(entries.take(n as int) =~= entries);
            lemma_entries_taken(v.frames, v.count, t, depth, n as int);
            let last = partial_frame(t, depth, n as int);
            let g = v.frames.push(last);
            assert(g.last() == last);
            assert(last.pending.len() == 0);
            assert(g.drop_last() =~= v.frames);
            assert(last.children =~= mirror(t).children->Some_0);
            assert(closed_dir(last) == mirror(t));
        },
    }
}

/// Fed the answers of a file system that holds `t` (its directories' entries in name
/// order, as `listed` visits them), each given only when the walk asks for it, a walk started at `t`'s root ends with the exact mirror of `t` (every entry
/// present, files with their sizes, directories without one) when `t` has at most
/// `MAX_NODES` nodes and at most `MAX_DEPTH` levels of directories, so that every
/// directory lies above `MAX_DEPTH`.
pub proof fn lemma_small_tree_mirrored(t: FsTree)
    requires
        fs_size(t) <= MAX_NODES,
        dir_levels(t) <= MAX_DEPTH,
        names_ordered(t),
    ensures
        run(
            WalkView { frames: Seq::empty(), count: 0, waiting: WaitView::Inspect(fs_entry(t), 0), outcome: None },
            answers_of(t),
        ) == (WalkView {
            frames: Seq::empty(),
            count: fs_size(t) as int,
            waiting: WaitView::Idle,
            outcome: Some(Ok(mirror(t))),
        }),
{
    let v = WalkView { frames: Seq::empty(), count: 0, waiting: WaitView::Inspect(fs_entry(t), 0), outcome: None };
    lemma_tree_taken(v, t, 0);
}

/// Listed in name order, a directory's entries give the listing that `listed` sorts
/// any listing of them into.
pub proof fn lemma_ordered_listing(entries: Seq<FsTree>)
    requires
        names_ascending(entries),
    ensures
        by_name_desc(listing_of(entries)),
{
    let l = listing_of(entries);
    let n = entries.len();
    assert forall|a: int, b: int| 0 <= a < b < l.len() implies !lex_lt((#[trigger] l[a]).name, (#[trigger] l[b]).name) by {
        assert(l[a] == fs_entry(entries[n - 1 - a]));
        assert(l[b] == fs_entry(entries[n - 1 - b]));
        assert(lex_lt(fs_entry(entries[n - 1 - b]).name, fs_entry(entries[n - 1 - a]).name));
        lemma_lex_lt_asym(fs_entry(entries[n - 1 - b]).name, fs_entry(entries[n - 1 - a]).name);
    }
}

proof fn lemma_answers_of_all_concat(a: Seq<FsTree>, b: Seq<FsTree>)
    ensures
        answers_of_all(a + b) == answers_of_all(a) + answers_of_all(b),
    decreases b.len(),
{
    if b.len() == 0 {
        assert(a + b =~= a);
        assert(answers_of_all(a) + answers_of_all(b) =~= answers_of_all(a));
    } else {
        assert((a + b).drop_last() =~= a + b.drop_last());
        assert((a + b).last() == b.last());
        lemma_answers_of_all_concat(a, b.drop_last());
        assert(answers_of_all(a) + answers_of_all(b) =~= answers_of_all(a) + answers_of_all(
            b.drop_last(),
        ) + answers_of(b.last()));
    }
}

proof fn lemma_run_finished(v: WalkView, answers: Seq<Answer>)
    requires
        v.waiting == WaitView::Idle,
    ensures
        run(v, answers) == v,
    decreases answers.len(),
{
    if answers.len() > 0 {
        lemma_run_finished(v, answers.drop_last());
    }
}

proof fn lemma_files_only(ts: Seq<FsTree>, k: int)
    requires
        0 <= k <= ts.len(),
        forall|i: int| 0 <= i < ts.len() ==> (#[trigger] ts[i]) is File,
    ensures
        fs_sizes(ts.take(k)) == k,
        max_dir_levels(ts.take(k)) == 0,
    decreases k,
{
    if k > 0 {
        lemma_files_only(ts, k - 1);
        assert(ts.take(k).drop_last() =~= ts.take(k - 1));
        assert(ts.take(k).last() == ts[k - 1]);
        assert(ts[k - 1] is File);
        assert(fs_size(ts[k - 1]) == 1);
        assert(dir_levels(ts[k - 1]) == 0);
    } else {
        assert(ts.take(0) =~= Seq::<FsTree>::empty());
    }
}

/// A directory holding more than `MAX_NODES` entries, all files, is no error: the walk
/// ends with the directory's node, whose children are its first `MAX_NODES` entries in
/// order; the rest are never asked about.
pub proof fn lemma_budget_truncates(t: FsTree)
    requires
        t is Dir,
        t->Dir_entries.len() > MAX_NODES,
        forall|i: int| 0 <= i < t->Dir_entries.len() ==> (#[trigger] t->Dir_entries[i]) is File,
    ensures
        run(
            WalkView { frames: Seq::empty(), count: 0, waiting: WaitView::Inspect(fs_entry(t), 0), outcome: None },
            answers_of(t),
        ) == (WalkView {
            frames: Seq::empty(),
            count: MAX_NODES + 1,
            waiting: WaitView::Idle,
            outcome: Some(
                Ok(
                    NodeView {
                        name: fs_entry(t).name,
                        path: fs_entry(t).path,
                        is_dir: true,
                        children: Some(Seq::new(MAX_NODES as nat, |i: int| mirror(t->Dir_entries[i]))),
                        size: None,
                    },
                ),
            ),
        }),
{
    let entries = t->Dir_entries;
    let n = entries.len();
    let m = MAX_NODES as int;
    let path = fs_entry(t).path;
    let name = fs_entry(t).name;
    let v = WalkView { frames: Seq::empty(), count: 0, waiting: WaitView::Inspect(fs_entry(t), 0), outcome: None };
    let head = seq![
        Answer::Kind(path, Ok(EntryKind::Directory)),
        Answer::Listing(path, listing_of(entries)),
    ];
    assert(answers_of(t) == head + answers_of_all(entries));
    lemma_run_append(v, head, answers_of_all(entries));
    assert(head.drop_last().drop_last() =~= Seq::<Answer>::empty());
    assert(head.drop_last() =~= seq![Answer::Kind(path, Ok(EntryKind::Directory))]);
    assert(seq![Answer::Kind(path, Ok(EntryKind::Directory))].drop_last() =~= Seq::<Answer>::empty());
    let v1 = after_inspect(v, Ok(EntryKind::Directory));
    assert(run(v, head.drop_last()) == v1) by {
        reveal_with_fuel(run, 2);
    }
    assert(v1.frames == Seq::<FrameView>::empty().push(opened(fs_entry(t), 0)));
    assert(request_of(v1) == RequestView::List(path));
    assert(listing_of(entries).take(n as int) =~= listing_of(entries));
    assert(Seq::new(0nat, |i: int| mirror(entries[i])) =~= Seq::<NodeView>::empty());
    let f0 = Seq::<FrameView>::empty().push(partial_frame(t, 0, 0));
    assert(v1.frames.update(
        0,
        FrameView { name, path, depth: 0, pending: listing_of(entries), children: Seq::empty() },
    ) =~= f0);
    assert(run(v, head) == settle(f0, 0, None));
    lemma_files_only(entries, m);
    lemma_files_only(entries, n as int);
    assert(entries.take(n as int) =~= entries);
    assert(dir_levels(t) == 1);
    lemma_entries_taken(Seq::empty(), 0, t, 0, m);
    assert(entries =~= entries.take(m) + entries.skip(m));
    lemma_answers_of_all_concat(entries.take(m), entries.skip(m));
    lemma_run_append(settle(f0, 0, None), answers_of_all(entries.take(m)), answers_of_all(entries.skip(m)));
    let last = partial_frame(t, 0, m);
    let g = Seq::<FrameView>::empty().push(last);
    assert(g.last() == last);
    assert(g.drop_last() =~= Seq::<FrameView>::empty());
    let done = settle(g, m, None);
    assert(done == settle(Seq::<FrameView>::empty(), m + 1, Some(closed_dir(last))));
    lemma_run_finished(done, answers_of_all(entries.skip(m)));
}

} // verus!
