//! Text buffer on a rope, with an undo tree.
//!
//! Every edit becomes a node of a tree. An undo walks to the parent, a redo
//! to the newest child, and a new edit after an undo starts a branch: nothing
//! that was once in the buffer is lost.

use ropey::Rope;
use vstd::prelude::*;
use vstd::string::*;
use crate::lines;
use crate::rope;
use crate::rope::{rope_line, rope_remove, rope_slice, rope_string};
use crate::strs;
use crate::text;
use crate::text::byte_len;

verus! {

/// A single edit: the bytes `start..end` give way to `replacement`.
#[derive(Debug)]
pub struct Edit {
    pub start: usize,
    pub end: usize,
    pub replacement: String,
    /// What stood at `start..end` before the edit.
    pub original: String,
}

/// A step of the history: one edit, or all the edits of a compound.
#[derive(Debug)]
pub struct UndoNode {
    edits: Vec<Edit>,
    parent: Option<usize>,
    children: Vec<usize>,
}

/// What kind of file a buffer holds. `Source` carries the lower-case
/// extension by which the highlighter knows the language.
#[derive(Debug)]
pub enum FileKind {
    Plain,
    Email,
    Source(String),
}

pub struct Buffer {
    rope: Rope,
    pub path: Option<String>,
    pub dirty: bool,
    pub kind: FileKind,
    nodes: Vec<UndoNode>,
    head: Option<usize>,
    /// Number of compounds that are open.
    compound_depth: usize,
    /// Edits of the open compound.
    pending_compound: Vec<Edit>,
    /// The text before the first edit.
    base: Ghost<Seq<char>>,
}

/// Model of an [`Edit`].
#[verifier::ext_equal]
pub struct EditV {
    pub start: int,
    pub end: int,
    pub repl: Seq<char>,
    pub orig: Seq<char>,
}

/// Model of an [`UndoNode`].
#[verifier::ext_equal]
pub struct NodeV {
    pub edits: Seq<EditV>,
    pub parent: Option<int>,
    pub children: Seq<int>,
}

/// Model of a [`Buffer`].
#[verifier::ext_equal]
pub struct BufV {
    pub text: Seq<char>,
    pub base: Seq<char>,
    pub path: Option<Seq<char>>,
    pub dirty: bool,
    pub kind: FileKind,
    pub nodes: Seq<NodeV>,
    pub head: Option<int>,
    pub depth: int,
    pub pend: Seq<EditV>,
}

pub open spec fn str_opt(s: Option<String>) -> Option<Seq<char>> {
    match s {
        Some(x) => Some(x@),
        None => None,
    }
}

/// The text with the bytes `start..end` replaced.
pub open spec fn splice(t: Seq<char>, start: int, end: int, repl: Seq<char>) -> Seq<char> {
    t.take(text::at(t, start)) + repl + t.skip(text::at(t, end))
}

/// The text between two byte offsets.
pub open spec fn slice(t: Seq<char>, start: int, end: int) -> Seq<char> {
    t.subrange(text::at(t, start), text::at(t, end))
}

/// A range of bytes that lies in the text and cuts no character.
pub open spec fn range_ok(t: Seq<char>, start: int, end: int) -> bool {
    &&& start <= end
    &&& text::bd(t, start)
    &&& text::bd(t, end)
}

impl EditV {
    pub open spec fn ok(self, t: Seq<char>) -> bool {
        &&& range_ok(t, self.start, self.end)
        &&& self.orig == slice(t, self.start, self.end)
    }

    pub open spec fn on(self, t: Seq<char>) -> Seq<char> {
        splice(t, self.start, self.end, self.repl)
    }
}

/// The text after a run of edits, first to last.
pub open spec fn run(t: Seq<char>, es: Seq<EditV>) -> Seq<char>
    decreases es.len(),
{
    if es.len() == 0 {
        t
    } else {
        es.last().on(run(t, es.drop_last()))
    }
}

/// Every edit of the run fits the text that it finds.
pub open spec fn run_ok(t: Seq<char>, es: Seq<EditV>) -> bool
    decreases es.len(),
{
    es.len() > 0 ==> run_ok(t, es.drop_last()) && es.last().ok(run(t, es.drop_last()))
}

/// The text at a node of the history; `None` is the text before all edits.
pub open spec fn text_at(base: Seq<char>, nodes: Seq<NodeV>, h: Option<int>) -> Seq<char>
    decreases (if h is Some { h->0 + 1 } else { 0 }),
{
    match h {
        None => base,
        Some(i) => if 0 <= i && (nodes[i].parent matches Some(p) ==> 0 <= p < i) {
            run(text_at(base, nodes, nodes[i].parent), nodes[i].edits)
        } else {
            base
        },
    }
}

/// Node that a redo goes to: the newest child of the head.
pub open spec fn redo_target(b: BufV) -> Option<int> {
    match b.head {
        Some(h) => if b.nodes[h].children.len() > 0 {
            Some(b.nodes[h].children.last())
        } else {
            None
        },
        None => last_root(b.nodes),
    }
}

/// The newest node without a parent.
pub open spec fn last_root(nodes: Seq<NodeV>) -> Option<int>
    decreases nodes.len(),
{
    if nodes.len() == 0 {
        None
    } else if nodes.last().parent is None {
        Some(nodes.len() - 1)
    } else {
        last_root(nodes.drop_last())
    }
}

/// `nodes` with a new node under `head`.
pub open spec fn grown(nodes: Seq<NodeV>, head: Option<int>, es: Seq<EditV>) -> Seq<NodeV> {
    let n = nodes.len() as int;
    let more = nodes.push(NodeV { edits: es, parent: head, children: Seq::empty() });
    match head {
        Some(p) => more.update(p, NodeV { children: more[p].children.push(n), ..more[p] }),
        None => more,
    }
}

impl BufV {
    /// The history explains the text, and every step of it can be undone.
    pub open spec fn wf(self) -> bool {
        &&& self.head matches Some(h) ==> 0 <= h < self.nodes.len()
        &&& forall|i: int| 0 <= i < self.nodes.len() ==> #[trigger] node_ok(self.base, self.nodes, i)
        &&& self.text == run(text_at(self.base, self.nodes, self.head), self.pend)
        &&& run_ok(text_at(self.base, self.nodes, self.head), self.pend)
        &&& self.depth >= 0
        &&& self.depth == 0 ==> self.pend.len() == 0
    }

    /// No compound is open.
    pub open spec fn calm(self) -> bool {
        self.depth == 0
    }

    /// The step `es` is recorded under the head and becomes the head.
    pub open spec fn commit(self, es: Seq<EditV>) -> BufV {
        BufV {
            nodes: grown(self.nodes, self.head, es),
            head: Some(self.nodes.len() as int),
            ..self
        }
    }

    pub open spec fn apply(self, start: int, end: int, repl: Seq<char>) -> BufV {
        let e = EditV { start, end, repl, orig: slice(self.text, start, end) };
        let b = BufV { text: splice(self.text, start, end, repl), dirty: true, ..self };
        if self.depth > 0 {
            BufV { pend: self.pend.push(e), ..b }
        } else {
            b.commit(seq![e])
        }
    }

    /// The step at the head can become part of the step `p` before it: it is the
    /// newest one, and the only one that follows `p`.
    pub open spec fn joins(self, p: int) -> bool {
        let h = self.nodes.len() - 1;
        &&& self.depth == 0
        &&& 0 <= p == h - 1
        &&& self.head == Some(h)
        &&& self.nodes[h].parent == Some(p)
        &&& self.nodes[p].children == seq![h]
    }

    /// The step at the head made part of the step `p` before it.
    #[verifier::opaque]
    pub open spec fn join(self, p: int) -> BufV {
        if self.joins(p) {
            let n = self.nodes[p];
            BufV {
                nodes: self.nodes.drop_last().update(
                    p,
                    NodeV {
                        edits: n.edits + self.nodes.last().edits,
                        children: Seq::empty(),
                        ..n
                    },
                ),
                head: Some(p),
                ..self
            }
        } else {
            self
        }
    }

    pub open spec fn begin(self) -> BufV {
        BufV { depth: self.depth + 1, ..self }
    }

    pub open spec fn end(self) -> BufV {
        if self.depth == 0 {
            self
        } else if self.depth == 1 && self.pend.len() > 0 {
            BufV { depth: 0, pend: Seq::empty(), ..self }.commit(self.pend)
        } else {
            BufV { depth: self.depth - 1, ..self }
        }
    }

    pub open spec fn undo(self) -> (BufV, Option<int>) {
        match self.head {
            None => (self, None),
            Some(h) => {
                let n = self.nodes[h];
                (
                    BufV {
                        text: text_at(self.base, self.nodes, n.parent),
                        head: n.parent,
                        dirty: true,
                        ..self
                    },
                    Some(if n.edits.len() > 0 { n.edits[0].start } else { 0 }),
                )
            },
        }
    }

    pub open spec fn redo(self) -> (BufV, Option<int>) {
        match redo_target(self) {
            None => (self, None),
            Some(h) => {
                let n = self.nodes[h];
                (
                    BufV {
                        text: run(self.text, n.edits),
                        head: Some(h),
                        dirty: true,
                        ..self
                    },
                    Some(
                        if n.edits.len() > 0 {
                            n.edits.last().start + text::blen(n.edits.last().repl)
                        } else {
                            0
                        },
                    ),
                )
            },
        }
    }

    /// A buffer that nobody has edited yet.
    pub open spec fn fresh(t: Seq<char>, path: Option<Seq<char>>, kind: FileKind) -> BufV {
        BufV {
            text: t,
            base: t,
            path,
            dirty: false,
            kind,
            nodes: Seq::empty(),
            head: None,
            depth: 0,
            pend: Seq::empty(),
        }
    }
}

pub open spec fn node_ok(base: Seq<char>, nodes: Seq<NodeV>, i: int) -> bool {
    let n = nodes[i];
    &&& n.parent matches Some(p) ==> 0 <= p < i
    &&& forall|c: int|
        0 <= c < n.children.len() ==> i < #[trigger] n.children[c] < nodes.len()
            && nodes[n.children[c]].parent == Some(i)
    &&& run_ok(text_at(base, nodes, n.parent), n.edits)
}

pub closed spec fn edit_view(e: Edit) -> EditV {
    EditV {
        start: e.start as int,
        end: e.end as int,
        repl: e.replacement@,
        orig: e.original@,
    }
}

pub closed spec fn edits_view(es: Seq<Edit>) -> Seq<EditV> {
    Seq::new(es.len(), |i: int| edit_view(es[i]))
}

pub open spec fn int_opt(n: Option<usize>) -> Option<int> {
    match n {
        Some(x) => Some(x as int),
        None => None,
    }
}

spec fn node_view(n: UndoNode) -> NodeV {
    NodeV {
        edits: edits_view(n.edits@),
        parent: int_opt(n.parent),
        children: Seq::new(n.children@.len(), |i: int| n.children@[i] as int),
    }
}

spec fn nodes_view(ns: Seq<UndoNode>) -> Seq<NodeV> {
    Seq::new(ns.len(), |i: int| node_view(ns[i]))
}

impl View for Buffer {
    type V = BufV;

    closed spec fn view(&self) -> BufV {
        BufV {
            text: rope::rope_text(self.rope),
            base: self.base@,
            path: str_opt(self.path),
            dirty: self.dirty,
            kind: self.kind,
            nodes: nodes_view(self.nodes@),
            head: int_opt(self.head),
            depth: self.compound_depth as int,
            pend: edits_view(self.pending_compound@),
        }
    }
}

proof fn lemma_splice(t: Seq<char>, e: EditV)
    requires
        e.ok(t),
    ensures
        ({
            let u = e.on(t);
            let end = e.start + text::blen(e.repl);
            &&& text::blen(u) == text::blen(t) - (e.end - e.start) + text::blen(e.repl)
            &&& range_ok(u, e.start, end)
            &&& text::at(u, e.start) == text::at(t, e.start)
            &&& text::at(u, end) == text::at(t, e.start) + e.repl.len()
            &&& slice(u, e.start, end) == e.repl
            &&& splice(u, e.start, end, e.orig) == t
        }),
{
    let a = text::at(t, e.start);
    let b = text::at(t, e.end);
    let u = e.on(t);
    text::lemma_at(t, e.start);
    text::lemma_at(t, e.end);
    text::lemma_at_mono(t, e.start, e.end);
    let end = e.start + text::blen(e.repl);
    text::lemma_off_mono(e.repl, 0, e.repl.len() as int);
    text::lemma_off_take(t, a, a);
    assert(text::blen(t.take(a)) == e.start);
    text::lemma_blen_add(t.take(a), e.repl);
    text::lemma_blen_add(t.take(a) + e.repl, t.skip(b));
    assert(t =~= t.take(b) + t.skip(b));
    text::lemma_blen_add(t.take(b), t.skip(b));
    text::lemma_off_take(t, b, b);
    assert(text::off(u, a) == e.start) by {
        text::lemma_off_prefix(u, t, a);
    }
    assert(text::off(u, a + e.repl.len()) == end) by {
        text::lemma_off_prefix(u, t.take(a) + e.repl, a + e.repl.len());
    }
    text::lemma_at_off(u, a);
    text::lemma_at_off(u, a + e.repl.len());
    assert(slice(u, e.start, end) =~= e.repl);
    assert(splice(u, e.start, end, e.orig) =~= t);
}

proof fn lemma_text_at_agree(base: Seq<char>, m: Seq<NodeV>, n: Seq<NodeV>, h: Option<int>)
    requires
        m.len() <= n.len(),
        forall|i: int|
            0 <= i < m.len() ==> (#[trigger] m[i]).parent == n[i].parent && m[i].edits == n[i].edits,
        h matches Some(i) ==> 0 <= i < m.len(),
        forall|i: int| 0 <= i < m.len() ==> ((#[trigger] m[i]).parent matches Some(p) ==> 0 <= p < i),
    ensures
        text_at(base, m, h) == text_at(base, n, h),
    decreases (if h is Some { h->0 + 1 } else { 0 }),
{
    match h {
        None => {},
        Some(i) => {
            assert(m[i].parent == n[i].parent);
            lemma_text_at_agree(base, m, n, m[i].parent);
        },
    }
}

/// Recording a step that fits the text keeps the history sound.
proof fn lemma_commit(b: BufV, es: Seq<EditV>)
    requires
        b.head matches Some(h) ==> 0 <= h < b.nodes.len(),
        forall|i: int| 0 <= i < b.nodes.len() ==> #[trigger] node_ok(b.base, b.nodes, i),
        run_ok(text_at(b.base, b.nodes, b.head), es),
        b.text == run(text_at(b.base, b.nodes, b.head), es),
        b.pend.len() == 0,
        b.depth == 0,
    ensures
        b.commit(es).wf(),
{
    let c = b.commit(es);
    let m = b.nodes;
    let n = c.nodes;
    let k = m.len() as int;
    assert forall|i: int| 0 <= i < k implies (#[trigger] m[i]).parent == n[i].parent && m[i].edits
        == n[i].edits by {}
    assert forall|i: int| 0 <= i < k implies ((#[trigger] m[i]).parent matches Some(p) ==> 0 <= p
        < i) by {
        assert(node_ok(b.base, m, i));
    }
    assert(n[k].parent == b.head);
    assert(n[k].edits == es);
    lemma_text_at_agree(b.base, m, n, b.head);
    assert forall|i: int| 0 <= i < n.len() implies #[trigger] node_ok(c.base, n, i) by {
        if i < k {
            assert(node_ok(b.base, m, i));
            lemma_text_at_agree(b.base, m, n, m[i].parent);
            assert forall|j: int| 0 <= j < n[i].children.len() implies i
                < #[trigger] n[i].children[j] < n.len() && n[n[i].children[j]].parent == Some(
                i,
            ) by {
                if b.head == Some(i) && j == m[i].children.len() {
                } else {
                    assert(n[i].children[j] == m[i].children[j]);
                    let ch = m[i].children[j];
                    assert(m[ch].parent == Some(i));
                    assert(n[ch].parent == m[ch].parent);
                }
            }
        }
    }
    assert(text_at(c.base, n, Some(k)) == run(text_at(b.base, m, b.head), es));
    assert(run(text_at(c.base, n, Some(k)), c.pend) == text_at(c.base, n, Some(k)));
}

/// An edit that fits the text keeps the buffer well-formed.
pub proof fn lemma_apply_wf(b: BufV, start: int, end: int, repl: Seq<char>)
    requires
        b.wf(),
        range_ok(b.text, start, end),
    ensures
        b.apply(start, end, repl).wf(),
        b.apply(start, end, repl).text == splice(b.text, start, end, repl),
        b.apply(start, end, repl).depth == b.depth,
        text::blen(splice(b.text, start, end, repl)) == text::blen(b.text) - (end - start)
            + text::blen(repl),
        text::bd(splice(b.text, start, end, repl), start),
        text::bd(splice(b.text, start, end, repl), start + text::blen(repl)),
{
    let e = EditV { start, end, repl, orig: slice(b.text, start, end) };
    lemma_splice(b.text, e);
    let c = BufV { text: splice(b.text, start, end, repl), dirty: true, ..b };
    if b.depth > 0 {
        assert(b.pend.push(e).drop_last() =~= b.pend);
    } else {
        let t = text_at(b.base, b.nodes, b.head);
        assert(b.pend =~= Seq::empty());
        assert(seq![e].drop_last() =~= Seq::<EditV>::empty());
        assert(run(t, seq![e].drop_last()) == t);
        lemma_commit(c, seq![e]);
    }
}

pub proof fn lemma_end_wf(b: BufV)
    requires
        b.wf(),
    ensures
        b.end().wf(),
        b.begin().wf(),
        b.end().text == b.text,
{
    if b.depth == 1 && b.pend.len() > 0 {
        let c = BufV { depth: 0, pend: Seq::empty(), ..b };
        lemma_commit(c, b.pend);
    } else if b.depth == 1 {
        assert(b.pend =~= Seq::empty());
    }
}

/// Two runs of edits, one after the other.
proof fn lemma_run_add(t: Seq<char>, a: Seq<EditV>, b: Seq<EditV>)
    requires
        run_ok(t, a),
        run_ok(run(t, a), b),
    ensures
        run(t, a + b) == run(run(t, a), b),
        run_ok(t, a + b),
    decreases b.len(),
{
    if b.len() == 0 {
        assert(a + b =~= a);
    } else {
        lemma_run_add(t, a, b.drop_last());
        assert((a + b).drop_last() =~= a + b.drop_last());
        assert((a + b).last() == b.last());
    }
}

/// A joined step leads from where the first one started to where the second
/// one ended.
pub proof fn lemma_join_wf(b: BufV, p: int)
    requires
        b.wf(),
    ensures
        b.join(p).wf(),
        b.join(p).text == b.text,
        b.join(p).depth == b.depth,
        b.joins(p) ==> text_at(b.base, b.join(p).nodes, b.nodes[p].parent) == text_at(
            b.base,
            b.nodes,
            b.nodes[p].parent,
        ),
{
    reveal(BufV::join);
    if b.joins(p) {
        let c = b.join(p);
        let m = b.nodes;
        let n = c.nodes;
        let h = m.len() - 1;
        let k = m.take(p);
        assert(node_ok(b.base, m, p));
        assert(node_ok(b.base, m, h));
        assert forall|i: int| 0 <= i < p implies ((#[trigger] k[i]).parent matches Some(q) ==> 0
            <= q < i) by {
            assert(node_ok(b.base, m, i));
        }
        assert forall|i: int| 0 <= i < p implies (#[trigger] k[i]).parent == m[i].parent
            && k[i].edits == m[i].edits && k[i].parent == n[i].parent && k[i].edits
            == n[i].edits by {
            assert(n[i] == m[i]);
        }
        lemma_text_at_agree(b.base, k, m, m[p].parent);
        lemma_text_at_agree(b.base, k, n, m[p].parent);
        let t = text_at(b.base, m, m[p].parent);
        lemma_run_add(t, m[p].edits, m[h].edits);
        assert forall|i: int| 0 <= i < n.len() implies #[trigger] node_ok(c.base, n, i) by {
            assert(node_ok(b.base, m, i));
            if i < p {
                assert(n[i] == m[i]);
                lemma_text_at_agree(b.base, k, m, m[i].parent);
                lemma_text_at_agree(b.base, k, n, m[i].parent);
                assert forall|j: int| 0 <= j < n[i].children.len() implies i
                    < #[trigger] n[i].children[j] < n.len() && n[n[i].children[j]].parent == Some(
                    i,
                ) by {
                    let ch = m[i].children[j];
                    assert(m[ch].parent == Some(i));
                    assert(ch != h);
                    assert(n[ch].parent == m[ch].parent);
                }
            }
        }
        assert(b.pend =~= Seq::empty());
        assert(text_at(b.base, m, Some(h)) == run(text_at(b.base, m, Some(p)), m[h].edits));
        assert(text_at(c.base, n, Some(p)) == run(t, n[p].edits));
    }
}

/// One undo takes back a joined step as two took back its parts.
pub proof fn law_join_is_one_step(b: BufV, p: int)
    requires
        b.wf(),
        b.joins(p),
    ensures
        b.join(p).text == b.text,
        b.join(p).undo().0.text == b.undo().0.undo().0.text,
        b.join(p).undo().0.head == b.undo().0.undo().0.head,
{
    reveal(BufV::join);
    lemma_join_wf(b, p);
}

/// An edit after the newest step, joined to it, is undone with it: however many
/// edits are joined in this way, one undo leads back to the text before the
/// first of them.
pub proof fn law_joined_edit(b: BufV, start: int, end: int, repl: Seq<char>, p: int)
    requires
        b.wf(),
        b.calm(),
        b.head == Some(p),
        p == b.nodes.len() - 1,
        b.nodes[p].children.len() == 0,
        range_ok(b.text, start, end),
    ensures
        ({
            let c = b.apply(start, end, repl).join(p);
            &&& c.text == splice(b.text, start, end, repl)
            &&& c.undo().0.text == b.undo().0.text
            &&& c.undo().0.head == b.undo().0.head
            &&& c.head == Some(p)
            &&& p == c.nodes.len() - 1
            &&& c.nodes[p].children.len() == 0
        }),
{
    let a = b.apply(start, end, repl);
    lemma_apply_wf(b, start, end, repl);
    assert(a.nodes[p].children =~= seq![p + 1]);
    assert(a.nodes[p + 1].parent == Some(p));
    assert(a.joins(p));
    law_join_is_one_step(a, p);
    reveal(BufV::join);
    assert(node_ok(b.base, b.nodes, p));
    assert forall|i: int| 0 <= i < b.nodes.len() implies (#[trigger] b.nodes[i]).parent
        == a.nodes[i].parent && b.nodes[i].edits == a.nodes[i].edits by {
    }
    assert forall|i: int| 0 <= i < b.nodes.len() implies ((#[trigger] b.nodes[i]).parent matches Some(
        q,
    ) ==> 0 <= q < i) by {
        assert(node_ok(b.base, b.nodes, i));
    }
    lemma_text_at_agree(b.base, b.nodes, a.nodes, b.nodes[p].parent);
}

proof fn lemma_last_root(nodes: Seq<NodeV>)
    ensures
        last_root(nodes) matches Some(i) ==> 0 <= i < nodes.len() && nodes[i].parent is None,
        last_root(nodes) is None ==> forall|i: int|
            0 <= i < nodes.len() ==> (#[trigger] nodes[i]).parent is Some,
    decreases nodes.len(),
{
    if nodes.len() > 0 && nodes.last().parent is Some {
        lemma_last_root(nodes.drop_last());
        assert forall|i: int| last_root(nodes) is None && 0 <= i < nodes.len() implies (
        #[trigger] nodes[i]).parent is Some by {
            if i < nodes.len() - 1 {
                assert(nodes.drop_last()[i] == nodes[i]);
            }
        }
    }
}

/// An undo and a redo lead to texts of the history.
pub proof fn lemma_undo_redo_wf(b: BufV)
    requires
        b.wf(),
        b.calm(),
    ensures
        b.undo().0.wf(),
        b.redo().0.wf(),
        b.undo().0.calm(),
        b.redo().0.calm(),
        b.head matches Some(h) ==> b.text == text_at(b.base, b.nodes, b.head) && run_ok(
            text_at(b.base, b.nodes, b.nodes[h].parent),
            b.nodes[h].edits,
        ) && run(text_at(b.base, b.nodes, b.nodes[h].parent), b.nodes[h].edits) == b.text,
        redo_target(b) matches Some(h) ==> 0 <= h < b.nodes.len() && b.nodes[h].parent == b.head
            && run_ok(b.text, b.nodes[h].edits),
{
    assert(b.pend =~= Seq::empty());
    assert(b.text == text_at(b.base, b.nodes, b.head));
    lemma_last_root(b.nodes);
    if let Some(h) = b.head {
        assert(node_ok(b.base, b.nodes, h));
        if let Some(p) = b.nodes[h].parent {
            assert(node_ok(b.base, b.nodes, p));
        }
    }
    if let Some(h) = redo_target(b) {
        if let Some(k) = b.head {
            let j = b.nodes[k].children.len() - 1;
            assert(b.nodes[k].children[j] == h);
        }
        assert(node_ok(b.base, b.nodes, h));
        assert(text_at(b.base, b.nodes, Some(h)) == run(b.text, b.nodes[h].edits));
    }
}

/// What one edit did, the next undo takes back, and a redo does again.
pub proof fn law_apply_undo_redo(b: BufV, start: int, end: int, repl: Seq<char>)
    requires
        b.wf(),
        b.calm(),
        range_ok(b.text, start, end),
    ensures
        ({
            let c = b.apply(start, end, repl);
            let u = c.undo();
            let r = u.0.redo();
            &&& u.0.text == b.text
            &&& u.0.head == b.head
            &&& u.1 == Some(start)
            &&& r.0 == c
            &&& r.1 == Some(start + text::blen(repl))
        }),
{
    let c = b.apply(start, end, repl);
    lemma_apply_wf(b, start, end, repl);
    lemma_undo_redo_wf(c);
    let m = b.nodes;
    let n = c.nodes;
    let k = m.len() as int;
    assert(b.pend =~= Seq::empty());
    assert forall|i: int| 0 <= i < k implies ((#[trigger] m[i]).parent matches Some(p) ==> 0 <= p
        < i) by {
        assert(node_ok(b.base, m, i));
    }
    lemma_text_at_agree(b.base, m, n, b.head);
    assert(n[k].parent == b.head);
    let u = c.undo().0;
    lemma_undo_redo_wf(u);
    assert(redo_target(u) == Some(k)) by {
        if b.head is None {
            assert(n.last() == n[k]);
        }
    }
}

/// The edits of a compound come back with one undo.
pub proof fn law_compound_is_one_step(b: BufV)
    requires
        b.wf(),
        b.depth == 1,
        b.pend.len() > 0,
    ensures
        ({
            let u = b.end().undo();
            &&& b.end().text == b.text
            &&& u.0.text == text_at(b.base, b.nodes, b.head)
            &&& u.0.head == b.head
            &&& u.1 == Some(b.pend[0].start)
            &&& u.0.redo().0 == BufV { dirty: true, ..b.end() }
        }),
{
    lemma_end_wf(b);
    let c = b.end();
    let m = b.nodes;
    let n = c.nodes;
    let k = m.len() as int;
    lemma_undo_redo_wf(c);
    assert forall|i: int| 0 <= i < k implies ((#[trigger] m[i]).parent matches Some(p) ==> 0 <= p
        < i) by {
        assert(node_ok(b.base, m, i));
    }
    lemma_text_at_agree(b.base, m, n, b.head);
    assert(n[k].parent == b.head);
    let u = c.undo().0;
    lemma_undo_redo_wf(u);
    assert(redo_target(u) == Some(k)) by {
        if b.head is None {
            assert(n.last() == n[k]);
        }
    }
}

/// Nothing that was in the buffer is lost: no operation removes a node, and
/// the text at every node stays what it was.
pub proof fn law_history_is_kept(b: BufV, start: int, end: int, repl: Seq<char>, h: int)
    requires
        b.wf(),
        range_ok(b.text, start, end),
        0 <= h < b.nodes.len(),
    ensures
        ({
            let c = b.apply(start, end, repl);
            &&& c.nodes.len() >= b.nodes.len()
            &&& text_at(c.base, c.nodes, Some(h)) == text_at(b.base, b.nodes, Some(h))
        }),
        b.undo().0.nodes == b.nodes,
        b.redo().0.nodes == b.nodes,
        text_at(b.end().base, b.end().nodes, Some(h)) == text_at(b.base, b.nodes, Some(h)),
{
    let m = b.nodes;
    assert forall|i: int| 0 <= i < m.len() implies ((#[trigger] m[i]).parent matches Some(p) ==> 0
        <= p < i) by {
        assert(node_ok(b.base, m, i));
    }
    lemma_text_at_agree(b.base, m, b.apply(start, end, repl).nodes, Some(h));
    lemma_text_at_agree(b.base, m, b.end().nodes, Some(h));
}

impl Buffer {
    pub open spec fn wf(&self) -> bool {
        self@.wf()
    }

    /// A buffer with no text and no file.
    pub fn empty() -> (b: Buffer)
        ensures
            b@ == BufV::fresh(Seq::empty(), None, FileKind::Plain),
            b.wf(),
    {
        let b = Buffer {
            rope: Rope::new(),
            path: None,
            dirty: false,
            kind: FileKind::Plain,
            nodes: Vec::new(),
            head: None,
            compound_depth: 0,
            pending_compound: Vec::new(),
            base: Ghost(Seq::empty()),
        };
        assert(b@.nodes =~= Seq::empty());
        assert(b@.pend =~= Seq::empty());
        b
    }

    /// A buffer in memory, with no file behind it.
    pub fn from_str(s: &str, kind: FileKind) -> (b: Buffer)
        ensures
            b@ == BufV::fresh(s@, None, kind),
            b.wf(),
    {
        let b = Buffer {
            rope: Rope::from_str(s),
            path: None,
            dirty: false,
            kind,
            nodes: Vec::new(),
            head: None,
            compound_depth: 0,
            pending_compound: Vec::new(),
            base: Ghost(s@),
        };
        assert(b@.nodes =~= Seq::empty());
        assert(b@.pend =~= Seq::empty());
        b
    }

    /// Opens a compound: the edits up to the matching [`Buffer::end_compound`]
    /// form one step of the history. Compounds nest.
    pub fn begin_compound(&mut self)
        requires
            old(self).wf(),
            old(self)@.depth < usize::MAX,
        ensures
            final(self)@ == old(self)@.begin(),
            final(self).wf(),
    {
        proof {
            lemma_end_wf(self@);
        }
        self.compound_depth = self.compound_depth + 1;
    }

    /// Records a step under the head.
    fn push_node(&mut self, edits: Vec<Edit>)
        requires
            old(self)@.head matches Some(h) ==> 0 <= h < old(self)@.nodes.len(),
        ensures
            final(self)@ == old(self)@.commit(edits_view(edits@)),
    {
        let idx: usize = self.nodes.len();
        let ghost before = self@;
        let node = UndoNode { edits, parent: self.head, children: Vec::new() };
        self.nodes.push(node);
        if let Some(p) = self.head {
            self.nodes[p].children.push(idx);
        }
        self.head = Some(idx);
        proof {
            let goal = before.commit(edits_view(edits@));
            assert(node_view(node).children =~= Seq::empty());
            if let Some(p) = before.head {
                assert(self@.nodes[p].children =~= before.nodes[p].children.push(idx as int));
            }
            assert(self@.nodes =~= goal.nodes);
        }
    }

    /// Closes a compound. The outermost one is recorded, unless it is empty.
    pub fn end_compound(&mut self)
        requires
            old(self).wf(),
        ensures
            final(self)@ == old(self)@.end(),
            final(self).wf(),
            final(self)@.text == old(self)@.text,
    {
        proof {
            lemma_end_wf(self@);
        }
        let ghost before = self@;
        if self.compound_depth == 0 {
            return;
        }
        self.compound_depth = self.compound_depth - 1;
        if self.compound_depth == 0 && self.pending_compound.len() > 0 {
            let mut edits: Vec<Edit> = Vec::new();
            std::mem::swap(&mut edits, &mut self.pending_compound);
            assert(edits_view(edits@) =~= before.pend);
            assert(self@.pend =~= Seq::empty());
            self.push_node(edits);
        }
    }

    /// Replaces the bytes `start..end` and records the edit.
    pub fn apply(&mut self, start: usize, end: usize, replacement: &str)
        requires
            old(self).wf(),
            range_ok(old(self)@.text, start as int, end as int),
        ensures
            final(self)@ == old(self)@.apply(start as int, end as int, replacement@),
            final(self)@.text == splice(
                old(self)@.text,
                start as int,
                end as int,
                replacement@,
            ),
            final(self).wf(),
    {
        let ghost before = self@;
        proof {
            lemma_apply_wf(before, start as int, end as int, replacement@);
        }
        let original: String = rope_slice(&self.rope, start, end);
        let edit = Edit { start, end, replacement: replacement.to_owned(), original };
        self.swap_text(start, end, replacement);
        self.dirty = true;
        if self.compound_depth > 0 {
            self.pending_compound.push(edit);
            assert(self@.pend =~= before.pend.push(edit_view(edit)));
        } else {
            let mut one: Vec<Edit> = Vec::new();
            one.push(edit);
            assert(edits_view(one@) =~= seq![edit_view(edit)]);
            self.push_node(one);
        }
    }

    /// The step of the history at the head.
    pub(crate) fn head_step(&self) -> (h: Option<usize>)
        ensures
            int_opt(h) == self@.head,
    {
        self.head
    }

    /// Makes the step at the head part of the step `p` before it, so that one
    /// undo takes both back.
    pub fn join_step(&mut self, p: usize)
        requires
            old(self).wf(),
        ensures
            final(self)@ == old(self)@.join(p as int),
            final(self)@.text == old(self)@.text,
            final(self)@.depth == old(self)@.depth,
            final(self).wf(),
    {
        let ghost before = self@;
        proof {
            reveal(BufV::join);
            lemma_join_wf(before, p as int);
        }
        let n: usize = self.nodes.len();
        if self.compound_depth != 0 || n < 2 || p != n - 2 {
            return;
        }
        let at_head: bool = match self.head {
            Some(h) => h == n - 1,
            None => false,
        };
        let follows: bool = match self.nodes[n - 1].parent {
            Some(q) => q == p,
            None => false,
        };
        assert(before.nodes[n - 1] == node_view(self.nodes@[n - 1]));
        assert(before.nodes[p as int] == node_view(self.nodes@[p as int]));
        if !at_head || !follows || self.nodes[p].children.len() != 1 || self.nodes[p].children[0]
            != n - 1 {
            proof {
                if before.joins(p as int) {
                    assert(before.nodes[p as int].children.len() == 1);
                    assert(before.nodes[p as int].children[0] == n - 1);
                    assert(false);
                }
            }
            return;
        }
        assert(before.nodes[p as int].children =~= seq![n - 1]);
        if let Some(last) = self.nodes.pop() {
            if let Some(first) = self.nodes.pop() {
                let mut edits: Vec<Edit> = first.edits;
                let mut more: Vec<Edit> = last.edits;
                edits.append(&mut more);
                self.nodes.push(UndoNode { edits, parent: first.parent, children: Vec::new() });
            }
        }
        self.head = Some(p);
        proof {
            let goal = before.join(p as int);
            assert(self@.nodes[p as int].edits =~= goal.nodes[p as int].edits);
            assert(self@.nodes[p as int].children =~= Seq::empty());
            assert(self@.nodes =~= goal.nodes);
        }
    }

    /// Replaces the bytes `start..end` without a record.
    fn swap_text(&mut self, start: usize, end: usize, with: &str)
        requires
            range_ok(old(self)@.text, start as int, end as int),
        ensures
            final(self)@ == (BufV {
                text: splice(old(self)@.text, start as int, end as int, with@),
                ..old(self)@
            }),
    {
        let ghost t = self@.text;
        proof {
            text::lemma_at(t, start as int);
            text::lemma_at(t, end as int);
            text::lemma_at_mono(t, start as int, end as int);
        }
        let lo: usize = self.rope.byte_to_char(start);
        let hi: usize = self.rope.byte_to_char(end);
        rope_remove(&mut self.rope, lo, hi);
        self.rope.insert(lo, with);
        assert(self@.text =~= splice(t, start as int, end as int, with@));
    }

    /// Takes back the step at the head. Returns the byte offset at which the
    /// step's first edit starts, or `None` when there is nothing to undo.
    pub fn undo(&mut self) -> (r: Option<usize>)
        requires
            old(self).wf(),
            old(self)@.calm(),
        ensures
            final(self)@ == old(self)@.undo().0,
            int_opt(r) == old(self)@.undo().1,
            final(self).wf(),
            final(self)@.calm(),
    {
        let ghost before = self@;
        proof {
            lemma_undo_redo_wf(before);
        }
        let h: usize = match self.head {
            None => {
                return None;
            },
            Some(h) => h,
        };
        let ghost node = before.nodes[h as int];
        let ghost t0 = text_at(before.base, before.nodes, node.parent);
        let mut k: usize = self.nodes[h].edits.len();
        assert(node.edits.take(k as int) =~= node.edits);
        while k > 0
            invariant
                h < before.nodes.len(),
                node == before.nodes[h as int],
                k <= node.edits.len(),
                self@ == (BufV { text: run(t0, node.edits.take(k as int)), ..before }),
                run_ok(t0, node.edits.take(k as int)),
            decreases k,
        {
            let ghost es = node.edits.take(k as int);
            assert(es.drop_last() =~= node.edits.take(k - 1));
            assert(es.last() == node.edits[k - 1]);
            proof {
                lemma_splice(run(t0, node.edits.take(k - 1)), node.edits[k - 1]);
            }
            let _n: usize = self.rope.len_bytes();
            assert(self.nodes@[h as int].edits@.len() == node.edits.len());
            assert(edit_view(self.nodes@[h as int].edits@[k - 1]) == node.edits[k - 1]);
            let start: usize = self.nodes[h].edits[k - 1].start;
            let end: usize = start + byte_len(&self.nodes[h].edits[k - 1].replacement);
            let original: String = self.nodes[h].edits[k - 1].original.clone();
            self.swap_text(start, end, &original);
            k = k - 1;
        }
        assert(node.edits.take(0) =~= Seq::empty());
        let land: usize = if self.nodes[h].edits.len() > 0 {
            assert(edit_view(self.nodes@[h as int].edits@[0]) == node.edits[0]);
            self.nodes[h].edits[0].start
        } else {
            0
        };
        self.head = self.nodes[h].parent;
        self.dirty = true;
        Some(land)
    }

    /// Goes to the newest child of the head and makes its edits again.
    /// Returns the byte offset after the last one, or `None` when there is
    /// nothing to redo.
    pub fn redo(&mut self) -> (r: Option<usize>)
        requires
            old(self).wf(),
            old(self)@.calm(),
        ensures
            final(self)@ == old(self)@.redo().0,
            int_opt(r) == old(self)@.redo().1,
            final(self).wf(),
            final(self)@.calm(),
    {
        let ghost before = self@;
        proof {
            lemma_undo_redo_wf(before);
        }
        let h: usize = match self.redo_node() {
            None => {
                return None;
            },
            Some(h) => h,
        };
        let ghost node = before.nodes[h as int];
        let n: usize = self.nodes[h].edits.len();
        let mut k: usize = 0;
        let mut land: usize = 0;
        assert(node.edits.take(0) =~= Seq::empty());
        assert(node.edits.take(n as int) =~= node.edits);
        while k < n
            invariant
                h < before.nodes.len(),
                node == before.nodes[h as int],
                n == node.edits.len(),
                k <= n,
                self@ == (BufV { text: run(before.text, node.edits.take(k as int)), ..before }),
                run_ok(before.text, node.edits),
                land == if k > 0 {
                    node.edits[k - 1].start + text::blen(node.edits[k - 1].repl)
                } else {
                    0
                },
            decreases n - k,
        {
            proof {
                lemma_run_ok_prefix(before.text, node.edits, k + 1);
                assert(node.edits.take(k + 1).drop_last() =~= node.edits.take(k as int));
                lemma_splice(run(before.text, node.edits.take(k as int)), node.edits[k as int]);
            }
            assert(edit_view(self.nodes@[h as int].edits@[k as int]) == node.edits[k as int]);
            let start: usize = self.nodes[h].edits[k].start;
            let end: usize = self.nodes[h].edits[k].end;
            let with: String = self.nodes[h].edits[k].replacement.clone();
            self.swap_text(start, end, &with);
            let _n: usize = self.rope.len_bytes();
            land = start + byte_len(&with);
            k = k + 1;
        }
        self.head = Some(h);
        self.dirty = true;
        Some(land)
    }

    fn redo_node(&self) -> (r: Option<usize>)
        requires
            self.wf(),
        ensures
            int_opt(r) == redo_target(self@),
    {
        match self.head {
            Some(h) => {
                let n: usize = self.nodes[h].children.len();
                assert(self@.nodes[h as int].children.len() == n);
                if n == 0 {
                    None
                } else {
                    assert(self@.nodes[h as int].children[n - 1]
                        == self.nodes@[h as int].children@[n - 1]);
                    Some(self.nodes[h].children[n - 1])
                }
            },
            None => {
                let mut k: usize = self.nodes.len();
                assert(self@.nodes.take(k as int) =~= self@.nodes);
                while k > 0
                    invariant
                        k <= self.nodes.len(),
                        self@.nodes.len() == self.nodes.len(),
                        last_root(self@.nodes) == last_root(self@.nodes.take(k as int)),
                        self@.head is None,
                    decreases k,
                {
                    let ghost pre = self@.nodes.take(k as int);
                    assert(pre.last() == node_view(self.nodes@[k - 1]));
                    assert(pre.drop_last() =~= self@.nodes.take(k - 1));
                    if self.nodes[k - 1].parent.is_none() {
                        return Some(k - 1);
                    }
                    k = k - 1;
                }
                None
            },
        }
    }

    pub fn line_count(&self) -> (n: usize)
        ensures
            n == lines::line_count(self@.text),
            n >= 1,
    {
        proof {
            lines::lemma_line_start(self@.text, 0);
        }
        self.rope.len_lines()
    }

    /// Length of the text in bytes.
    pub fn len_bytes(&self) -> (n: usize)
        ensures
            n == text::blen(self@.text),
    {
        self.rope.len_bytes()
    }

    /// Line `idx` without its line feed; empty past the last line.
    pub fn line(&self, idx: usize) -> (s: String)
        ensures
            s@ == lines::line_text(self@.text, idx as int),
    {
        if idx >= self.rope.len_lines() {
            proof {
                lines::lemma_line_start(self@.text, idx as int);
                lines::lemma_line_start(self@.text, idx + 1);
                assert(lines::line_raw(self@.text, idx as int) =~= Seq::empty());
            }
            return String::new();
        }
        let s: String = rope_line(&self.rope, idx);
        let v: Vec<char> = text::chars_of(&s);
        let n: usize = v.len();
        if n > 0 && v[n - 1] == '\n' {
            let r: String = text::piece(&v, 0, n - 1);
            assert(r@ =~= s@.drop_last());
            r
        } else {
            s
        }
    }

    /// Byte offset at which a line starts; the length of the text past the
    /// last line.
    pub fn line_byte_offset(&self, line: usize) -> (b: usize)
        ensures
            b == lines::line_off(self@.text, line as int),
            b <= text::blen(self@.text),
    {
        proof {
            lines::lemma_line_start(self@.text, line as int);
            text::lemma_off_mono(
                self@.text,
                lines::line_start(self@.text, line as int),
                self@.text.len() as int,
            );
        }
        if line >= self.rope.len_lines() {
            return self.rope.len_bytes();
        }
        self.rope.line_to_byte(line)
    }

    /// Line that a byte stands on.
    pub fn byte_to_line(&self, byte: usize) -> (k: usize)
        requires
            byte <= text::blen(self@.text),
        ensures
            k == lines::line_at(self@.text, byte as int),
            k < lines::line_count(self@.text),
    {
        proof {
            text::lemma_at(self@.text, byte as int);
            lines::lemma_line_of(self@.text, text::at(self@.text, byte as int));
        }
        self.rope.byte_to_line(byte)
    }

    /// Line that a byte stands on, and its distance from the line's start.
    pub fn byte_to_line_col(&self, byte: usize) -> (r: (usize, usize))
        requires
            byte <= text::blen(self@.text),
        ensures
            r.0 == lines::line_at(self@.text, byte as int),
            r.1 == byte - lines::line_off(self@.text, r.0 as int),
            r.0 < lines::line_count(self@.text),
    {
        let line: usize = self.byte_to_line(byte);
        let start: usize = self.rope.line_to_byte(line);
        proof {
            let t = self@.text;
            let i = text::at(t, byte as int);
            text::lemma_at(t, byte as int);
            lines::lemma_line_of(t, i);
            lines::lemma_line_start(t, line as int);
            text::lemma_off_mono(t, lines::line_start(t, line as int), i);
        }
        (line, byte - start)
    }

    /// The text between two byte offsets.
    pub fn slice(&self, lo: usize, hi: usize) -> (s: String)
        requires
            range_ok(self@.text, lo as int, hi as int),
        ensures
            s@ == slice(self@.text, lo as int, hi as int),
    {
        rope_slice(&self.rope, lo, hi)
    }

    /// A buffer on a file with that content. `name` is the last part of the
    /// path; `lang` is the file's extension in lower case when it is that of
    /// a known language.
    pub fn from_path(path: String, name: &str, content: &str, lang: Option<String>) -> (b: Buffer)
        ensures
            b@ == BufV::fresh(content@, Some(path@), b@.kind),
            kind_view(b@.kind) == kind_of(name@, content@, str_opt(lang)),
            b.wf(),
    {
        let kind: FileKind = detect_kind(name, content, lang);
        let mut b: Buffer = Buffer::from_str(content, kind);
        b.path = Some(path);
        b
    }

    pub fn is_dirty(&self) -> (r: bool)
        ensures
            r == self@.dirty,
    {
        self.dirty
    }

    pub fn path_ref(&self) -> (r: &Option<String>)
        ensures
            str_opt(*r) == self@.path,
    {
        &self.path
    }

    /// Points the buffer at another file.
    pub fn set_path(&mut self, path: String)
        ensures
            final(self)@ == (BufV { path: Some(path@), ..old(self)@ }),
    {
        self.path = Some(path);
    }

    pub fn set_kind(&mut self, kind: FileKind)
        ensures
            final(self)@ == (BufV { kind, ..old(self)@ }),
    {
        self.kind = kind;
    }

    /// The file to write and the text to write into it.
    pub fn save(&self) -> (r: Result<(String, String), String>)
        ensures
            match r {
                Ok((p, t)) => self@.path == Some(p@) && t@ == self@.text,
                Err(e) => self@.path is None && e@ == "no file"@,
            },
    {
        match &self.path {
            Some(p) => Ok((p.clone(), self.text())),
            None => Err("no file".to_owned()),
        }
    }

    /// The text was written to the file.
    pub fn mark_saved(&mut self)
        ensures
            final(self)@ == (BufV { dirty: false, ..old(self)@ }),
    {
        self.dirty = false;
    }

    pub fn kind_ref(&self) -> (k: &FileKind)
        ensures
            *k == self@.kind,
    {
        &self.kind
    }

    /// The whole text.
    pub fn text(&self) -> (s: String)
        ensures
            s@ == self@.text,
    {
        rope_string(&self.rope)
    }

    /// The characters of the whole text.
    pub fn chars(&self) -> (v: Vec<char>)
        ensures
            v@ == self@.text,
            text::blen(self@.text) <= usize::MAX,
    {
        let s: String = rope_string(&self.rope);
        text::chars_of(&s)
    }
}

/// Model of a [`FileKind`].
#[verifier::ext_equal]
pub enum KindV {
    Plain,
    Email,
    Source(Seq<char>),
}

pub open spec fn kind_view(k: FileKind) -> KindV {
    match k {
        FileKind::Plain => KindV::Plain,
        FileKind::Email => KindV::Email,
        FileKind::Source(s) => KindV::Source(s@),
    }
}

/// First line from number `k` on that is not empty.
pub open spec fn first_full(ls: Seq<Seq<char>>, k: int) -> Seq<char>
    decreases ls.len() - k,
{
    if k < 0 || k >= ls.len() {
        Seq::empty()
    } else if ls[k].len() > 0 {
        ls[k]
    } else {
        first_full(ls, k + 1)
    }
}

/// A message by its name or its first line comes before source by its
/// extension.
pub open spec fn kind_of(name: Seq<char>, content: Seq<char>, lang: Option<Seq<char>>) -> KindV {
    let first = first_full(strs::lines_from(content, 0), 0);
    if strs::suffixed(name, ".eml"@) || strs::prefixed(name, "kastrup_compose_"@)
        || strs::prefixed(name, "kastrup_body_"@) || strs::prefixed(first, "From:"@)
        || strs::prefixed(first, "To:"@) || strs::prefixed(first, "Subject:"@) {
        KindV::Email
    } else {
        match lang {
            Some(l) => KindV::Source(l),
            None => KindV::Plain,
        }
    }
}

/// Kind of a file by its name, its content and the language that its
/// extension stands for.
pub fn detect_kind(name: &str, content: &str, lang: Option<String>) -> (k: FileKind)
    ensures
        kind_view(k) == kind_of(name@, content@, str_opt(lang)),
{
    let ls: Vec<String> = strs::split_lines(content);
    let ghost lv = crate::fold::views(ls@);
    let mut i: usize = 0;
    while i < ls.len() && text::chars_of(&ls[i]).len() == 0
        invariant
            i <= ls.len(),
            lv == crate::fold::views(ls@),
            first_full(lv, 0) == first_full(lv, i as int),
        decreases ls.len() - i,
    {
        assert(lv[i as int] == ls@[i as int]@);
        i += 1;
    }
    let first: String = if i < ls.len() {
        assert(lv[i as int] == ls@[i as int]@);
        ls[i].clone()
    } else {
        String::new()
    };
    if strs::ends_with(name, ".eml") || strs::starts_with(name, "kastrup_compose_")
        || strs::starts_with(name, "kastrup_body_") || strs::starts_with(&first, "From:")
        || strs::starts_with(&first, "To:") || strs::starts_with(&first, "Subject:") {
        FileKind::Email
    } else {
        match lang {
            Some(l) => FileKind::Source(l),
            None => FileKind::Plain,
        }
    }
}

proof fn lemma_run_ok_prefix(t: Seq<char>, es: Seq<EditV>, k: int)
    requires
        run_ok(t, es),
        0 <= k <= es.len(),
    ensures
        run_ok(t, es.take(k)),
    decreases es.len(),
{
    if k == es.len() {
        assert(es.take(k) =~= es);
    } else {
        lemma_run_ok_prefix(t, es.drop_last(), k);
        assert(es.drop_last().take(k) =~= es.take(k));
    }
}

} // verus!
