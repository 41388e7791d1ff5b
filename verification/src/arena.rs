//! The arena that holds the tree while it is being assembled. Nodes are
//! addressed by index; parent-to-child edges are index lists, and an entry
//! with `end == None` is still open. Children always carry larger indices
//! than their parent, so every walk toward the leaves terminates.

use vstd::prelude::*;
use crate::node::Kind;
use crate::node::Node;
use crate::node::node_wf;

verus! {

/// One node of the tree under construction.
#[derive(Debug)]
pub struct Entry {
    pub kind: Kind,
    pub start: usize,
    pub end: Option<usize>,
    pub children: Vec<usize>,
}

/// The whole tree under construction; entry 0 is the Document root.
#[derive(Debug)]
pub struct Arena {
    pub nodes: Vec<Entry>,
}

pub open spec fn closed(ns: Seq<Entry>, i: int) -> bool {
    ns[i].end is Some
}

pub open spec fn end_val(ns: Seq<Entry>, i: int) -> int {
    ns[i].end.unwrap() as int
}

/// Local well-formedness of entry `i` while the cursor stands at `q`:
/// all offsets lie at or before the cursor, child indices point strictly
/// forward, only the last child may still be open, and sibling spans are
/// increasing and non-overlapping, inside the parent.
pub open spec fn entry_ok(ns: Seq<Entry>, i: int, q: int) -> bool {
    let e = ns[i];
    let cs = e.children@;
    &&& e.start <= q
    &&& (e.end matches Some(en) ==> e.start <= en && en <= q)
    &&& (forall|j: int| 0 <= j < cs.len() ==> i < #[trigger] cs[j] as int && cs[j] < ns.len())
    &&& (forall|j: int, k: int| 0 <= j < k < cs.len() ==> #[trigger] cs[j] < #[trigger] cs[k])
    &&& (forall|j: int| 0 <= j < cs.len() - 1 ==> closed(ns, #[trigger] cs[j] as int))
    &&& (closed(ns, i) && cs.len() > 0 ==> closed(ns, cs[cs.len() - 1] as int))
    &&& (forall|j: int| 0 <= j < cs.len() ==> ns[#[trigger] cs[j] as int].start >= e.start)
    &&& (forall|j: int, k: int| 0 <= j && k == j + 1 && k < cs.len() ==>
        ns[#[trigger] cs[k] as int].start >= end_val(ns, #[trigger] cs[j] as int))
    &&& (closed(ns, i) && cs.len() > 0 ==>
        end_val(ns, cs[cs.len() - 1] as int) <= e.end.unwrap())
}

/// The Document root starts at offset 0 and its children tile the source:
/// each child starts exactly where the previous one ended, and once the last
/// child is closed it ends exactly at the cursor.
pub open spec fn doc_ok(ns: Seq<Entry>, q: int) -> bool {
    let cs = ns[0].children@;
    &&& ns[0].kind == Kind::Document
    &&& ns[0].start == 0
    &&& (cs.len() > 0 ==> ns[cs[0] as int].start == 0)
    &&& (forall|j: int, k: int| 0 <= j && k == j + 1 && k < cs.len() ==>
        ns[#[trigger] cs[k] as int].start == end_val(ns, #[trigger] cs[j] as int))
    &&& (cs.len() > 0 && closed(ns, cs[cs.len() - 1] as int) ==>
        end_val(ns, cs[cs.len() - 1] as int) == q)
}

/// Arena well-formedness at cursor `q`.
pub open spec fn wf(a: Arena, q: int) -> bool {
    &&& 1 <= a.nodes@.len()
    &&& forall|i: int| 0 <= i < a.nodes@.len() ==> #[trigger] entry_ok(a.nodes@, i, q)
    &&& doc_ok(a.nodes@, q)
}

/// The Document root either has no children yet, or its last child is still
/// open. While this holds the cursor may advance freely.
pub open spec fn doc_tail_open(ns: Seq<Entry>) -> bool {
    let cs = ns[0].children@;
    cs.len() == 0 || !closed(ns, cs[cs.len() - 1] as int)
}

/// The Document root has children and its last child is still open: the
/// shape in which blocks deeper down may be closed freely.
pub open spec fn doc_tail_strict(ns: Seq<Entry>) -> bool {
    let cs = ns[0].children@;
    cs.len() > 0 && !closed(ns, cs[cs.len() - 1] as int)
}

/// Well-formedness is monotone in the cursor as long as the Document's last
/// child is still open (or absent): moving the cursor forward breaks nothing.
pub proof fn lemma_wf_mono(a: Arena, q1: int, q2: int)
    requires
        wf(a, q1),
        q1 <= q2,
        doc_tail_open(a.nodes@),
    ensures
        wf(a, q2),
{
    assert forall|i: int| 0 <= i < a.nodes@.len() implies #[trigger] entry_ok(a.nodes@, i, q2) by {
        assert(entry_ok(a.nodes@, i, q1));
    }
}

/// An entry whose own fields did not change, in an arena where no existing
/// entry changed its offsets, stays well-formed when the cursor advances.
proof fn lemma_entry_ok_frame(ns0: Seq<Entry>, ns: Seq<Entry>, i: int, q0: int, q: int)
    requires
        0 <= i < ns0.len(),
        entry_ok(ns0, i, q0),
        q0 <= q,
        ns0.len() <= ns.len(),
        ns[i].children@ == ns0[i].children@,
        ns[i].start == ns0[i].start,
        ns[i].end == ns0[i].end,
        forall|k: int| 0 <= k < ns0.len() ==>
            (#[trigger] ns[k]).start == ns0[k].start && ns[k].end == ns0[k].end,
    ensures
        entry_ok(ns, i, q),
{
    let cs = ns[i].children@;
    assert forall|j: int| 0 <= j < cs.len() implies
        i < #[trigger] cs[j] as int && cs[j] < ns.len() by {
        assert(i < cs[j] as int && cs[j] < ns0.len());
    }
    assert forall|j: int| 0 <= j < cs.len() - 1 implies
        closed(ns, #[trigger] cs[j] as int) by {
        assert(closed(ns0, cs[j] as int));
        assert(cs[j] < ns0.len());
    }
    if closed(ns, i) && cs.len() > 0 {
        assert(cs[cs.len() - 1] < ns0.len());
        assert(closed(ns0, cs[cs.len() - 1] as int));
    }
    assert forall|j: int, k: int| 0 <= j && k == j + 1 && k < cs.len() implies
        ns[#[trigger] cs[k] as int].start >= end_val(ns, #[trigger] cs[j] as int) by {
        assert(ns0[cs[k] as int].start >= end_val(ns0, cs[j] as int));
        assert(cs[j] < ns0.len() && cs[k] < ns0.len());
    }
    assert forall|j: int| 0 <= j < cs.len() implies
        ns[#[trigger] cs[j] as int].start >= ns[i].start by {
        assert(cs[j] < ns0.len());
        assert(ns0[cs[j] as int].start >= ns0[i].start);
    }
}

/// The cursor position after a push: the new node's end when it is born
/// closed, else the cursor unchanged.
pub open spec fn push_q(q: int, end: Option<usize>) -> int {
    match end {
        Some(en) => en as int,
        None => q,
    }
}

/// The parent of a freshly pushed child stays well-formed.
proof fn lemma_push_parent_ok(
    ns0: Seq<Entry>,
    ns: Seq<Entry>,
    p: int,
    idx: usize,
    start: usize,
    end: Option<usize>,
    q0: int,
    q: int,
)
    requires
        0 <= p < ns0.len(),
        ns.len() == ns0.len() + 1,
        idx as int == ns0.len(),
        entry_ok(ns0, p, q0),
        q0 <= q,
        ns0[p].end is None,
        ns0[p].start <= start,
        ({
            let cs = ns0[p].children@;
            cs.len() > 0 ==> closed(ns0, cs[cs.len() - 1] as int)
                && end_val(ns0, cs[cs.len() - 1] as int) <= start
        }),
        (end matches Some(en) ==> start <= en && en <= q),
        start <= q,
        start <= q0,
        ns[p].children@ == ns0[p].children@ + seq![idx],
        ns[p].start == ns0[p].start,
        ns[p].end == ns0[p].end,
        ns[idx as int].start == start,
        ns[idx as int].end == end,
        forall|k: int| 0 <= k < ns0.len() ==>
            (#[trigger] ns[k]).start == ns0[k].start && ns[k].end == ns0[k].end,
    ensures
        entry_ok(ns, p, q),
{
    let cs0 = ns0[p].children@;
    let cs = ns[p].children@;
    assert(cs.len() == cs0.len() + 1);
    assert forall|j: int| 0 <= j < cs.len() implies
        p < #[trigger] cs[j] as int && cs[j] < ns.len() by {
        if j < cs0.len() {
            assert(cs[j] == cs0[j]);
            assert(p < cs0[j] as int && cs0[j] < ns0.len());
        } else {
            assert(cs[j] == idx);
        }
    }
    assert forall|j: int, k: int| 0 <= j < k < cs.len() implies
        #[trigger] cs[j] < #[trigger] cs[k] by {
        if k < cs0.len() {
            assert(cs[j] == cs0[j] && cs[k] == cs0[k]);
        } else {
            assert(cs[k] == idx);
            assert(cs[j] == cs0[j]);
            assert(cs0[j] < ns0.len());
        }
    }
    assert forall|j: int| 0 <= j < cs.len() - 1 implies
        closed(ns, #[trigger] cs[j] as int) by {
        assert(cs[j] == cs0[j]);
        assert(cs0[j] < ns0.len());
        if j < cs0.len() - 1 {
            assert(closed(ns0, cs0[j] as int));
        } else {
            assert(closed(ns0, cs0[cs0.len() - 1] as int));
        }
    }
    assert forall|j: int| 0 <= j < cs.len() implies
        ns[#[trigger] cs[j] as int].start >= ns[p].start by {
        if j < cs0.len() {
            assert(cs[j] == cs0[j]);
            assert(cs0[j] < ns0.len());
            assert(ns0[cs0[j] as int].start >= ns0[p].start);
        } else {
            assert(cs[j] == idx);
        }
    }
    assert forall|j: int, k: int| 0 <= j && k == j + 1 && k < cs.len() implies
        ns[#[trigger] cs[k] as int].start >= end_val(ns, #[trigger] cs[j] as int) by {
        if k < cs0.len() {
            assert(cs[j] == cs0[j] && cs[k] == cs0[k]);
            assert(cs0[j] < ns0.len() && cs0[k] < ns0.len());
            assert(ns0[cs0[k] as int].start >= end_val(ns0, cs0[j] as int));
        } else {
            assert(cs[k] == idx && cs[j] == cs0[j]);
            assert(cs0[j] < ns0.len());
            assert(closed(ns0, cs0[cs0.len() - 1] as int));
        }
    }
}

/// Every entry stays well-formed when some open node `i` is closed at the
/// cursor.
proof fn lemma_close_entry_ok(
    ns0: Seq<Entry>,
    ns: Seq<Entry>,
    k: int,
    i: int,
    end: usize,
    q: int,
)
    requires
        0 <= k < ns0.len(),
        0 <= i < ns0.len(),
        ns.len() == ns0.len(),
        entry_ok(ns0, k, q),
        ns0[i].end is None,
        ns0[i].start <= end,
        end as int <= q,
        ({
            let cs = ns0[i].children@;
            cs.len() > 0 ==> closed(ns0, cs[cs.len() - 1] as int)
                && end_val(ns0, cs[cs.len() - 1] as int) <= end
        }),
        forall|j: int| 0 <= j < ns0.len() && j != i ==> #[trigger] ns[j] == ns0[j],
        ns[i].start == ns0[i].start,
        ns[i].end == Some(end),
        ns[i].children == ns0[i].children,
        ns[i].kind == ns0[i].kind,
    ensures
        entry_ok(ns, k, q),
{
    let cs = ns[k].children@;
    assert(cs == ns0[k].children@);
    assert forall|j: int| 0 <= j < cs.len() implies
        k < #[trigger] cs[j] as int && cs[j] < ns.len() by {
        assert(k < cs[j] as int && cs[j] < ns0.len());
    }
    assert forall|j: int| 0 <= j < cs.len() - 1 implies
        closed(ns, #[trigger] cs[j] as int) by {
        assert(closed(ns0, cs[j] as int));
        assert(cs[j] < ns0.len());
    }
    if closed(ns, k) && cs.len() > 0 {
        let l = cs[cs.len() - 1] as int;
        assert(cs[cs.len() - 1] < ns0.len());
        if k != i {
            assert(closed(ns0, l));
        }
    }
    assert forall|j: int, jj: int| 0 <= j && jj == j + 1 && jj < cs.len() implies
        ns[#[trigger] cs[jj] as int].start >= end_val(ns, #[trigger] cs[j] as int) by {
        assert(cs[j] < ns0.len() && cs[jj] < ns0.len());
        assert(ns0[cs[jj] as int].start >= end_val(ns0, cs[j] as int));
        assert(closed(ns0, cs[j] as int));
    }
    if cs.len() > 0 {
        assert(cs[0] < ns0.len());
    }
}

impl Arena {
    /// A fresh arena holding only the open Document root at offset 0.
    pub fn new() -> (a: Arena)
        ensures
            wf(a, 0),
            a.nodes@.len() == 1,
            a.nodes@[0].kind == Kind::Document,
            a.nodes@[0].start == 0,
            a.nodes@[0].end is None,
            a.nodes@[0].children@.len() == 0,
    {
        let root = Entry { kind: Kind::Document, start: 0, end: None, children: Vec::new() };
        let mut nodes: Vec<Entry> = Vec::new();
        nodes.push(root);
        Arena { nodes }
    }

    /// Append a new node under `parent`. A node born with `end == None` is
    /// opened at the cursor (`start`); one born with `end == Some(en)` is a
    /// finished leaf and moves the cursor to `en`.
    #[verifier::rlimit(60)]
    pub fn push_child(&mut self, parent: usize, kind: Kind, start: usize, end: Option<usize>,
        q: Ghost<int>) -> (idx: usize)
        requires
            wf(*old(self), q@),
            start as int <= q@,
            parent < old(self).nodes@.len(),
            old(self).nodes@[parent as int].end is None,
            old(self).nodes@[parent as int].start <= start,
            ({
                let cs = old(self).nodes@[parent as int].children@;
                cs.len() > 0 ==> closed(old(self).nodes@, cs[cs.len() - 1] as int)
                    && end_val(old(self).nodes@, cs[cs.len() - 1] as int) <= start
            }),
            parent == 0 ==> ({
                let cs = old(self).nodes@[0].children@;
                &&& (cs.len() == 0 ==> start == 0)
                &&& (cs.len() > 0 ==>
                    end_val(old(self).nodes@, cs[cs.len() - 1] as int) == start)
            }),
            parent != 0 ==> doc_tail_open(old(self).nodes@),
            (end matches Some(en) ==> start <= en && q@ <= en),
        ensures
            idx == old(self).nodes@.len(),
            final(self).nodes@.len() == old(self).nodes@.len() + 1,
            forall|j: int| 0 <= j < old(self).nodes@.len() && j != parent as int ==>
                final(self).nodes@[j] == old(self).nodes@[j],
            final(self).nodes@[parent as int].kind == old(self).nodes@[parent as int].kind,
            final(self).nodes@[parent as int].start == old(self).nodes@[parent as int].start,
            final(self).nodes@[parent as int].end == old(self).nodes@[parent as int].end,
            final(self).nodes@[parent as int].children@
                == old(self).nodes@[parent as int].children@ + seq![idx],
            final(self).nodes@[idx as int].kind == kind,
            final(self).nodes@[idx as int].start == start,
            final(self).nodes@[idx as int].end == end,
            final(self).nodes@[idx as int].children@.len() == 0,
            wf(*final(self), push_q(q@, end)),
    {
        let idx = self.nodes.len();
        let entry = Entry { kind, start, end, children: Vec::new() };
        self.nodes.push(entry);
        self.nodes[parent].children.push(idx);
        proof {
            let ns0 = old(self).nodes@;
            let ns = self.nodes@;
            let q2 = push_q(q@, end);
            let p = parent as int;
            assert forall|k: int| 0 <= k < ns0.len() implies
                (#[trigger] ns[k]).start == ns0[k].start && ns[k].end == ns0[k].end by {}
            assert forall|i: int| 0 <= i < ns.len() implies #[trigger] entry_ok(ns, i, q2) by {
                if i < ns0.len() {
                    assert(entry_ok(ns0, i, q@));
                    if i == p {
                        assert(ns[p].children@ =~= ns0[p].children@ + seq![idx]);
                        lemma_push_parent_ok(ns0, ns, p, idx, start, end, q@, q2);
                    } else {
                        assert(ns[i] == ns0[i]);
                        lemma_entry_ok_frame(ns0, ns, i, q@, q2);
                    }
                } else {
                    assert(i == idx as int);
                    assert(ns[i].children@.len() == 0);
                }
            }
            assert(doc_ok(ns, q2)) by {
                assert(entry_ok(ns0, 0, q@));
                let cs0 = ns0[0].children@;
                let cs = ns[0].children@;
                if parent == 0 {
                    assert(cs == cs0 + seq![idx]);
                    assert forall|j: int, k: int| 0 <= j && k == j + 1 && k < cs.len() implies
                        ns[#[trigger] cs[k] as int].start
                            == end_val(ns, #[trigger] cs[j] as int) by {
                        if k < cs0.len() {
                            assert(cs[j] == cs0[j] && cs[k] == cs0[k]);
                            assert(cs0[j] < ns0.len() && cs0[k] < ns0.len());
                            assert(ns0[cs0[k] as int].start == end_val(ns0, cs0[j] as int));
                            assert(closed(ns0, cs0[j] as int));
                        } else {
                            assert(cs[k] == idx && cs[j] == cs0[j]);
                            assert(cs0[j] < ns0.len());
                            assert(closed(ns0, cs0[cs0.len() - 1] as int));
                        }
                    }
                } else {
                    assert(ns[0] == ns0[0]);
                    assert forall|j: int, k: int| 0 <= j && k == j + 1 && k < cs.len() implies
                        ns[#[trigger] cs[k] as int].start
                            == end_val(ns, #[trigger] cs[j] as int) by {
                        assert(cs[j] < ns0.len() && cs[k] < ns0.len());
                        assert(ns0[cs[k] as int].start == end_val(ns0, cs[j] as int));
                        assert(closed(ns0, cs[j] as int));
                    }
                    if cs.len() > 0 {
                        assert(cs[cs.len() - 1] < ns0.len());
                        assert(!closed(ns0, cs[cs.len() - 1] as int));
                    }
                }
            }
        }
        idx
    }

    /// Close the open node `i` at offset `end`: fix its end, never to be
    /// reopened. Closing always happens at the current cursor, and a parent
    /// is only closed after its last child.
    #[verifier::rlimit(60)]
    pub fn close_at(&mut self, i: usize, end: usize, q: Ghost<int>)
        requires
            wf(*old(self), q@),
            end as int <= q@,
            i < old(self).nodes@.len(),
            old(self).nodes@[i as int].end is None,
            old(self).nodes@[i as int].start <= end,
            ({
                let cs = old(self).nodes@[i as int].children@;
                cs.len() > 0 ==> closed(old(self).nodes@, cs[cs.len() - 1] as int)
                    && end_val(old(self).nodes@, cs[cs.len() - 1] as int) <= end
            }),
            ({
                let dcs = old(self).nodes@[0].children@;
                i == 0 || (dcs.len() > 0 &&
                    (i as int == dcs[dcs.len() - 1] as int
                        || !closed(old(self).nodes@, dcs[dcs.len() - 1] as int)))
            }),
            ({
                let dcs = old(self).nodes@[0].children@;
                (dcs.len() > 0 && i as int == dcs[dcs.len() - 1] as int) ==> end as int == q@
            }),
        ensures
            final(self).nodes@.len() == old(self).nodes@.len(),
            forall|j: int| 0 <= j < old(self).nodes@.len() && j != i as int ==>
                final(self).nodes@[j] == old(self).nodes@[j],
            final(self).nodes@[i as int].kind == old(self).nodes@[i as int].kind,
            final(self).nodes@[i as int].start == old(self).nodes@[i as int].start,
            final(self).nodes@[i as int].end == Some(end),
            final(self).nodes@[i as int].children == old(self).nodes@[i as int].children,
            wf(*final(self), q@),
    {
        self.nodes[i].end = Some(end);
        proof {
            let ns0 = old(self).nodes@;
            let ns = self.nodes@;
            let q = q@;
            assert forall|k: int| 0 <= k < ns.len() implies #[trigger] entry_ok(ns, k, q) by {
                assert(entry_ok(ns0, k, q));
                lemma_close_entry_ok(ns0, ns, k, i as int, end, q);
            }
            assert(doc_ok(ns, q)) by {
                assert(entry_ok(ns0, 0, q));
                let cs = ns[0].children@;
                assert(cs == ns0[0].children@);
                assert forall|j: int, k: int| 0 <= j && k == j + 1 && k < cs.len() implies
                    ns[#[trigger] cs[k] as int].start
                        == end_val(ns, #[trigger] cs[j] as int) by {
                    assert(cs[j] < ns0.len() && cs[k] < ns0.len());
                    assert(ns0[cs[k] as int].start == end_val(ns0, cs[j] as int));
                    assert(closed(ns0, cs[j] as int));
                }
            }
        }
    }
}

/// An entry stays well-formed when previously open nodes elsewhere are
/// closed: every offset it reads from other entries is unchanged, and
/// closedness only grows.
proof fn lemma_entry_ok_close_frame(ns0: Seq<Entry>, ns: Seq<Entry>, i: int, q: int)
    requires
        0 <= i < ns0.len(),
        ns.len() == ns0.len(),
        entry_ok(ns0, i, q),
        ns[i] == ns0[i],
        forall|k: int| 0 <= k < ns0.len() ==> (#[trigger] ns[k]).start == ns0[k].start,
        forall|k: int| 0 <= k < ns0.len() && closed(ns0, k) ==>
            (#[trigger] ns[k]).end == ns0[k].end,
    ensures
        entry_ok(ns, i, q),
{
    let cs = ns[i].children@;
    assert(cs == ns0[i].children@);
    assert forall|j: int| 0 <= j < cs.len() implies
        i < #[trigger] cs[j] as int && cs[j] < ns.len() by {
        assert(i < cs[j] as int && cs[j] < ns0.len());
    }
    assert forall|j: int| 0 <= j < cs.len() - 1 implies
        closed(ns, #[trigger] cs[j] as int) by {
        assert(closed(ns0, cs[j] as int));
        assert(cs[j] < ns0.len());
    }
    if closed(ns, i) && cs.len() > 0 {
        let l = cs[cs.len() - 1] as int;
        assert(cs[cs.len() - 1] < ns0.len());
        assert(closed(ns0, l));
    }
    assert forall|j: int, jj: int| 0 <= j && jj == j + 1 && jj < cs.len() implies
        ns[#[trigger] cs[jj] as int].start >= end_val(ns, #[trigger] cs[j] as int) by {
        assert(cs[j] < ns0.len() && cs[jj] < ns0.len());
        assert(ns0[cs[jj] as int].start >= end_val(ns0, cs[j] as int));
        assert(closed(ns0, cs[j] as int));
    }
    assert forall|j: int| 0 <= j < cs.len() implies
        ns[#[trigger] cs[j] as int].start >= ns[i].start by {
        assert(cs[j] < ns0.len());
        assert(ns0[cs[j] as int].start >= ns0[i].start);
    }
}

impl Arena {
    /// Remove and return the open node `f`'s last child (its index).
    pub fn pop_child(&mut self, f: usize, q: Ghost<int>) -> (e: usize)
        requires
            wf(*old(self), q@),
            0 < f < old(self).nodes@.len(),
            old(self).nodes@[f as int].end is None,
            old(self).nodes@[f as int].children@.len() > 0,
        ensures
            wf(*final(self), q@),
            final(self).nodes@.len() == old(self).nodes@.len(),
            e as int == old(self).nodes@[f as int].children@[
                old(self).nodes@[f as int].children@.len() - 1] as int,
            forall|j: int| 0 <= j < old(self).nodes@.len() && j != f as int ==>
                final(self).nodes@[j] == old(self).nodes@[j],
            final(self).nodes@[f as int].kind == old(self).nodes@[f as int].kind,
            final(self).nodes@[f as int].start == old(self).nodes@[f as int].start,
            final(self).nodes@[f as int].end == old(self).nodes@[f as int].end,
            final(self).nodes@[f as int].children@
                == old(self).nodes@[f as int].children@.drop_last(),
    {
        proof {
            assert(entry_ok(old(self).nodes@, f as int, q@));
        }
        let m = self.nodes[f].children.len();
        let e = match self.nodes[f].children.pop() {
            Some(e) => e,
            None => 0,
        };
        proof {
            let ns0 = old(self).nodes@;
            let ns = self.nodes@;
            assert(ns[f as int].children@ =~= ns0[f as int].children@.drop_last());
            assert forall|i: int| 0 <= i < ns.len() implies #[trigger] entry_ok(ns, i, q@) by {
                assert(entry_ok(ns0, i, q@));
                if i == f as int {
                    let cs0 = ns0[i].children@;
                    let cs = ns[i].children@;
                    assert forall|j: int| 0 <= j < cs.len() implies
                        i < #[trigger] cs[j] as int && cs[j] < ns.len() by {
                        assert(cs[j] == cs0[j]);
                    }
                    assert forall|j: int| 0 <= j < cs.len() - 1 implies
                        closed(ns, #[trigger] cs[j] as int) by {
                        assert(cs[j] == cs0[j]);
                        assert(closed(ns0, cs0[j] as int));
                        assert(cs0[j] < ns0.len());
                    }
                    if cs.len() > 0 {
                        assert(cs[cs.len() - 1] == cs0[cs.len() - 1]);
                        assert(closed(ns0, cs0[cs.len() - 1] as int));
                    }
                    assert forall|j: int, jj: int| 0 <= j && jj == j + 1 && jj < cs.len() implies
                        ns[#[trigger] cs[jj] as int].start
                            >= end_val(ns, #[trigger] cs[j] as int) by {
                        assert(cs[j] == cs0[j] && cs[jj] == cs0[jj]);
                        assert(cs0[j] < ns0.len() && cs0[jj] < ns0.len());
                        assert(ns0[cs0[jj] as int].start >= end_val(ns0, cs0[j] as int));
                    }
                    assert forall|j: int| 0 <= j < cs.len() implies
                        ns[#[trigger] cs[j] as int].start >= ns[i].start by {
                        assert(cs[j] == cs0[j]);
                        assert(cs0[j] < ns0.len());
                        assert(ns0[cs0[j] as int].start >= ns0[i].start);
                    }
                } else {
                    assert(ns[i] == ns0[i]);
                    lemma_entry_ok_frame(ns0, ns, i, q@, q@);
                }
            }
            assert(doc_ok(self.nodes@, q@)) by {
                assert(self.nodes@[0] == old(self).nodes@[0]);
                let cs = self.nodes@[0].children@;
                assert(entry_ok(old(self).nodes@, 0, q@));
                assert forall|j: int, k: int| 0 <= j && k == j + 1 && k < cs.len() implies
                    self.nodes@[#[trigger] cs[k] as int].start
                        == end_val(self.nodes@, #[trigger] cs[j] as int) by {
                    assert(cs[j] < old(self).nodes@.len() && cs[k] < old(self).nodes@.len());
                    assert(old(self).nodes@[cs[k] as int].start
                        == end_val(old(self).nodes@, cs[j] as int));
                    assert(cs[j] as int != f as int || true);
                    if cs[j] as int == f as int {
                        assert(self.nodes@[f as int].end == old(self).nodes@[f as int].end);
                    } else {
                        assert(self.nodes@[cs[j] as int] == old(self).nodes@[cs[j] as int]);
                    }
                    if cs[k] as int == f as int {
                        assert(self.nodes@[f as int].start == old(self).nodes@[f as int].start);
                    } else {
                        assert(self.nodes@[cs[k] as int] == old(self).nodes@[cs[k] as int]);
                    }
                }
                if cs.len() > 0 {
                    let l = cs[cs.len() - 1] as int;
                    assert(l < old(self).nodes@.len());
                    if l == f as int {
                        assert(self.nodes@[l].end == old(self).nodes@[l].end);
                    } else {
                        assert(self.nodes@[l] == old(self).nodes@[l]);
                    }
                }
            }
        }
        e
    }

    /// Close the Document's last child `dl` at offset `s` and, in the same
    /// stroke, adopt the already-closed node `e` as the Document's new last
    /// child: `e` starts exactly where `dl` now ends, so the Document's
    /// children still tile the source.
    #[verifier::rlimit(100)]
    pub fn close_and_adopt(&mut self, dl: usize, e: usize, s: usize, q: Ghost<int>)
        requires
            wf(*old(self), q@),
            old(self).nodes@[0].end is None,
            0 < dl < old(self).nodes@.len(),
            e < old(self).nodes@.len(),
            (dl as int) < e as int,
            ({
                let dcs = old(self).nodes@[0].children@;
                dcs.len() > 0 && dcs[dcs.len() - 1] as int == dl as int
            }),
            old(self).nodes@[dl as int].end is None,
            old(self).nodes@[dl as int].start <= s,
            ({
                let cs = old(self).nodes@[dl as int].children@;
                cs.len() > 0 ==> closed(old(self).nodes@, cs[cs.len() - 1] as int)
                    && end_val(old(self).nodes@, cs[cs.len() - 1] as int) <= s
            }),
            closed(old(self).nodes@, e as int),
            old(self).nodes@[e as int].start == s,
            end_val(old(self).nodes@, e as int) == q@,
            s as int <= q@,
        ensures
            wf(*final(self), q@),
            final(self).nodes@.len() == old(self).nodes@.len(),
            forall|j: int| 0 <= j < old(self).nodes@.len() && j != dl as int && j != 0 ==>
                final(self).nodes@[j] == old(self).nodes@[j],
            final(self).nodes@[dl as int].end == Some(s),
            final(self).nodes@[dl as int].kind == old(self).nodes@[dl as int].kind,
            final(self).nodes@[dl as int].start == old(self).nodes@[dl as int].start,
            final(self).nodes@[dl as int].children == old(self).nodes@[dl as int].children,
            final(self).nodes@[0].children@ == old(self).nodes@[0].children@ + seq![e],
            final(self).nodes@[0].end == old(self).nodes@[0].end,
            final(self).nodes@[0].kind == old(self).nodes@[0].kind,
            final(self).nodes@[0].start == old(self).nodes@[0].start,
    {
        proof {
            assert(entry_ok(old(self).nodes@, 0, q@));
            assert(entry_ok(old(self).nodes@, dl as int, q@));
            assert(entry_ok(old(self).nodes@, e as int, q@));
        }
        self.nodes[dl].end = Some(s);
        self.nodes[0].children.push(e);
        proof {
            let ns0 = old(self).nodes@;
            let ns = self.nodes@;
            assert(ns[0].children@ =~= ns0[0].children@ + seq![e]);
            assert forall|k: int| 0 <= k < ns0.len() implies
                (#[trigger] ns[k]).start == ns0[k].start by {}
            assert forall|k: int| 0 <= k < ns0.len() && closed(ns0, k) implies
                (#[trigger] ns[k]).end == ns0[k].end by {}
            assert forall|i: int| 0 <= i < ns.len() implies #[trigger] entry_ok(ns, i, q@) by {
                assert(entry_ok(ns0, i, q@));
                if i == 0 {
                    let cs0 = ns0[0].children@;
                    let cs = ns[0].children@;
                    assert forall|j: int| 0 <= j < cs.len() implies
                        i < #[trigger] cs[j] as int && cs[j] < ns.len() by {
                        if j < cs0.len() {
                            assert(cs[j] == cs0[j]);
                        } else {
                            assert(cs[j] == e);
                        }
                    }
                    assert forall|j: int, k: int| 0 <= j < k < cs.len() implies
                        #[trigger] cs[j] < #[trigger] cs[k] by {
                        if k < cs0.len() {
                            assert(cs[j] == cs0[j] && cs[k] == cs0[k]);
                        } else {
                            assert(cs[k] == e);
                            assert(cs[j] == cs0[j]);
                            assert(cs0[j] <= cs0[cs0.len() - 1]);
                        }
                    }
                    assert forall|j: int| 0 <= j < cs.len() - 1 implies
                        closed(ns, #[trigger] cs[j] as int) by {
                        assert(cs[j] == cs0[j]);
                        if j < cs0.len() - 1 {
                            assert(closed(ns0, cs0[j] as int));
                            assert(cs0[j] < ns0.len());
                        } else {
                            assert(cs0[j] as int == dl as int);
                        }
                    }
                    assert forall|j: int| 0 <= j < cs.len() implies
                        ns[#[trigger] cs[j] as int].start >= ns[i].start by {
                        if j < cs0.len() {
                            assert(cs[j] == cs0[j]);
                            assert(cs0[j] < ns0.len());
                            assert(ns0[cs0[j] as int].start >= ns0[0].start);
                        } else {
                            assert(cs[j] == e);
                        }
                    }
                    assert forall|j: int, k: int| 0 <= j && k == j + 1 && k < cs.len() implies
                        ns[#[trigger] cs[k] as int].start
                            >= end_val(ns, #[trigger] cs[j] as int) by {
                        if k < cs0.len() {
                            assert(cs[j] == cs0[j] && cs[k] == cs0[k]);
                            assert(cs0[j] < ns0.len() && cs0[k] < ns0.len());
                            assert(ns0[cs0[k] as int].start >= end_val(ns0, cs0[j] as int));
                            assert(closed(ns0, cs0[j] as int));
                        } else {
                            assert(cs[k] == e && cs[j] == cs0[cs0.len() - 1]);
                            assert(cs[j] as int == dl as int);
                            assert(ns[dl as int].end == Some(s));
                        }
                    }
                } else if i == dl as int {
                    let cs = ns[i].children@;
                    assert(cs == ns0[i].children@);
                    assert forall|j: int| 0 <= j < cs.len() implies
                        i < #[trigger] cs[j] as int && cs[j] < ns.len() by {
                        assert(i < cs[j] as int && cs[j] < ns0.len());
                    }
                    assert forall|j: int| 0 <= j < cs.len() - 1 implies
                        closed(ns, #[trigger] cs[j] as int) by {
                        assert(closed(ns0, cs[j] as int));
                        assert(cs[j] < ns0.len());
                    }
                    if cs.len() > 0 {
                        assert(cs[cs.len() - 1] < ns0.len());
                        assert(closed(ns0, cs[cs.len() - 1] as int));
                        assert(ns[cs[cs.len() - 1] as int].end
                            == ns0[cs[cs.len() - 1] as int].end);
                    }
                    assert forall|j: int, k: int| 0 <= j && k == j + 1 && k < cs.len() implies
                        ns[#[trigger] cs[k] as int].start
                            >= end_val(ns, #[trigger] cs[j] as int) by {
                        assert(cs[j] < ns0.len() && cs[k] < ns0.len());
                        assert(ns0[cs[k] as int].start >= end_val(ns0, cs[j] as int));
                        assert(closed(ns0, cs[j] as int));
                    }
                    assert forall|j: int| 0 <= j < cs.len() implies
                        ns[#[trigger] cs[j] as int].start >= ns[i].start by {
                        assert(cs[j] < ns0.len());
                        assert(ns0[cs[j] as int].start >= ns0[i].start);
                    }
                } else {
                    assert(ns[i] == ns0[i]);
                    lemma_entry_ok_close_frame(ns0, ns, i, q@);
                }
            }
            assert(doc_ok(ns, q@)) by {
                let cs0 = ns0[0].children@;
                let cs = ns[0].children@;
                assert forall|j: int, k: int| 0 <= j && k == j + 1 && k < cs.len() implies
                    ns[#[trigger] cs[k] as int].start
                        == end_val(ns, #[trigger] cs[j] as int) by {
                    if k < cs0.len() {
                        assert(cs[j] == cs0[j] && cs[k] == cs0[k]);
                        assert(cs0[j] < ns0.len() && cs0[k] < ns0.len());
                        assert(ns0[cs0[k] as int].start == end_val(ns0, cs0[j] as int));
                        assert(closed(ns0, cs0[j] as int));
                    } else {
                        assert(cs[k] == e && cs[j] == cs0[cs0.len() - 1]);
                        assert(cs[j] as int == dl as int);
                        assert(ns[dl as int].end == Some(s));
                        assert(ns[e as int].start == s);
                    }
                }
                assert(cs[cs.len() - 1] == e);
                assert(closed(ns, e as int));
                assert(end_val(ns, e as int) == q@);
            }
        }
    }
}

/// Rebuild the finished subtree rooted at entry `i` as a `Node` tree.
/// In a well-formed arena every child of a closed entry is itself closed,
/// so the whole subtree can be walked.
pub fn build(a: &Arena, i: usize, q: Ghost<int>) -> (n: Node)
    requires
        wf(*a, q@),
        i < a.nodes@.len(),
        closed(a.nodes@, i as int),
    ensures
        node_wf(n),
        n.kind == a.nodes@[i as int].kind,
        n.span.0 == a.nodes@[i as int].start,
        n.span.1 == a.nodes@[i as int].end.unwrap(),
        n.children@.len() == a.nodes@[i as int].children@.len(),
        forall|k: int| 0 <= k < n.children@.len() ==> (#[trigger] n.children@[k]).span.0
            == a.nodes@[a.nodes@[i as int].children@[k] as int].start
            && n.children@[k].span.1
            == end_val(a.nodes@, a.nodes@[i as int].children@[k] as int)
            && n.children@[k].kind
            == a.nodes@[a.nodes@[i as int].children@[k] as int].kind,
    decreases a.nodes@.len() - i,
{
    proof {
        assert(entry_ok(a.nodes@, i as int, q@));
    }
    let e_kind = a.nodes[i].kind;
    let e_start = a.nodes[i].start;
    let e_end = match a.nodes[i].end {
        Some(en) => en,
        None => 0,
    };
    let m = a.nodes[i].children.len();
    let mut children: Vec<Node> = Vec::new();
    let mut j: usize = 0;
    while j < m
        invariant
            wf(*a, q@),
            i < a.nodes@.len(),
            closed(a.nodes@, i as int),
            m == a.nodes@[i as int].children@.len(),
            j <= m,
            children@.len() == j,
            forall|k: int| 0 <= k < j ==> node_wf(#[trigger] children@[k]),
            forall|k: int| 0 <= k < j ==> (#[trigger] children@[k]).span.0
                == a.nodes@[a.nodes@[i as int].children@[k] as int].start
                && children@[k].span.1
                == end_val(a.nodes@, a.nodes@[i as int].children@[k] as int)
                && children@[k].kind
                == a.nodes@[a.nodes@[i as int].children@[k] as int].kind,
        decreases m - j,
    {
        proof {
            assert(entry_ok(a.nodes@, i as int, q@));
        }
        let c = a.nodes[i].children[j];
        proof {
            let cs = a.nodes@[i as int].children@;
            if (j as int) < m as int - 1 {
                assert(closed(a.nodes@, cs[j as int] as int));
            } else {
                assert(closed(a.nodes@, cs[cs.len() - 1] as int));
            }
        }
        let child = build(a, c, q);
        children.push(child);
        j = j + 1;
    }
    proof {
        assert(entry_ok(a.nodes@, i as int, q@));
        let cs = a.nodes@[i as int].children@;
        if m > 0 {
            assert(a.nodes@[cs[0] as int].start >= e_start);
            assert(end_val(a.nodes@, cs[m - 1] as int) <= e_end as int);
        }
    }
    let n = Node::new_block(e_kind, e_start, e_end, children);
    proof {
        let cs = a.nodes@[i as int].children@;
        assert forall|k: int| 0 <= k < n.children@.len() - 1 implies
            (#[trigger] n.children@[k]).span.1 <= n.children@[k + 1].span.0 by {
            assert(n.children@[k].span.1 == end_val(a.nodes@, cs[k] as int));
            assert(a.nodes@[cs[k + 1] as int].start >= end_val(a.nodes@, cs[k] as int));
        }
    }
    n
}

} // verus!
