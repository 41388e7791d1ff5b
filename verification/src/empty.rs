//! The blank-line-run strategy: an Empty block greedily accumulates
//! consecutive blank physical lines, one EmptyLine child per line, and
//! closes itself at the first non-blank line or at end of input. This module
//! also finds the trailing Empty block of an open list chain, the condition
//! under which the chain can no longer continue.

use vstd::prelude::*;
use crate::arena::{Arena, Entry, closed, doc_tail_strict, end_val, entry_ok, wf};
use crate::node::Kind;
use crate::token::{Token, token_at, token2_at, peek3};

verus! {

/// The end of the blank line at `p`, if the line is blank: optional
/// whitespace followed by a newline; the result is the offset just past the
/// newline.
pub open spec fn blank_at(s: Seq<u8>, p: int) -> Option<usize> {
    match token_at(s, p) {
        Some(Token::Newline((_, e))) => Some(e),
        Some(Token::Whitespace(_)) => match token2_at(s, p) {
            Some(Token::Newline((_, e))) => Some(e),
            _ => None,
        },
        _ => None,
    }
}

/// Peek whether the line at `p` is blank, returning the offset past its
/// newline.
pub fn peek_blank(source: &[u8], p: usize) -> (r: Option<usize>)
    requires
        p <= source@.len(),
    ensures
        r == blank_at(source@, p as int),
        r matches Some(e) ==> p < e <= source@.len(),
{
    let (a, b, _) = peek3(source, p);
    match a {
        Some(Token::Newline((_, e))) => Some(e),
        Some(Token::Whitespace(_)) => match b {
            Some(Token::Newline((_, e))) => Some(e),
            _ => None,
        },
        _ => None,
    }
}

/// A blank line is never empty and stays inside the source.
pub proof fn lemma_blank_at(s: Seq<u8>, p: int)
    requires
        0 <= p <= s.len(),
        s.len() <= usize::MAX,
    ensures
        blank_at(s, p) matches Some(e) ==> p < e <= s.len(),
{
    crate::token::lemma_token_at(s, p);
    match token_at(s, p) {
        Some(Token::Whitespace((_, we))) => {
            crate::token::lemma_token_at(s, we as int);
        }
        _ => {}
    }
}

/// The offset just past the maximal run of blank lines starting at `p`.
pub open spec fn blank_run_end(s: Seq<u8>, p: int) -> int
    decreases s.len() - p when 0 <= p <= s.len() && s.len() <= usize::MAX
        via blank_run_end_decreases
{
    match blank_at(s, p) {
        None => p,
        Some(e) => blank_run_end(s, e as int),
    }
}

#[via_fn]
proof fn blank_run_end_decreases(s: Seq<u8>, p: int) {
    lemma_blank_at(s, p);
}

/// The spans of the blank physical lines of the maximal run starting at
/// `p`: each pair is a line's start and the offset past its newline.
pub open spec fn blank_lines(s: Seq<u8>, p: int) -> Seq<(usize, usize)>
    decreases s.len() - p when 0 <= p <= s.len() && s.len() <= usize::MAX
        via blank_lines_decreases
{
    match blank_at(s, p) {
        None => Seq::empty(),
        Some(e) => seq![(p as usize, e)] + blank_lines(s, e as int),
    }
}

#[via_fn]
proof fn blank_lines_decreases(s: Seq<u8>, p: int) {
    lemma_blank_at(s, p);
}

/// Entry `i` holds exactly one closed EmptyLine child per given line span,
/// in order.
pub open spec fn empty_lines_filled(ns: Seq<Entry>, i: int, lines: Seq<(usize, usize)>) -> bool {
    let cs = ns[i].children@;
    &&& cs.len() == lines.len()
    &&& forall|k: int| 0 <= k < lines.len() ==> {
        let c = ns[#[trigger] cs[k] as int];
        &&& c.kind is EmptyLine
        &&& c.start == lines[k].0
        &&& c.end == Some(lines[k].1)
        &&& c.children@.len() == 0
    }
}

/// Greedily consume consecutive blank lines into the freshly opened Empty
/// block `i`, one closed EmptyLine child per blank physical line, then close
/// the block at the first non-blank position. Fails (returning nothing and
/// changing nothing) when the line at `start` is not blank.
pub fn consume(a: &mut Arena, i: usize, start: usize, source: &[u8]) -> (r: Option<usize>)
    requires
        wf(*old(a), start as int),
        start <= source@.len(),
        i < old(a).nodes@.len(),
        i != 0,
        old(a).nodes@[i as int].end is None,
        old(a).nodes@[i as int].children@.len() == 0,
        ({
            let dcs = old(a).nodes@[0].children@;
            dcs.len() > 0 && (i as int == dcs[dcs.len() - 1] as int
                || !closed(old(a).nodes@, dcs[dcs.len() - 1] as int))
        }),
    ensures
        r is None <==> blank_at(source@, start as int) is None,
        r is None ==> *final(a) == *old(a),
        r matches Some(p) ==> start < p <= source@.len(),
        r matches Some(p) ==> wf(*final(a), p as int)
            && final(a).nodes@[i as int].end == Some(p)
            && blank_at(source@, p as int) is None
            && p == blank_run_end(source@, start as int),
        r is Some ==> empty_lines_filled(final(a).nodes@, i as int,
            blank_lines(source@, start as int)),
        r is Some ==> final(a).nodes@.len() >= old(a).nodes@.len()
            && final(a).nodes@[i as int].kind == old(a).nodes@[i as int].kind
            && final(a).nodes@[i as int].start == old(a).nodes@[i as int].start
            && final(a).nodes@[0].children@ == old(a).nodes@[0].children@,
        forall|j: int| 0 <= j < old(a).nodes@.len() && j != i as int ==>
            final(a).nodes@[j] == old(a).nodes@[j],
{
    let ghost ns0 = old(a).nodes@;
    let ghost lines = blank_lines(source@, start as int);
    proof {
        assert(source.len() == source@.len());
    }
    let e0 = match peek_blank(source, start) {
        Some(e) => e,
        None => {
            return None;
        }
    };
    proof {
        assert(entry_ok(a.nodes@, i as int, start as int));
    }
    a.push_child(i, Kind::EmptyLine, start, Some(e0), Ghost(start as int));
    let ghost mut done: Seq<(usize, usize)> = seq![(start, e0)];
    proof {
        assert(a.nodes@[0] == old(a).nodes@[0]);
        assert(entry_ok(old(a).nodes@, 0, start as int));
        let dcs = a.nodes@[0].children@;
        let dl = dcs[dcs.len() - 1] as int;
        assert(0 <= dl < old(a).nodes@.len());
        if dl != i as int {
            assert(a.nodes@[dl] == old(a).nodes@[dl]);
        }
        assert(lines =~= done + blank_lines(source@, e0 as int));
        assert(empty_lines_filled(a.nodes@, i as int, done)) by {
            assert(a.nodes@[i as int].children@.len() == 1);
        }
    }
    let mut p = e0;
    loop
        invariant
            wf(*a, p as int),
            start < p <= source@.len(),
            source@.len() <= usize::MAX,
            i != 0,
            i < a.nodes@.len(),
            a.nodes@.len() >= ns0.len(),
            forall|j: int| 0 <= j < ns0.len() && j != i as int ==>
                a.nodes@[j] == ns0[j],
            a.nodes@[i as int].end is None,
            a.nodes@[i as int].kind == ns0[i as int].kind,
            a.nodes@[i as int].start == ns0[i as int].start,
            ({
                let cs = a.nodes@[i as int].children@;
                cs.len() > 0 && closed(a.nodes@, cs[cs.len() - 1] as int)
            }),
            a.nodes@[0].children@ == ns0[0].children@,
            ({
                let dcs = a.nodes@[0].children@;
                dcs.len() > 0 && (i as int == dcs[dcs.len() - 1] as int
                    || !closed(a.nodes@, dcs[dcs.len() - 1] as int))
            }),
            start <= p,
            lines == blank_lines(source@, start as int),
            lines =~= done + blank_lines(source@, p as int),
            blank_run_end(source@, start as int) == blank_run_end(source@, p as int),
            empty_lines_filled(a.nodes@, i as int, done),
        ensures
            blank_at(source@, p as int) is None,
            lines == done,
            p == blank_run_end(source@, start as int),
            empty_lines_filled(a.nodes@, i as int, done),
        decreases source@.len() - p,
    {
        match peek_blank(source, p) {
            Some(e) => {
                let ghost pre = a.nodes@;
                proof {
                    assert(entry_ok(a.nodes@, i as int, p as int));
                    let cs = a.nodes@[i as int].children@;
                    assert(entry_ok(a.nodes@, cs[cs.len() - 1] as int, p as int));
                }
                a.push_child(i, Kind::EmptyLine, p, Some(e), Ghost(p as int));
                proof {
                    assert(a.nodes@[0] == pre[0]);
                    assert(entry_ok(pre, 0, p as int));
                    let dcs = a.nodes@[0].children@;
                    let dl = dcs[dcs.len() - 1] as int;
                    assert(0 <= dl < pre.len());
                    if dl != i as int {
                        assert(a.nodes@[dl] == pre[dl]);
                    }
                    let done2 = done.push((p, e));
                    assert(lines =~= done2 + blank_lines(source@, e as int));
                    assert(empty_lines_filled(a.nodes@, i as int, done2)) by {
                        let cs0 = pre[i as int].children@;
                        let cs1 = a.nodes@[i as int].children@;
                        assert(cs1 == cs0 + seq![(a.nodes@.len() - 1) as usize]);
                        assert forall|k: int| 0 <= k < done2.len() implies {
                            let c = a.nodes@[#[trigger] cs1[k] as int];
                            &&& c.kind is EmptyLine
                            &&& c.start == done2[k].0
                            &&& c.end == Some(done2[k].1)
                            &&& c.children@.len() == 0
                        } by {
                            if k < done.len() {
                                assert(cs1[k] == cs0[k]);
                                assert(entry_ok(pre, i as int, p as int));
                                assert((cs0[k] as int) < pre.len());
                                assert(cs0[k] as int != i as int);
                                assert(a.nodes@[cs0[k] as int] == pre[cs0[k] as int]);
                            }
                        }
                    }
                    done = done2;
                }
                p = e;
            }
            None => {
                break;
            }
        }
    }
    proof {
        assert(entry_ok(a.nodes@, i as int, p as int));
        let cs = a.nodes@[i as int].children@;
        assert(entry_ok(a.nodes@, cs[cs.len() - 1] as int, p as int));
    }
    let ghost pre_close = a.nodes@;
    a.close_at(i, p, Ghost(p as int));
    proof {
        assert(empty_lines_filled(a.nodes@, i as int, lines)) by {
            let cs = a.nodes@[i as int].children@;
            assert(cs == pre_close[i as int].children@);
            assert forall|k: int| 0 <= k < lines.len() implies {
                let c = a.nodes@[#[trigger] cs[k] as int];
                &&& c.kind is EmptyLine
                &&& c.start == lines[k].0
                &&& c.end == Some(lines[k].1)
                &&& c.children@.len() == 0
            } by {
                assert(entry_ok(pre_close, i as int, p as int));
                assert((cs[k] as int) < pre_close.len());
                assert(cs[k] as int != i as int);
                assert(a.nodes@[cs[k] as int] == pre_close[cs[k] as int]);
            }
        }
    }
    Some(p)
}

pub open spec fn is_list_kind(k: Kind) -> bool {
    k is UnorderedList || k is OrderedList || k is ListItem
}

/// Walk the open list chain below entry `i` by last children, looking for
/// the first node whose last child is a closed Empty block. `fuel` bounds
/// the walk.
pub open spec fn fle(ns: Seq<Entry>, i: int, fuel: nat) -> Option<(int, int)>
    decreases fuel,
{
    if fuel == 0 || !(0 <= i < ns.len()) {
        None
    } else if closed(ns, i) {
        None
    } else if !is_list_kind(ns[i].kind) {
        None
    } else if ns[i].children@.len() == 0 {
        None
    } else {
        let lc = ns[i].children@[ns[i].children@.len() - 1] as int;
        if 0 <= lc < ns.len() && ns[lc].kind is Empty && closed(ns, lc) {
            Some((i, lc))
        } else {
            fle(ns, lc, (fuel - 1) as nat)
        }
    }
}

/// Whether the block `i` heads an open list chain that ends in a trailing
/// closed Empty block.
pub open spec fn spec_has_trailing_empty(a: Arena, i: usize) -> bool {
    fle(a.nodes@, i as int, a.nodes@.len()) is Some
}

/// Find, below the open list chain headed by `i`, the first node whose last
/// child is a closed Empty block; return that node and the Empty child.
pub fn find_last_empty(a: &Arena, i: usize, q: Ghost<int>) -> (r: Option<(usize, usize)>)
    requires
        wf(*a, q@),
        i < a.nodes@.len(),
    ensures
        r is Some <==> spec_has_trailing_empty(*a, i),
        r matches Some((f, e)) ==> {
            &&& Some((f as int, e as int)) == fle(a.nodes@, i as int, a.nodes@.len())
            &&& i <= f < a.nodes@.len()
            &&& e < a.nodes@.len()
            &&& (f as int) < e as int
            &&& a.nodes@[f as int].end is None
            &&& is_list_kind(a.nodes@[f as int].kind)
            &&& a.nodes@[f as int].children@.len() > 0
            &&& a.nodes@[f as int].children@[a.nodes@[f as int].children@.len() - 1] == e
            &&& a.nodes@[e as int].kind is Empty
            &&& closed(a.nodes@, e as int)
        },
{
    let ghost n0 = a.nodes@.len() as nat;
    let mut cur = i;
    let ghost mut fuel: nat = n0;
    loop
        invariant
            wf(*a, q@),
            n0 == a.nodes@.len(),
            i <= cur < a.nodes@.len(),
            fuel >= a.nodes@.len() - cur,
            fle(a.nodes@, i as int, n0) == fle(a.nodes@, cur as int, fuel),
        decreases a.nodes@.len() - cur,
    {
        proof {
            assert(entry_ok(a.nodes@, cur as int, q@));
            assert(fuel > 0);
        }
        let is_open = match a.nodes[cur].end {
            None => true,
            Some(_) => false,
        };
        let kind_ok = match a.nodes[cur].kind {
            Kind::UnorderedList(_) | Kind::OrderedList(_) | Kind::ListItem(_) => true,
            _ => false,
        };
        if !is_open || !kind_ok {
            proof {
                assert(fle(a.nodes@, cur as int, fuel) is None);
            }
            return None;
        }
        let m = a.nodes[cur].children.len();
        if m == 0 {
            proof {
                assert(fle(a.nodes@, cur as int, fuel) is None);
            }
            return None;
        }
        let lc = a.nodes[cur].children[m - 1];
        proof {
            assert(a.nodes@[cur as int].children@[m - 1] == lc);
        }
        let lc_empty = match a.nodes[lc].kind {
            Kind::Empty => true,
            _ => false,
        };
        let lc_closed = match a.nodes[lc].end {
            Some(_) => true,
            None => false,
        };
        if lc_empty && lc_closed {
            proof {
                assert(fle(a.nodes@, cur as int, fuel) == Some((cur as int, lc as int)));
            }
            return Some((cur, lc));
        }
        proof {
            assert(fle(a.nodes@, cur as int, fuel) == fle(a.nodes@, lc as int, (fuel - 1) as nat));
            fuel = (fuel - 1) as nat;
        }
        cur = lc;
    }
}


/// Whether `j` is one of the already-closed tail entries of the chain.
pub open spec fn path_tail_holds(path: Seq<usize>, k: int, j: int) -> bool {
    exists|kk: int| k <= kk < path.len() && path[kk] as int == j
}

/// The Document-level relocation rule: when the open list chain hanging off
/// the Document's last child ends in a trailing blank run that reaches the
/// cursor, the chain can no longer continue. Close the whole chain at the
/// blank run's start and move the Empty block out, making it the Document's
/// own last child; spans and ordering are unchanged, the blank lines merely
/// stop belonging to the list.
pub fn relocate(a: &mut Arena, q: usize) -> (did: bool)
    requires
        wf(*old(a), q as int),
        old(a).nodes@[0].end is None,
    ensures
        wf(*final(a), q as int),
        final(a).nodes@.len() == old(a).nodes@.len(),
        final(a).nodes@[0].end is None,
        final(a).nodes@[0].kind == old(a).nodes@[0].kind,
        final(a).nodes@[0].children@.len() >= old(a).nodes@[0].children@.len(),
        !did ==> *final(a) == *old(a),
        did <==> ({
            let dcs = old(a).nodes@[0].children@;
            dcs.len() > 0 && (match fle(old(a).nodes@, dcs[dcs.len() - 1] as int,
                old(a).nodes@.len()) {
                Some((f, e)) => old(a).nodes@[e].end == Some(q),
                None => false,
            })
        }),
        did ==> ({
            let ns0 = old(a).nodes@;
            let dcs = ns0[0].children@;
            let dl0 = dcs[dcs.len() - 1] as int;
            let (f, e) = fle(ns0, dl0, ns0.len()).unwrap();
            let sv = ns0[e].start;
            let ns1 = final(a).nodes@;
            &&& ns1[0].children@ == dcs + seq![e as usize]
            &&& ns1[e] == ns0[e]
            &&& ns1[f].children@ == ns0[f].children@.drop_last()
            &&& ns1[f].end == Some(sv)
            &&& ns1[dl0].end == Some(sv)
            &&& (forall|j: int| 0 <= j < ns0.len() ==>
                (#[trigger] ns1[j]).kind == ns0[j].kind && ns1[j].start == ns0[j].start)
            &&& (forall|j: int| 0 <= j < ns0.len() && j != f && j != 0 ==>
                (#[trigger] ns1[j]).children == ns0[j].children)
            &&& (forall|j: int| 0 <= j < ns0.len() && closed(ns0, j) ==>
                (#[trigger] ns1[j]).end == ns0[j].end)
            &&& (forall|j: int| 0 <= j < ns0.len() && !closed(ns0, j) && closed(ns1, j) ==>
                (#[trigger] ns1[j]).end == Some(sv))
        }),
{
    let ghost n0 = a.nodes@.len() as nat;
    let n = a.nodes[0].children.len();
    if n == 0 {
        return false;
    }
    proof {
        assert(entry_ok(a.nodes@, 0, q as int));
    }
    let dl = a.nodes[0].children[n - 1];
    proof {
        assert(a.nodes@[0].children@[n - 1] == dl);
    }
    let dl_open = match a.nodes[dl].end {
        None => true,
        Some(_) => false,
    };
    if !dl_open {
        proof {
            assert(fle(a.nodes@, dl as int, n0) is None);
        }
        return false;
    }
    let mut path: Vec<usize> = Vec::new();
    path.push(dl);
    let mut cur = dl;
    let ghost mut fuel: nat = n0;
    loop
        invariant
            wf(*a, q as int),
            *a == *old(a),
            n0 == a.nodes@.len(),
            fuel >= a.nodes@.len() - cur,
            fle(a.nodes@, dl as int, n0) == fle(a.nodes@, cur as int, fuel),
            a.nodes@[0].end is None,
            a.nodes@[0].children@.len() == n,
            n >= 1,
            a.nodes@[0].children@[n - 1] == dl,
            0 < dl < a.nodes@.len(),
            dl <= cur,
            cur < a.nodes@.len(),
            a.nodes@[cur as int].end is None,
            path@.len() >= 1,
            path@[0] == dl,
            path@[path@.len() - 1] == cur,
            forall|k: int| 0 <= k < path@.len() ==> 0 < #[trigger] path@[k] as int
                && path@[k] < a.nodes@.len()
                && a.nodes@[path@[k] as int].end is None
                && a.nodes@[path@[k] as int].start <= a.nodes@[cur as int].start
                && path@[k] <= cur,
            forall|j: int, k: int| 0 <= j < k < path@.len() ==>
                #[trigger] path@[j] < #[trigger] path@[k],
            forall|k: int| 0 <= k < path@.len() - 1 ==> ({
                let c = a.nodes@[#[trigger] path@[k] as int].children@;
                c.len() > 0 && c[c.len() - 1] == path@[k + 1]
            }),
        decreases a.nodes@.len() - cur,
    {
        proof {
            assert(fuel > 0);
        }
        let kind_ok = match a.nodes[cur].kind {
            Kind::UnorderedList(_) | Kind::OrderedList(_) | Kind::ListItem(_) => true,
            _ => false,
        };
        if !kind_ok {
            proof {
                assert(fle(a.nodes@, cur as int, fuel) is None);
            }
            return false;
        }
        proof {
            assert(entry_ok(a.nodes@, cur as int, q as int));
        }
        let m = a.nodes[cur].children.len();
        if m == 0 {
            proof {
                assert(fle(a.nodes@, cur as int, fuel) is None);
            }
            return false;
        }
        let lc = a.nodes[cur].children[m - 1];
        proof {
            assert(a.nodes@[cur as int].children@[m - 1] == lc);
        }
        let lc_empty = match a.nodes[lc].kind {
            Kind::Empty => true,
            _ => false,
        };
        let lc_closed = match a.nodes[lc].end {
            Some(_) => true,
            None => false,
        };
        if lc_empty && lc_closed {
            // The trailing Empty block must reach the cursor exactly;
            // otherwise content already followed it and the chain stands.
            let e = lc;
            proof {
                assert(fle(a.nodes@, cur as int, fuel) == Some((cur as int, lc as int)));
            }
            let e_end = match a.nodes[e].end {
                Some(x) => x,
                None => 0,
            };
            if e_end != q {
                return false;
            }
            proof {
                assert(entry_ok(a.nodes@, e as int, q as int));
            }
            let s = a.nodes[e].start;
            let f = cur;
            let ghost pre = a.nodes@;
            let ghost m0 = pre[f as int].children@.len();
            // Detach the Empty block from the chain's deepest node.
            let popped = a.pop_child(f, Ghost(q as int));
            let ghost base = a.nodes@;
            proof {
                assert(popped == e);
                assert(s <= q);
                assert((f as int) < e as int);
                // The walk facts carry over to the arena after the pop: only
                // the deepest node's children list shrank.
                assert forall|k: int| 0 <= k < path@.len() implies
                    (#[trigger] base[path@[k] as int]).end is None
                    && base[path@[k] as int].start <= s
                    && path@[k] as int != e as int by {
                    if path@[k] as int == f as int {
                        assert(base[f as int].end == pre[f as int].end);
                        assert(base[f as int].start == pre[f as int].start);
                    } else {
                        assert(base[path@[k] as int] == pre[path@[k] as int]);
                    }
                    assert(pre[path@[k] as int].start <= pre[f as int].start);
                    assert(pre[e as int].start >= pre[f as int].start);
                    assert(path@[k] <= f && (f as int) < e as int);
                }
                assert forall|k: int| 0 <= k < path@.len() - 1 implies ({
                    let c = (#[trigger] base[path@[k] as int]).children@;
                    c.len() > 0 && c[c.len() - 1] == path@[k + 1]
                }) by {
                    assert(path@[k] < path@[k + 1]);
                    assert(path@[k + 1] <= f);
                    assert(path@[k] as int != f as int);
                    assert(base[path@[k] as int] == pre[path@[k] as int]);
                }
                // After the pop, the deepest node's remaining last child is
                // closed and ends at or before the blank run's start.
                let cs1 = base[f as int].children@;
                if cs1.len() > 0 {
                    assert(cs1 == pre[f as int].children@.drop_last());
                    assert(cs1[cs1.len() - 1] == pre[f as int].children@[m0 - 2]);
                    assert(entry_ok(pre, f as int, q as int));
                    assert(pre[e as int].start >= end_val(pre, pre[f as int].children@[m0 - 2] as int));
                    assert(closed(pre, pre[f as int].children@[m0 - 2] as int));
                    assert(closed(base, cs1[cs1.len() - 1] as int)) by {
                        assert(cs1[cs1.len() - 1] as int != f as int);
                        assert(base[cs1[cs1.len() - 1] as int] == pre[cs1[cs1.len() - 1] as int]);
                    }
                    assert(end_val(base, cs1[cs1.len() - 1] as int) <= s) by {
                        assert(base[cs1[cs1.len() - 1] as int] == pre[cs1[cs1.len() - 1] as int]);
                    }
                }
                assert(base[0].children@[n - 1] == dl);
            }
            // Close the chain below the Document's last child, deepest
            // first, at the blank run's start.
            let mut k = path.len();
            while k > 1
                invariant
                    wf(*a, q as int),
                    1 <= k <= path@.len(),
                    a.nodes@.len() == base.len(),
                    s <= q,
                    path@.len() >= 1,
                    path@[0] == dl,
                    0 < dl < base.len(),
                    a.nodes@[0].end is None,
                    a.nodes@[0] == base[0],
                    base[0].children@.len() == n,
                    n >= 1,
                    base[0].children@[n - 1] == dl,
                    e < base.len(),
                    closed(base, e as int),
                    base[e as int].start == s,
                    end_val(base, e as int) == q,
                    forall|kk: int| 0 <= kk < path@.len() ==> 0 < #[trigger] path@[kk] as int
                        && path@[kk] < base.len()
                        && base[path@[kk] as int].end is None
                        && base[path@[kk] as int].start <= s
                        && path@[kk] as int != e as int,
                    forall|j2: int, k2: int| 0 <= j2 < k2 < path@.len() ==>
                        #[trigger] path@[j2] < #[trigger] path@[k2],
                    forall|kk: int| 0 <= kk < path@.len() - 1 ==> ({
                        let c = base[#[trigger] path@[kk] as int].children@;
                        c.len() > 0 && c[c.len() - 1] == path@[kk + 1]
                    }),
                    ({
                        let cs1 = base[path@[path@.len() - 1] as int].children@;
                        cs1.len() > 0 ==> closed(base, cs1[cs1.len() - 1] as int)
                            && end_val(base, cs1[cs1.len() - 1] as int) <= s
                    }),
                    forall|kk: int| 0 <= kk < k ==>
                        #[trigger] a.nodes@[path@[kk] as int] == base[path@[kk] as int],
                    forall|kk: int| k <= kk < path@.len() ==>
                        (#[trigger] a.nodes@[path@[kk] as int]).end == Some(s)
                        && a.nodes@[path@[kk] as int].children
                            == base[path@[kk] as int].children
                        && a.nodes@[path@[kk] as int].start == base[path@[kk] as int].start
                        && a.nodes@[path@[kk] as int].kind == base[path@[kk] as int].kind,
                    forall|j: int| 0 <= j < base.len()
                        && !path_tail_holds(path@, k as int, j) ==>
                        #[trigger] a.nodes@[j] == base[j],
                decreases k,
            {
                k = k - 1;
                let node_k = path[k];
                proof {
                    assert(path@[k as int] == node_k);
                    assert(a.nodes@[node_k as int] == base[node_k as int]);
                    if (k as int) < path@.len() - 1 {
                        let c = base[node_k as int].children@;
                        assert(c[c.len() - 1] == path@[k as int + 1]);
                        assert(a.nodes@[path@[k as int + 1] as int].end == Some(s));
                        assert(a.nodes@[path@[k as int + 1] as int].start
                            == base[path@[k as int + 1] as int].start);
                    } else {
                        assert(node_k == path@[path@.len() - 1]);
                        assert(entry_ok(a.nodes@, node_k as int, q as int));
                        let cs1 = base[node_k as int].children@;
                        assert(cs1 == a.nodes@[node_k as int].children@);
                        if cs1.len() > 0 {
                            let sib = cs1[cs1.len() - 1] as int;
                            assert(0 <= sib < base.len());
                            assert(!path_tail_holds(path@, k as int + 1, sib)) by {
                                if path_tail_holds(path@, k as int + 1, sib) {
                                    let kk = choose|kk: int| k as int + 1 <= kk < path@.len()
                                        && path@[kk] as int == sib;
                                    assert(base[path@[kk] as int].end is None);
                                    assert(closed(base, sib));
                                }
                            }
                            assert(a.nodes@[sib] == base[sib]);
                        }
                    }
                    assert(dl as int != node_k as int ==> !closed(a.nodes@, dl as int)) by {
                        if 0 < k as int {
                            assert(path@[0] < path@[k as int]);
                            assert(a.nodes@[dl as int] == base[dl as int]);
                        }
                    }
                    assert(k as int >= 1);
                    assert(path@[0] < path@[k as int]);
                    assert(a.nodes@[dl as int] == base[dl as int]);
                }
                let ghost before = a.nodes@;
                a.close_at(node_k, s, Ghost(q as int));
                proof {
                    assert forall|j: int| 0 <= j < base.len()
                        && !path_tail_holds(path@, k as int, j) implies
                        #[trigger] a.nodes@[j] == base[j] by {
                        assert(j != node_k as int);
                        assert(!path_tail_holds(path@, k as int + 1, j)) by {
                            if path_tail_holds(path@, k as int + 1, j) {
                                let kk = choose|kk: int| k as int + 1 <= kk < path@.len()
                                    && path@[kk] as int == j;
                                assert(path_tail_holds(path@, k as int, j));
                            }
                        }
                        assert(a.nodes@[j] == before[j]);
                    }
                    assert forall|kk: int| k as int <= kk < path@.len() implies
                        (#[trigger] a.nodes@[path@[kk] as int]).end == Some(s)
                        && a.nodes@[path@[kk] as int].children
                            == base[path@[kk] as int].children
                        && a.nodes@[path@[kk] as int].start == base[path@[kk] as int].start
                        && a.nodes@[path@[kk] as int].kind == base[path@[kk] as int].kind by {
                        if kk > k as int {
                            assert(path@[k as int] < path@[kk]);
                            assert(a.nodes@[path@[kk] as int] == before[path@[kk] as int]);
                        }
                    }
                    assert(a.nodes@[0] == base[0]) by {
                        assert(path@[k as int] as int != 0);
                        assert(a.nodes@[0] == before[0]);
                    }
                }
            }
            // Close the chain's head (the Document's last child) and adopt
            // the Empty block as the Document's new last child.
            proof {
                assert(a.nodes@[dl as int] == base[dl as int]);
                if path@.len() > 1 {
                    let c = base[dl as int].children@;
                    assert(c[c.len() - 1] == path@[1]);
                    assert(a.nodes@[path@[1] as int].end == Some(s));
                    assert(a.nodes@[path@[1] as int].children == base[path@[1] as int].children);
                } else {
                    assert(path@[path@.len() - 1] == dl);
                }
                assert(a.nodes@[e as int] == base[e as int]) by {
                    assert(!path_tail_holds(path@, 1int, e as int));
                }
                assert((dl as int) < e as int) by {
                    assert(dl <= f);
                    assert((f as int) < e as int);
                }
            }
            let ghost mid = a.nodes@;
            a.close_and_adopt(dl, e, s, Ghost(q as int));
            proof {
                let ns0 = old(a).nodes@;
                let ns1 = a.nodes@;
                assert(fle(ns0, dl as int, n0) == Some((f as int, e as int)));
                assert(ns0[e as int].start == s);
                // every entry keeps its kind and start through pop, chain
                // closes, and the adopt
                assert forall|j: int| 0 <= j < ns0.len() implies
                    (#[trigger] ns1[j]).kind == ns0[j].kind
                    && ns1[j].start == ns0[j].start by {
                    if !path_tail_holds(path@, 1int, j) && j != f as int {
                        assert(mid[j] == base[j]);
                        if j != f as int {
                            assert(base[j] == pre[j]);
                        }
                    } else if path_tail_holds(path@, 1int, j) {
                        assert(mid[j].kind == base[j].kind
                            && mid[j].start == base[j].start
                            && mid[j].children == base[j].children) by {
                            let kk = choose|kk: int| 1 <= kk < path@.len()
                                && path@[kk] as int == j;
                            assert(mid[path@[kk] as int].children == base[path@[kk] as int].children);
                        }
                        assert(base[j].kind == pre[j].kind && base[j].start == pre[j].start);
                    }
                    if j == f as int {
                        assert(base[j].kind == pre[j].kind && base[j].start == pre[j].start);
                    }
                    if j == dl as int || j == 0 {
                        assert(ns1[j].kind == mid[j].kind && ns1[j].start == mid[j].start);
                    } else {
                        assert(ns1[j] == mid[j]);
                    }
                }
                // children change only at the deepest chain node and the root
                assert forall|j: int| 0 <= j < ns0.len() && j != f as int && j != 0 implies
                    (#[trigger] ns1[j]).children == ns0[j].children by {
                    if j == dl as int {
                        assert(ns1[j].children == mid[j].children);
                        assert(mid[j] == base[j] || path_tail_holds(path@, 1int, j));
                    }
                    if path_tail_holds(path@, 1int, j) {
                        let kk = choose|kk: int| 1 <= kk < path@.len()
                            && path@[kk] as int == j;
                        assert(mid[path@[kk] as int].children == base[path@[kk] as int].children);
                        assert(base[j] == pre[j]);
                    } else {
                        assert(mid[j] == base[j]);
                        assert(base[j] == pre[j]);
                        if j != dl as int {
                            assert(ns1[j] == mid[j]);
                        }
                    }
                }
                // closed entries keep their ends
                assert forall|j: int| 0 <= j < ns0.len() && closed(ns0, j) implies
                    (#[trigger] ns1[j]).end == ns0[j].end by {
                    assert(!path_tail_holds(path@, 1int, j)) by {
                        if path_tail_holds(path@, 1int, j) {
                            let kk = choose|kk: int| 1 <= kk < path@.len()
                                && path@[kk] as int == j;
                            assert(base[path@[kk] as int].end is None);
                            assert(base[j].end == pre[j].end);
                        }
                    }
                    assert(mid[j] == base[j]);
                    assert(base[j].end == pre[j].end);
                    assert(j != dl as int);
                    assert(ns1[j].end == mid[j].end);
                }
                // every newly closed entry closes at the blank run's start
                assert forall|j: int| 0 <= j < ns0.len() && !closed(ns0, j)
                    && closed(ns1, j) implies (#[trigger] ns1[j]).end == Some(s) by {
                    if j == dl as int {
                    } else if path_tail_holds(path@, 1int, j) {
                        assert(ns1[j] == mid[j]);
                    } else {
                        assert(mid[j] == base[j]);
                        if j == f as int {
                            assert(base[j].end == pre[j].end);
                            assert(!closed(ns1, j) || path@.len() == 1);
                        } else {
                            assert(base[j] == pre[j]);
                            assert(ns1[j] == mid[j]);
                            assert(!closed(ns1, j));
                        }
                    }
                }
                assert(ns1[e as int] == ns0[e as int]) by {
                    assert(mid[e as int] == base[e as int]);
                    assert(base[e as int] == pre[e as int]);
                }
                assert(ns1[f as int].children@ == ns0[f as int].children@.drop_last()) by {
                    assert(base[f as int].children@ == pre[f as int].children@.drop_last());
                }
                assert(ns1[f as int].end == Some(s)) by {
                    if path@.len() > 1 && f as int != dl as int {
                        assert(path_tail_holds(path@, 1int, f as int)) by {
                            assert(path@[path@.len() - 1] as int == f as int);
                        }
                        assert(ns1[f as int] == mid[f as int]);
                    }
                }
                assert(ns1[0].children@ == ns0[0].children@ + seq![e]) by {
                    assert(mid[0] == base[0]);
                    assert(base[0] == pre[0]);
                }
            }
            return true;
        }
        if !lc_closed {
            proof {
                assert(a.nodes@[lc as int].start >= a.nodes@[cur as int].start);
                assert(fle(a.nodes@, cur as int, fuel)
                    == fle(a.nodes@, lc as int, (fuel - 1) as nat));
                fuel = (fuel - 1) as nat;
            }
            path.push(lc);
            cur = lc;
        } else {
            proof {
                assert(fle(a.nodes@, cur as int, fuel) is None);
            }
            return false;
        }
    }
}

} // verus!
