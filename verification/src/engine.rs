//! The parsing engine: the single driving loop that repeatedly probes the
//! open path, tries the block openers in priority order, force-closes what
//! no longer matches, and delegates one line of input to the deepest block's
//! consume. The cursor advances strictly on every step, so every finite
//! input parses to completion.

use vstd::prelude::*;
use vstd::string::StringSliceAdditionalSpecFns;
use crate::arena::{
    Arena, build, closed, doc_tail_open, doc_tail_strict, end_val, entry_ok, wf,
};
use crate::block_quote;
use crate::container;
use crate::empty;
use crate::heading;
use crate::list_item;
use crate::node::{Kind, Node, node_wf};
use crate::ordered_list;
use crate::paragraph;
use crate::token::{Token, token_at, lemma_token_at};
use crate::unordered_list;

verus! {

/// The index of the Document's last child.
pub open spec fn doc_last(ns: Seq<crate::arena::Entry>) -> int {
    ns[0].children@[ns[0].children@.len() - 1] as int
}

/// Walk down the currently open path from the Document, as long as each open
/// child's strategy still matches the upcoming input; probing consumes the
/// matched markers. Returns the deepest matching node and the advanced
/// cursor. Leaf kinds are never probed into.
fn probe_descend(a: &Arena, source: &[u8], p: usize) -> (r: (usize, usize))
    requires
        wf(*a, p as int),
        p <= source@.len(),
        a.nodes@[0].end is None,
    ensures
        ({
            let (x, q) = r;
            &&& x < a.nodes@.len()
            &&& a.nodes@[x as int].end is None
            &&& p <= q <= source@.len()
            &&& (x == 0 ==> q == p)
            &&& (x != 0 ==> doc_tail_strict(a.nodes@) && doc_last(a.nodes@) <= x as int)
            &&& (x == 0 || a.nodes@[x as int].kind is BlockQuote
                || a.nodes@[x as int].kind is UnorderedList
                || a.nodes@[x as int].kind is OrderedList
                || a.nodes@[x as int].kind is ListItem)
        }),
{
    let mut x: usize = 0;
    let mut q: usize = p;
    loop
        invariant
            wf(*a, p as int),
            p <= source@.len(),
            x < a.nodes@.len(),
            a.nodes@[x as int].end is None,
            p <= q <= source@.len(),
            x == 0 ==> q == p,
            x != 0 ==> doc_tail_strict(a.nodes@) && doc_last(a.nodes@) <= x as int,
            x == 0 || a.nodes@[x as int].kind is BlockQuote
                || a.nodes@[x as int].kind is UnorderedList
                || a.nodes@[x as int].kind is OrderedList
                || a.nodes@[x as int].kind is ListItem,
        decreases a.nodes@.len() - x,
    {
        proof {
            assert(entry_ok(a.nodes@, x as int, p as int));
        }
        let m = a.nodes[x].children.len();
        if m == 0 {
            return (x, q);
        }
        let c = a.nodes[x].children[m - 1];
        proof {
            assert(a.nodes@[x as int].children@[m - 1] == c);
        }
        let c_open = match a.nodes[c].end {
            None => true,
            Some(_) => false,
        };
        if !c_open {
            return (x, q);
        }
        let ck = a.nodes[c].kind;
        let step_to = match ck {
            Kind::BlockQuote => block_quote::probe(source, q, ck),
            Kind::UnorderedList(_) => unordered_list::probe(source, q, ck),
            Kind::OrderedList(_) => ordered_list::probe(source, q, ck),
            Kind::ListItem(_) => list_item::probe(source, q, ck),
            _ => None,
        };
        match step_to {
            Some(q2) => {
                proof {
                    if x == 0 {
                        let dcs = a.nodes@[0].children@;
                        assert(dcs[dcs.len() - 1] == c);
                    }
                }
                x = c;
                q = q2;
            }
            None => {
                return (x, q);
            }
        }
    }
}

/// Follow the open path from `x` to the deepest open node: the node whose
/// last child is closed or absent, the one that would receive content.
fn deepest_open(a: &Arena, x: usize, q: Ghost<int>) -> (d: usize)
    requires
        wf(*a, q@),
        x < a.nodes@.len(),
        a.nodes@[x as int].end is None,
    ensures
        x <= d < a.nodes@.len(),
        a.nodes@[d as int].end is None,
        ({
            let cs = a.nodes@[d as int].children@;
            cs.len() > 0 ==> closed(a.nodes@, cs[cs.len() - 1] as int)
        }),
        (x == 0 && d != 0) ==> doc_tail_strict(a.nodes@),
{
    let mut d = x;
    loop
        invariant
            wf(*a, q@),
            x <= d < a.nodes@.len(),
            a.nodes@[d as int].end is None,
            (x == 0 && d != 0) ==> doc_tail_strict(a.nodes@),
        decreases a.nodes@.len() - d,
    {
        proof {
            assert(entry_ok(a.nodes@, d as int, q@));
        }
        let m = a.nodes[d].children.len();
        if m == 0 {
            return d;
        }
        let c = a.nodes[d].children[m - 1];
        proof {
            assert(a.nodes@[d as int].children@[m - 1] == c);
        }
        let c_open = match a.nodes[c].end {
            None => true,
            Some(_) => false,
        };
        if !c_open {
            return d;
        }
        proof {
            if d == 0 {
                let dcs = a.nodes@[0].children@;
                assert(dcs[dcs.len() - 1] == c);
            }
        }
        d = c;
    }
}

/// Close every open descendant of `x` at offset `q`, from the deepest up,
/// leaving `x` itself open. After this the node `x` can take a fresh child.
pub fn force_close_below(a: &mut Arena, x: usize, q: usize)
    requires
        wf(*old(a), q as int),
        x < old(a).nodes@.len(),
        old(a).nodes@[x as int].end is None,
        x != 0 ==> doc_tail_strict(old(a).nodes@)
            && doc_last(old(a).nodes@) <= x as int,
    ensures
        wf(*final(a), q as int),
        final(a).nodes@.len() == old(a).nodes@.len(),
        forall|j: int| 0 <= j < old(a).nodes@.len() ==>
            (#[trigger] final(a).nodes@[j]).kind == old(a).nodes@[j].kind
            && final(a).nodes@[j].start == old(a).nodes@[j].start
            && final(a).nodes@[j].children == old(a).nodes@[j].children,
        forall|j: int| 0 <= j <= x as int ==> final(a).nodes@[j] == old(a).nodes@[j],
        forall|j: int| 0 <= j < old(a).nodes@.len() && closed(old(a).nodes@, j) ==>
            (#[trigger] final(a).nodes@[j]).end == old(a).nodes@[j].end,
        ({
            let cs = final(a).nodes@[x as int].children@;
            cs.len() > 0 ==> closed(final(a).nodes@, cs[cs.len() - 1] as int)
                && end_val(final(a).nodes@, cs[cs.len() - 1] as int) <= q
        }),
        x == 0 ==> ({
            let cs = final(a).nodes@[0].children@;
            cs.len() > 0 ==> end_val(final(a).nodes@, cs[cs.len() - 1] as int) == q
        }),
        x != 0 ==> doc_tail_strict(final(a).nodes@)
            && doc_last(final(a).nodes@) <= x as int,
    decreases old(a).nodes@.len() - x,
{
    proof {
        assert(entry_ok(old(a).nodes@, x as int, q as int));
    }
    let m = a.nodes[x].children.len();
    if m == 0 {
        return;
    }
    let c = a.nodes[x].children[m - 1];
    proof {
        assert(a.nodes@[x as int].children@[m - 1] == c);
    }
    let c_open = match a.nodes[c].end {
        None => true,
        Some(_) => false,
    };
    if !c_open {
        proof {
            assert(entry_ok(a.nodes@, c as int, q as int));
        }
        return;
    }
    proof {
        if x == 0 {
            let dcs = a.nodes@[0].children@;
            assert(dcs[dcs.len() - 1] == c);
        }
    }
    force_close_below(a, c, q);
    proof {
        assert(a.nodes@[x as int].children@[m - 1] == c);
        assert(entry_ok(a.nodes@, c as int, q as int));
        let ccs = a.nodes@[c as int].children@;
        if ccs.len() > 0 {
            assert(closed(a.nodes@, ccs[ccs.len() - 1] as int));
        }
        if x != 0 {
            assert(doc_last(a.nodes@) < c as int);
        }
    }
    a.close_at(c, q, Ghost(q as int));
}

/// A block opener matched at `q` under node `x`: close everything that was
/// still open below `x` and append the fresh node at the cursor.
fn open_push(a: &mut Arena, x: usize, nk: Kind, q: usize, already_open: bool) -> (nx: usize)
    requires
        wf(*old(a), q as int),
        x < old(a).nodes@.len(),
        old(a).nodes@[x as int].end is None,
        old(a).nodes@[0].end is None,
        x != 0 ==> doc_tail_strict(old(a).nodes@)
            && doc_last(old(a).nodes@) <= x as int,
        already_open ==> x != 0 && old(a).nodes@[x as int].children@.len() == 0,
        (x == 0 && old(a).nodes@[0].children@.len() == 0) ==> q == 0,
    ensures
        wf(*final(a), q as int),
        nx == old(a).nodes@.len(),
        final(a).nodes@.len() == old(a).nodes@.len() + 1,
        x < nx,
        final(a).nodes@[nx as int].end is None,
        final(a).nodes@[nx as int].kind == nk,
        final(a).nodes@[nx as int].start == q,
        final(a).nodes@[nx as int].children@.len() == 0,
        final(a).nodes@[0].end is None,
        final(a).nodes@[0].children@.len() > 0,
        doc_tail_strict(final(a).nodes@),
        doc_last(final(a).nodes@) <= nx as int,
        final(a).nodes@[x as int].kind == old(a).nodes@[x as int].kind,
        final(a).nodes@[x as int].start == old(a).nodes@[x as int].start,
        final(a).nodes@[x as int].end == old(a).nodes@[x as int].end,
        final(a).nodes@[x as int].children@
            == old(a).nodes@[x as int].children@ + seq![nx],
        forall|j: int| 0 <= j < old(a).nodes@.len() && j != x as int ==>
            (#[trigger] final(a).nodes@[j]).kind == old(a).nodes@[j].kind
            && final(a).nodes@[j].start == old(a).nodes@[j].start
            && final(a).nodes@[j].children == old(a).nodes@[j].children,
        already_open ==> forall|j: int| 0 <= j < old(a).nodes@.len() && j != x as int ==>
            final(a).nodes@[j] == old(a).nodes@[j],
{
    if !already_open {
        force_close_below(a, x, q);
    }
    proof {
        assert(entry_ok(a.nodes@, x as int, q as int));
        if x != 0 {
            assert(doc_tail_strict(a.nodes@));
        }
    }
    let ghost pre = a.nodes@;
    let nx = a.push_child(x, nk, q, None, Ghost(q as int));
    proof {
        if x == 0 {
            let dcs = a.nodes@[0].children@;
            assert(dcs[dcs.len() - 1] == nx);
            assert(!closed(a.nodes@, nx as int));
        } else {
            assert(a.nodes@[0] == pre[0]);
            assert(entry_ok(pre, 0, q as int));
            let dcs = a.nodes@[0].children@;
            let dl = dcs[dcs.len() - 1] as int;
            assert(0 <= dl < pre.len());
            if dl != x as int {
                assert(a.nodes@[dl] == pre[dl]);
            }
            assert(dl <= x as int);
            assert((x as int) < nx as int);
        }
    }
    nx
}

/// A list opener matched at `q` under node `x`: opening the list opens its
/// first item in the same stroke. The fresh list node starts at the cursor
/// and holds exactly one child, an open `ListItem` of the list's width,
/// starting at the same offset.
fn open_list_push(a: &mut Arena, x: usize, nk: Kind, q: usize, already_open: bool)
    -> (r: (usize, usize))
    requires
        wf(*old(a), q as int),
        x < old(a).nodes@.len(),
        old(a).nodes@[x as int].end is None,
        old(a).nodes@[0].end is None,
        nk is UnorderedList || nk is OrderedList,
        x != 0 ==> doc_tail_strict(old(a).nodes@)
            && doc_last(old(a).nodes@) <= x as int,
        already_open ==> x != 0 && old(a).nodes@[x as int].children@.len() == 0,
        (x == 0 && old(a).nodes@[0].children@.len() == 0) ==> q == 0,
    ensures
        ({
            let (nl, nx) = r;
            &&& wf(*final(a), q as int)
            &&& x < nl < nx
            &&& nx < final(a).nodes@.len()
            &&& final(a).nodes@[nl as int].kind == nk
            &&& final(a).nodes@[nl as int].start == q
            &&& final(a).nodes@[nl as int].end is None
            &&& final(a).nodes@[nl as int].children@ == seq![nx]
            &&& final(a).nodes@[nx as int].kind
                == Kind::ListItem(crate::node::list_width(nk))
            &&& final(a).nodes@[nx as int].start == q
            &&& final(a).nodes@[nx as int].end is None
            &&& final(a).nodes@[nx as int].children@.len() == 0
            &&& final(a).nodes@[0].end is None
            &&& final(a).nodes@[0].children@.len() > 0
            &&& doc_tail_strict(final(a).nodes@)
            &&& doc_last(final(a).nodes@) <= nx as int
        }),
{
    let width = match nk {
        Kind::UnorderedList(u) => u.width,
        Kind::OrderedList(o) => o.width,
        _ => 0,
    };
    let nl = open_push(a, x, nk, q, already_open);
    let nx = open_push(a, nl, Kind::ListItem(width), q, true);
    (nl, nx)
}

/// One step of the engine at cursor `p`: probe the open path, try the block
/// openers (block quote, heading, unordered list, ordered list, list item)
/// in priority order, then let the deepest block consume one line. The
/// cursor advances strictly.
#[verifier::rlimit(100)]
fn step(a: &mut Arena, source: &[u8], p: usize) -> (r: usize)
    requires
        wf(*old(a), p as int),
        p < source@.len(),
        old(a).nodes@[0].end is None,
        p == 0 || old(a).nodes@[0].children@.len() > 0,
    ensures
        wf(*final(a), r as int),
        p < r <= source@.len(),
        final(a).nodes@[0].end is None,
        final(a).nodes@[0].children@.len() > 0,
{
    proof {
        assert(source.len() == source@.len());
        lemma_token_at(source@, p as int);
    }
    let (x0, q0) = probe_descend(a, source, p);
    proof {
        if x0 != 0 {
            crate::arena::lemma_wf_mono(*old(a), p as int, q0 as int);
        }
    }
    if x0 == 0 {
        // The relocation rule: when the whole open chain below the Document
        // no longer matches the line and it ends in a trailing blank run at
        // the cursor, the Document must take the content back. Close the
        // chain and move the blank run out to the Document before trying the
        // openers; the container strategy then opens the fresh block.
        if paragraph::open(a, 0, p, Ghost(p as int)).is_some() {
            empty::relocate(a, p);
        }
    }
    let mut x = x0;
    let mut q = q0;
    let mut opened = false;
    let mut heading_mode = false;
    loop
        invariant
            source@.len() <= usize::MAX,
            p < source@.len(),
            wf(*a, q as int),
            p <= q <= source@.len(),
            x < a.nodes@.len(),
            a.nodes@[x as int].end is None,
            a.nodes@[0].end is None,
            p == 0 || a.nodes@[0].children@.len() > 0,
            opened ==> p < q,
            opened ==> x != 0 && a.nodes@[x as int].children@.len() == 0
                && a.nodes@[0].children@.len() > 0,
            x == 0 ==> !opened && q == p,
            x != 0 ==> doc_tail_strict(a.nodes@) && doc_last(a.nodes@) <= x as int,
            heading_mode ==> opened && a.nodes@[x as int].kind is Heading
                && !(token_at(source@, q as int) matches Some(Token::Newline(_))),
            !heading_mode ==> (x == 0 || a.nodes@[x as int].kind is BlockQuote
                || a.nodes@[x as int].kind is UnorderedList
                || a.nodes@[x as int].kind is OrderedList
                || a.nodes@[x as int].kind is ListItem),
        ensures
            wf(*a, q as int),
            p <= q <= source@.len(),
            x < a.nodes@.len(),
            a.nodes@[x as int].end is None,
            a.nodes@[0].end is None,
            p == 0 || a.nodes@[0].children@.len() > 0,
            opened ==> p < q,
            opened ==> x != 0 && a.nodes@[x as int].children@.len() == 0
                && a.nodes@[0].children@.len() > 0,
            x == 0 ==> !opened && q == p,
            x != 0 ==> doc_tail_strict(a.nodes@) && doc_last(a.nodes@) <= x as int,
            heading_mode ==> opened && a.nodes@[x as int].kind is Heading
                && !(token_at(source@, q as int) matches Some(Token::Newline(_))),
            !heading_mode ==> (x == 0 || a.nodes@[x as int].kind is BlockQuote
                || a.nodes@[x as int].kind is UnorderedList
                || a.nodes@[x as int].kind is OrderedList
                || a.nodes@[x as int].kind is ListItem),
        decreases source@.len() - q,
    {
        if heading_mode {
            break;
        }
        let pk = a.nodes[x].kind;
        if let Some((nk, st, q2)) = block_quote::open(source, q) {
            let nx = open_push(a, x, nk, q, opened);
            proof {
                crate::arena::lemma_wf_mono(*a, q as int, q2 as int);
            }
            x = nx;
            q = q2;
            opened = true;
            continue;
        }
        if let Some((nk, st, q2)) = heading::open(source, q, pk) {
            let nx = open_push(a, x, nk, q, opened);
            proof {
                crate::arena::lemma_wf_mono(*a, q as int, q2 as int);
            }
            x = nx;
            q = q2;
            opened = true;
            heading_mode = true;
            continue;
        }
        if let Some((nk, st, q2)) = unordered_list::open(source, q, pk) {
            let (nl, nx) = open_list_push(a, x, nk, q, opened);
            proof {
                crate::arena::lemma_wf_mono(*a, q as int, q2 as int);
            }
            x = nx;
            q = q2;
            opened = true;
            continue;
        }
        if let Some((nk, st, q2)) = ordered_list::open(source, q, pk) {
            let (nl, nx) = open_list_push(a, x, nk, q, opened);
            proof {
                crate::arena::lemma_wf_mono(*a, q as int, q2 as int);
            }
            x = nx;
            q = q2;
            opened = true;
            continue;
        }
        if let Some((nk, st, q2)) = list_item::open(source, q, pk) {
            let nx = open_push(a, x, nk, q, opened);
            proof {
                crate::arena::lemma_wf_mono(*a, q as int, q2 as int);
            }
            x = nx;
            q = q2;
            opened = true;
            continue;
        }
        break;
    }
    if heading_mode {
        let r = heading::consume(a, x, q, source);
        return r;
    }
    if !opened {
        // Lazy continuation: a non-blank line without markers still extends
        // an open paragraph deep on the open path.
        let d = deepest_open(a, x, Ghost(q as int));
        let d_is_paragraph = match a.nodes[d].kind {
            Kind::Paragraph => true,
            _ => false,
        };
        if d_is_paragraph {
            proof {
                assert(a.nodes@[0].kind is Document);
                assert(d != 0);
            }
            match paragraph::consume(a, d, q, source) {
                Some(p2) => {
                    return p2;
                }
                None => {}
            }
        }
    }
    // Generic: the deepest matching block (or the item a list keeps ready)
    // takes the line through the container strategy.
    let target = match a.nodes[x].kind {
        Kind::UnorderedList(_) => unordered_list::consume(a, x, q),
        Kind::OrderedList(_) => ordered_list::consume(a, x, q),
        _ => x,
    };
    proof {
        if target != x as usize {
            assert(doc_last(a.nodes@) <= x as int);
            assert((x as int) < target as int);
        }
    }
    force_close_below(a, target, q);
    let consumed = match a.nodes[target].kind {
        Kind::BlockQuote => block_quote::consume(a, target, q, source),
        Kind::ListItem(_) => list_item::consume(a, target, q, source),
        _ => container::consume(a, target, q, source),
    };
    match consumed {
        Some(p2) => {
            p2
        }
        None => {
            proof {
                lemma_token_at(source@, q as int);
                assert(q == source@.len());
                if x == 0 {
                    assert(q == p);
                    assert(false);
                }
            }
            q
        }
    }
}

/// Parse the whole byte source into a finished tree: the Document node spans
/// exactly `[0, source.len())`, every span is well-formed, and the
/// Document's children tile the source with no gaps.
pub fn parse_bytes(source: &[u8]) -> (n: Node)
    ensures
        n.kind is Document,
        n.span.0 == 0,
        n.span.1 == source@.len(),
        node_wf(n),
        source@.len() == 0 ==> n.children@.len() == 0,
        source@.len() > 0 ==> n.children@.len() > 0,
        n.children@.len() > 0 ==> n.children@[0].span.0 == 0
            && n.children@[n.children@.len() - 1].span.1 == source@.len(),
        forall|k: int| 0 <= k < n.children@.len() - 1 ==>
            (#[trigger] n.children@[k]).span.1 == n.children@[k + 1].span.0,
{
    let len = source.len();
    let mut a = Arena::new();
    let mut p: usize = 0;
    while p < len
        invariant
            source@.len() == len,
            p <= len,
            wf(a, p as int),
            a.nodes@[0].end is None,
            p == 0 || a.nodes@[0].children@.len() > 0,
            len == 0 ==> a.nodes@[0].children@.len() == 0,
        decreases len - p,
    {
        p = step(&mut a, source, p);
    }
    force_close_below(&mut a, 0, len);
    proof {
        assert(entry_ok(a.nodes@, 0, len as int));
    }
    a.close_at(0, len, Ghost(len as int));
    let ghost ns = a.nodes@;
    let n = build(&a, 0, Ghost(len as int));
    proof {
        let cs = ns[0].children@;
        assert(entry_ok(ns, 0, len as int));
        assert(crate::arena::doc_ok(ns, len as int));
        if cs.len() > 0 {
            assert(closed(ns, cs[cs.len() - 1] as int));
            assert(end_val(ns, cs[cs.len() - 1] as int) == len);
        }
        assert forall|k: int| 0 <= k < n.children@.len() - 1 implies
            (#[trigger] n.children@[k]).span.1 == n.children@[k + 1].span.0 by {
            assert(n.children@[k].span.1 == end_val(ns, cs[k] as int));
            assert(ns[cs[k + 1] as int].start == end_val(ns, cs[k] as int));
        }
    }
    n
}

/// Parse the source text into a finished tree. Every input, including the
/// empty string, parses to a well-formed Document; there is no notion of a
/// malformed document.
pub fn parse(source: &str) -> (n: Node)
    ensures
        n.kind is Document,
        n.span.0 == 0,
        n.span.1 == source.spec_bytes().len(),
        node_wf(n),
        source.spec_bytes().len() == 0 ==> n.children@.len() == 0,
        source.spec_bytes().len() > 0 ==> n.children@.len() > 0,
        n.children@.len() > 0 ==> n.children@[0].span.0 == 0
            && n.children@[n.children@.len() - 1].span.1 == source.spec_bytes().len(),
        forall|k: int| 0 <= k < n.children@.len() - 1 ==>
            (#[trigger] n.children@[k]).span.1 == n.children@[k + 1].span.0,
{
    parse_bytes(source.as_bytes())
}

} // verus!
