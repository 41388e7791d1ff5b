//! The ordered-list strategy: a digit run ending in `.` or `)` followed by
//! whitespace opens a list; the `.` and `)` marker families are distinct, so
//! switching family closes the list and opens a new one. Matching mirrors
//! the unordered-list strategy.

use vstd::prelude::*;
use crate::arena::{Arena, closed, entry_ok, wf, doc_tail_open};
use crate::node::{Kind, OrderedList, OrderedListToken};
use crate::token::{Token, token_at, token2_at, token3_at, peek3};
use crate::unordered_list::wide_enough;

verus! {

/// The end offset of token `t` if it is the ordered-list marker family `m`.
pub open spec fn marker_end(t: Token, m: OrderedListToken) -> Option<usize> {
    match (t, m) {
        (Token::NumDot((_, e)), OrderedListToken::Dot) => Some(e),
        (Token::NumParen((_, e)), OrderedListToken::Paren) => Some(e),
        _ => None,
    }
}

pub fn marker_end_ex(t: Token, m: OrderedListToken) -> (r: Option<usize>)
    ensures
        r == marker_end(t, m),
{
    match (t, m) {
        (Token::NumDot((_, e)), OrderedListToken::Dot) => Some(e),
        (Token::NumParen((_, e)), OrderedListToken::Paren) => Some(e),
        _ => None,
    }
}

/// The start and end of token `t` if it is any ordered-list marker, together
/// with its family.
pub open spec fn any_marker(t: Token) -> Option<(OrderedListToken, usize, usize)> {
    match t {
        Token::NumDot((s, e)) => Some((OrderedListToken::Dot, s, e)),
        Token::NumParen((s, e)) => Some((OrderedListToken::Paren, s, e)),
        _ => None,
    }
}

pub fn any_marker_ex(t: Token) -> (r: Option<(OrderedListToken, usize, usize)>)
    ensures
        r == any_marker(t),
{
    match t {
        Token::NumDot((s, e)) => Some((OrderedListToken::Dot, s, e)),
        Token::NumParen((s, e)) => Some((OrderedListToken::Paren, s, e)),
        _ => None,
    }
}

fn wide_enough_ex(width: usize, e: usize, q: usize) -> (r: bool)
    requires
        q < e,
    ensures
        r == wide_enough(width, e, q as int),
{
    if width <= e - q {
        true
    } else {
        width - 1 == e - q
    }
}

/// Whether an open ordered list still matches the input at `q`: a marker of
/// the same family followed by whitespace, wide enough; or sufficient
/// leading indentation alone; or a bare newline (blank-line lookahead).
pub open spec fn spec_probe(s: Seq<u8>, q: int, kind: Kind) -> Option<usize> {
    match kind {
        Kind::OrderedList(ol) => {
            let a = token_at(s, q);
            let b = token2_at(s, q);
            let c = token3_at(s, q);
            match a {
                Some(ta) => {
                    if marker_end(ta, ol.token) is Some
                        && (b matches Some(Token::Whitespace(_))) {
                        if wide_enough(ol.width, marker_end(ta, ol.token).unwrap(), q) {
                            Some(q as usize)
                        } else {
                            None
                        }
                    } else {
                        match ta {
                            Token::Whitespace((_, ews)) => {
                                if (b matches Some(tb) && marker_end(tb, ol.token) is Some)
                                    && (c matches Some(Token::Whitespace(_)))
                                    && wide_enough(ol.width, marker_end(b.unwrap(), ol.token).unwrap(), q) {
                                    Some(q as usize)
                                } else if wide_enough(ol.width, ews, q) {
                                    Some(q as usize)
                                } else {
                                    None
                                }
                            }
                            Token::Newline(_) => Some(q as usize),
                            _ => None,
                        }
                    }
                }
                None => None,
            }
        }
        _ => None,
    }
}

pub fn probe(source: &[u8], q: usize, kind: Kind) -> (r: Option<usize>)
    requires
        q <= source@.len(),
    ensures
        r == spec_probe(source@, q as int, kind),
        r matches Some(e) ==> e == q,
{
    let ol = match kind {
        Kind::OrderedList(ol) => ol,
        _ => { return None; }
    };
    let (a, b, c) = peek3(source, q);
    let ta = match a {
        Some(ta) => ta,
        None => { return None; }
    };
    let me = marker_end_ex(ta, ol.token);
    let b_is_ws = match b {
        Some(Token::Whitespace(_)) => true,
        _ => false,
    };
    if let Some(e) = me {
        if b_is_ws {
            if wide_enough_ex(ol.width, e, q) {
                return Some(q);
            } else {
                return None;
            }
        }
    }
    match ta {
        Token::Whitespace((_, ews)) => {
            if let Some(tb) = b {
                if let Some(e2) = marker_end_ex(tb, ol.token) {
                    let c_is_ws = match c {
                        Some(Token::Whitespace(_)) => true,
                        _ => false,
                    };
                    if c_is_ws && wide_enough_ex(ol.width, e2, q) {
                        return Some(q);
                    }
                }
            }
            if wide_enough_ex(ol.width, ews, q) {
                Some(q)
            } else {
                None
            }
        }
        Token::Newline(_) => Some(q),
        _ => None,
    }
}

/// What an ordered-list opener yields at `q` under a parent of kind `pk`:
/// no list opens directly inside another ordered list or an Empty block.
pub open spec fn spec_open(s: Seq<u8>, q: int, pk: Kind) -> Option<(Kind, usize, usize)> {
    if pk is OrderedList || pk is Empty {
        None
    } else {
        match (token_at(s, q), token2_at(s, q), token3_at(s, q)) {
            (Some(ta), Some(Token::Whitespace((_, we))), _) if any_marker(ta) is Some => {
                let (m, ms, _) = any_marker(ta).unwrap();
                Some((
                    Kind::OrderedList(OrderedList { token: m, width: (we - ms) as usize }),
                    ms,
                    we,
                ))
            }
            (Some(Token::Whitespace((ws, _))), Some(tb), Some(Token::Whitespace((_, we))))
                if any_marker(tb) is Some => {
                let (m, _, _) = any_marker(tb).unwrap();
                Some((
                    Kind::OrderedList(OrderedList { token: m, width: (we - ws) as usize }),
                    ws,
                    we,
                ))
            }
            _ => None,
        }
    }
}

pub fn open(source: &[u8], q: usize, pk: Kind) -> (r: Option<(Kind, usize, usize)>)
    requires
        q <= source@.len(),
    ensures
        r == spec_open(source@, q as int, pk),
        r matches Some((k, st, cur)) ==> k is OrderedList && st == q
            && q < cur <= source@.len(),
{
    match pk {
        Kind::OrderedList(_) | Kind::Empty => { return None; }
        _ => {}
    }
    let (a, b, c) = peek3(source, q);
    let ta = match a {
        Some(ta) => ta,
        None => { return None; }
    };
    if let Some((m, ms, _)) = any_marker_ex(ta) {
        if let Some(Token::Whitespace((_, we))) = b {
            return Some((
                Kind::OrderedList(OrderedList { token: m, width: we - ms }),
                ms,
                we,
            ));
        }
        return None;
    }
    if let Token::Whitespace((ws, _)) = ta {
        if let Some(tb) = b {
            if let Some((m, _, _)) = any_marker_ex(tb) {
                if let Some(Token::Whitespace((_, we))) = c {
                    return Some((
                        Kind::OrderedList(OrderedList { token: m, width: we - ws }),
                        ws,
                        we,
                    ));
                }
            }
        }
    }
    None
}

/// Make sure the open list `i` has an open `ListItem` to receive content,
/// as for unordered lists: reuse the still-open last item, or open a fresh
/// item of the list's width at the cursor.
pub fn consume(a: &mut Arena, i: usize, start: usize) -> (li: usize)
    requires
        wf(*old(a), start as int),
        i < old(a).nodes@.len(),
        old(a).nodes@[i as int].end is None,
        old(a).nodes@[i as int].kind matches Kind::OrderedList(_),
        i != 0,
        doc_tail_open(old(a).nodes@),
    ensures
        wf(*final(a), start as int),
        i < li,
        li < final(a).nodes@.len(),
        final(a).nodes@[li as int].end is None,
        final(a).nodes@[li as int].start <= start,
        ({
            let cs = final(a).nodes@[i as int].children@;
            cs.len() > 0 && cs[cs.len() - 1] == li
        }),
        ({
            let cs0 = old(a).nodes@[i as int].children@;
            if cs0.len() > 0 && !closed(old(a).nodes@, cs0[cs0.len() - 1] as int) {
                li as int == cs0[cs0.len() - 1] as int && *final(a) == *old(a)
            } else {
                &&& li == old(a).nodes@.len()
                &&& final(a).nodes@.len() == old(a).nodes@.len() + 1
                &&& final(a).nodes@[li as int].kind
                    == Kind::ListItem(crate::node::list_width(old(a).nodes@[i as int].kind))
                &&& final(a).nodes@[li as int].start == start
                &&& final(a).nodes@[li as int].children@.len() == 0
                &&& final(a).nodes@[i as int].children@ == cs0 + seq![li]
                &&& final(a).nodes@[i as int].kind == old(a).nodes@[i as int].kind
                &&& final(a).nodes@[i as int].start == old(a).nodes@[i as int].start
                &&& final(a).nodes@[i as int].end == old(a).nodes@[i as int].end
            }
        }),
        doc_tail_open(final(a).nodes@),
        crate::arena::doc_tail_strict(old(a).nodes@) ==>
            crate::arena::doc_tail_strict(final(a).nodes@),
        final(a).nodes@[0].children@ == old(a).nodes@[0].children@,
        forall|j: int| 0 <= j < old(a).nodes@.len() && j != i as int ==>
            final(a).nodes@[j] == old(a).nodes@[j],
{
    let width = match a.nodes[i].kind {
        Kind::OrderedList(ol) => ol.width,
        _ => 0,
    };
    let n = a.nodes[i].children.len();
    proof {
        assert(entry_ok(a.nodes@, i as int, start as int));
    }
    if n > 0 {
        let last = a.nodes[i].children[n - 1];
        proof {
            assert(a.nodes@[i as int].children@[n - 1] == last);
            assert(entry_ok(a.nodes@, last as int, start as int));
        }
        let last_open = match a.nodes[last].end {
            Some(_) => false,
            None => true,
        };
        if last_open {
            return last;
        }
    }
    let li = a.push_child(i, Kind::ListItem(width), start, None, Ghost(start as int));
    proof {
        assert(a.nodes@[0] == old(a).nodes@[0]);
        assert(entry_ok(old(a).nodes@, 0, start as int));
        let dcs = a.nodes@[0].children@;
        if dcs.len() > 0 {
            let dl = dcs[dcs.len() - 1] as int;
            assert(0 <= dl < old(a).nodes@.len());
            if dl != i as int {
                assert(a.nodes@[dl] == old(a).nodes@[dl]);
            }
        }
    }
    li
}

} // verus!
