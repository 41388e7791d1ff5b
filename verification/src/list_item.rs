//! The list-item strategy: an item stays open while the next line's leading
//! whitespace is strictly deeper than its width (nested content), and
//! tentatively on a bare newline (blank-line lookahead). A new item opens on
//! the same marker pattern as its owning list, at exactly the list's width.

use vstd::prelude::*;
use crate::arena::{Arena, closed, doc_tail_strict, end_val, wf};
use crate::container;
use crate::empty;
use crate::node::Kind;
use crate::ordered_list;
use crate::token::{Token, token_at, token2_at, token3_at, peek3};
use crate::unordered_list;

verus! {

/// Whether an open list item still matches the input at `q`: deep enough
/// indentation lets probing continue past it; a bare newline keeps it open
/// pending the next decision.
pub open spec fn spec_probe(s: Seq<u8>, q: int, kind: Kind) -> Option<usize> {
    match kind {
        Kind::ListItem(width) => {
            match token_at(s, q) {
                Some(Token::Whitespace((_, e))) => if width < e - q + 1 {
                    Some(e)
                } else {
                    None
                },
                Some(Token::Newline(_)) => Some(q as usize),
                _ => None,
            }
        }
        _ => None,
    }
}

pub fn probe(source: &[u8], q: usize, kind: Kind) -> (r: Option<usize>)
    requires
        q <= source@.len(),
    ensures
        r == spec_probe(source@, q as int, kind),
        r matches Some(e) ==> q <= e <= source@.len(),
{
    let width = match kind {
        Kind::ListItem(w) => w,
        _ => { return None; }
    };
    let (a, _, _) = peek3(source, q);
    match a {
        Some(Token::Whitespace((_, e))) => {
            if width <= e - q {
                Some(e)
            } else {
                None
            }
        }
        Some(Token::Newline(_)) => Some(q),
        _ => None,
    }
}

/// What a list-item opener yields at `q` under a parent list of kind `pk`:
/// the same marker family as the owning list, whose marker-plus-separation
/// span equals the list's width exactly.
pub open spec fn spec_open(s: Seq<u8>, q: int, pk: Kind) -> Option<(Kind, usize, usize)> {
    let a = token_at(s, q);
    let b = token2_at(s, q);
    let c = token3_at(s, q);
    match pk {
        Kind::UnorderedList(ul) => {
            match (a, b, c) {
                (Some(ta), Some(Token::Whitespace((_, we))), _)
                    if unordered_list::marker_end(ta, ul.token) is Some => {
                    if ul.width == we - q {
                        Some((Kind::ListItem(ul.width), q as usize, we))
                    } else {
                        None
                    }
                }
                (Some(Token::Whitespace(_)), Some(tb), Some(Token::Whitespace((_, we))))
                    if unordered_list::marker_end(tb, ul.token) is Some => {
                    if ul.width == we - q {
                        Some((Kind::ListItem(ul.width), q as usize, we))
                    } else {
                        None
                    }
                }
                _ => None,
            }
        }
        Kind::OrderedList(ol) => {
            match (a, b, c) {
                (Some(ta), Some(Token::Whitespace((_, we))), _)
                    if ordered_list::marker_end(ta, ol.token) is Some => {
                    if ol.width == we - q {
                        Some((Kind::ListItem(ol.width), q as usize, we))
                    } else {
                        None
                    }
                }
                (Some(Token::Whitespace(_)), Some(tb), Some(Token::Whitespace((_, we))))
                    if ordered_list::marker_end(tb, ol.token) is Some => {
                    if ol.width == we - q {
                        Some((Kind::ListItem(ol.width), q as usize, we))
                    } else {
                        None
                    }
                }
                _ => None,
            }
        }
        _ => None,
    }
}

pub fn open(source: &[u8], q: usize, pk: Kind) -> (r: Option<(Kind, usize, usize)>)
    requires
        q <= source@.len(),
    ensures
        r == spec_open(source@, q as int, pk),
        r matches Some((k, st, cur)) ==> k is ListItem && st == q
            && q < cur <= source@.len(),
{
    let (a, b, c) = peek3(source, q);
    let ta = match a {
        Some(ta) => ta,
        None => { return None; }
    };
    match pk {
        Kind::UnorderedList(ul) => {
            if unordered_list::marker_end_ex(ta, ul.token).is_some() {
                if let Some(Token::Whitespace((_, we))) = b {
                    if ul.width == we - q {
                        return Some((Kind::ListItem(ul.width), q, we));
                    }
                }
                return None;
            }
            let is_ws = match ta {
                Token::Whitespace(_) => true,
                _ => false,
            };
            if is_ws {
                if let Some(tb) = b {
                    if unordered_list::marker_end_ex(tb, ul.token).is_some() {
                        if let Some(Token::Whitespace((_, we))) = c {
                            if ul.width == we - q {
                                return Some((Kind::ListItem(ul.width), q, we));
                            }
                        }
                    }
                }
            }
            None
        }
        Kind::OrderedList(ol) => {
            if ordered_list::marker_end_ex(ta, ol.token).is_some() {
                if let Some(Token::Whitespace((_, we))) = b {
                    if ol.width == we - q {
                        return Some((Kind::ListItem(ol.width), q, we));
                    }
                }
                return None;
            }
            let is_ws = match ta {
                Token::Whitespace(_) => true,
                _ => false,
            };
            if is_ws {
                if let Some(tb) = b {
                    if ordered_list::marker_end_ex(tb, ol.token).is_some() {
                        if let Some(Token::Whitespace((_, we))) = c {
                            if ol.width == we - q {
                                return Some((Kind::ListItem(ol.width), q, we));
                            }
                        }
                    }
                }
            }
            None
        }
        _ => None,
    }
}

/// A list item takes a line like any generic container: through a fresh
/// Empty or Paragraph child.
pub fn consume(a: &mut Arena, x: usize, start: usize, source: &[u8]) -> (r: Option<usize>)
    requires
        wf(*old(a), start as int),
        start <= source@.len(),
        x < old(a).nodes@.len(),
        old(a).nodes@[x as int].end is None,
        ({
            let cs = old(a).nodes@[x as int].children@;
            cs.len() > 0 ==> closed(old(a).nodes@, cs[cs.len() - 1] as int)
        }),
        x == 0 ==> ({
            let cs = old(a).nodes@[0].children@;
            &&& (cs.len() == 0 ==> start == 0)
            &&& (cs.len() > 0 ==> end_val(old(a).nodes@, cs[cs.len() - 1] as int) == start)
        }),
        x != 0 ==> doc_tail_strict(old(a).nodes@),
    ensures
        r is None <==> token_at(source@, start as int) is None,
        r is None ==> *final(a) == *old(a),
        r matches Some(p) ==> start < p <= source@.len(),
        r matches Some(p) ==> wf(*final(a), p as int),
        final(a).nodes@.len() >= old(a).nodes@.len(),
        final(a).nodes@[x as int].end is None,
        final(a).nodes@[0].end == old(a).nodes@[0].end,
        forall|j: int| 0 <= j < old(a).nodes@.len() && j != x as int ==>
            final(a).nodes@[j] == old(a).nodes@[j],
        r is Some ==> final(a).nodes@[x as int].children@
            == old(a).nodes@[x as int].children@ + seq![old(a).nodes@.len() as usize],
        final(a).nodes@[x as int].kind == old(a).nodes@[x as int].kind,
        final(a).nodes@[x as int].start == old(a).nodes@[x as int].start,
        r matches Some(p) ==> ({
            let nc = old(a).nodes@.len() as int;
            let c = final(a).nodes@[nc];
            &&& c.start == start
            &&& (empty::blank_at(source@, start as int) is Some ==> {
                &&& c.kind is Empty
                &&& c.end == Some(p)
                &&& p == empty::blank_run_end(source@, start as int)
                &&& empty::empty_lines_filled(final(a).nodes@, nc,
                    empty::blank_lines(source@, start as int))
            })
            &&& (empty::blank_at(source@, start as int) is None ==> {
                &&& c.kind is Paragraph
                &&& c.end is None
                &&& p == crate::leaf::line_end(source@, start as int)
                &&& crate::leaf::inline_run_filled(final(a).nodes@, c.children@,
                    crate::leaf::line_tokens(source@, start as int))
            })
        }),
{
    container::consume(a, x, start, source)
}

} // verus!
