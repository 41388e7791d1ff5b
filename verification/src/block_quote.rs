//! The block-quote strategy: a quote is opened by a `>` marker, optionally
//! preceded by leading whitespace and followed by one consumed space of
//! separation, and it keeps matching as long as the next line starts with
//! another `>`.

use vstd::prelude::*;
use crate::arena::{Arena, closed, doc_tail_strict, end_val, wf};
use crate::container;
use crate::empty;
use crate::node::Kind;
use crate::token::{Token, token_at, token2_at, token3_at, peek3};

verus! {

/// Whether (and where) an open block quote still matches the input at `q`:
/// it continues exactly when the next token is `>`, and probing steps just
/// past that marker.
pub open spec fn spec_probe(s: Seq<u8>, q: int, kind: Kind) -> Option<usize> {
    match kind {
        Kind::BlockQuote => match token_at(s, q) {
            Some(Token::RightCaret((_, e))) => Some(e),
            _ => None,
        },
        _ => None,
    }
}

pub fn probe(source: &[u8], q: usize, kind: Kind) -> (r: Option<usize>)
    requires
        q <= source@.len(),
    ensures
        r == spec_probe(source@, q as int, kind),
        r matches Some(e) ==> q < e <= source@.len(),
{
    let (a, _, _) = peek3(source, q);
    match kind {
        Kind::BlockQuote => match a {
            Some(Token::RightCaret((_, e))) => Some(e),
            _ => None,
        },
        _ => None,
    }
}

/// What a block-quote opener yields at `q`: the new node's kind, its start
/// offset, and the cursor after the marker. The marker is a `>`, optionally
/// preceded by whitespace (which the node's span absorbs), optionally
/// followed by whitespace of which exactly one space is consumed as
/// separation.
pub open spec fn spec_open(s: Seq<u8>, q: int) -> Option<(Kind, usize, usize)> {
    let a = token_at(s, q);
    let b = token2_at(s, q);
    let c = token3_at(s, q);
    match (a, b) {
        (Some(Token::RightCaret((cs, ce))), bb) => {
            let cur = match bb {
                Some(Token::Whitespace((ws, _))) => (ws + 1) as usize,
                _ => ce,
            };
            Some((Kind::BlockQuote, cs, cur))
        }
        (Some(Token::Whitespace((ws, _))), Some(Token::RightCaret((cs, ce)))) => {
            let cur = match c {
                Some(Token::Whitespace((ws2, _))) => (ws2 + 1) as usize,
                _ => ce,
            };
            Some((Kind::BlockQuote, ws, cur))
        }
        _ => None,
    }
}

pub fn open(source: &[u8], q: usize) -> (r: Option<(Kind, usize, usize)>)
    requires
        q <= source@.len(),
    ensures
        r == spec_open(source@, q as int),
        r matches Some((k, st, cur)) ==> k is BlockQuote && st == q
            && q < cur <= source@.len(),
{
    let (a, b, c) = peek3(source, q);
    match (a, b) {
        (Some(Token::RightCaret((cs, ce))), bb) => {
            let cur = match bb {
                Some(Token::Whitespace((ws, _))) => ws + 1,
                _ => ce,
            };
            Some((Kind::BlockQuote, cs, cur))
        }
        (Some(Token::Whitespace((ws, _))), Some(Token::RightCaret((_, ce)))) => {
            let cur = match c {
                Some(Token::Whitespace((ws2, _))) => ws2 + 1,
                _ => ce,
            };
            Some((Kind::BlockQuote, ws, cur))
        }
        _ => None,
    }
}

/// A block quote takes a line like any generic container: through a fresh
/// Empty or Paragraph child.
pub fn consume(a: &mut Arena, x: usize, start: usize, source: &[u8]) -> (r: Option<usize>)
    requires
        wf(*old(a), start as int),
        start <= source@.len(),
        x < old(a).nodes@.len(),
        old(a).nodes@[x as int].end is None,
        ({
            let cs = old(a).nodes@[x as int].children@;
            cs.len() > 0 ==> closed(old(a).nodes@, cs[cs.len() - 1] as int)
        }),
        x == 0 ==> ({
            let cs = old(a).nodes@[0].children@;
            &&& (cs.len() == 0 ==> start == 0)
            &&& (cs.len() > 0 ==> end_val(old(a).nodes@, cs[cs.len() - 1] as int) == start)
        }),
        x != 0 ==> doc_tail_strict(old(a).nodes@),
    ensures
        r is None <==> token_at(source@, start as int) is None,
        r is None ==> *final(a) == *old(a),
        r matches Some(p) ==> start < p <= source@.len(),
        r matches Some(p) ==> wf(*final(a), p as int),
        final(a).nodes@.len() >= old(a).nodes@.len(),
        final(a).nodes@[x as int].end is None,
        final(a).nodes@[0].end == old(a).nodes@[0].end,
        forall|j: int| 0 <= j < old(a).nodes@.len() && j != x as int ==>
            final(a).nodes@[j] == old(a).nodes@[j],
        r is Some ==> final(a).nodes@[x as int].children@
            == old(a).nodes@[x as int].children@ + seq![old(a).nodes@.len() as usize],
        final(a).nodes@[x as int].kind == old(a).nodes@[x as int].kind,
        final(a).nodes@[x as int].start == old(a).nodes@[x as int].start,
        r matches Some(p) ==> ({
            let nc = old(a).nodes@.len() as int;
            let c = final(a).nodes@[nc];
            &&& c.start == start
            &&& (empty::blank_at(source@, start as int) is Some ==> {
                &&& c.kind is Empty
                &&& c.end == Some(p)
                &&& p == empty::blank_run_end(source@, start as int)
                &&& empty::empty_lines_filled(final(a).nodes@, nc,
                    empty::blank_lines(source@, start as int))
            })
            &&& (empty::blank_at(source@, start as int) is None ==> {
                &&& c.kind is Paragraph
                &&& c.end is None
                &&& p == crate::leaf::line_end(source@, start as int)
                &&& crate::leaf::inline_run_filled(final(a).nodes@, c.children@,
                    crate::leaf::line_tokens(source@, start as int))
            })
        }),
{
    container::consume(a, x, start, source)
}

} // verus!
