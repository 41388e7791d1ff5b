//! The paragraph strategy: the default leaf block. Any non-blank line
//! continues an open paragraph (lazy continuation); a blank line makes it
//! refuse to consume, which closes it. A paragraph may also open at the
//! Document after a list chain ends in a trailing blank run.

use vstd::prelude::*;
use crate::arena::{Arena, closed, end_val, wf, doc_tail_open};
use crate::empty;
use crate::leaf;
use crate::leaf::{inline_run_filled, line_end, line_tokens};
use crate::node::Kind;
use crate::token::{Token, token_at, token2_at, peek3};

verus! {

/// Whether an open paragraph still matches the input at `q`: any token
/// continues it except a blank line (a bare newline, or whitespace then a
/// newline) or the end of the input.
pub open spec fn spec_probe(s: Seq<u8>, q: int, kind: Kind) -> Option<usize> {
    match kind {
        Kind::Paragraph => {
            match (token_at(s, q), token2_at(s, q)) {
                (Some(Token::Newline(_)), _) => None,
                (Some(Token::Whitespace(_)), Some(Token::Newline(_))) => None,
                (Some(_), _) => Some(q as usize),
                _ => None,
            }
        }
        _ => None,
    }
}

pub fn probe(source: &[u8], q: usize, kind: Kind) -> (r: Option<usize>)
    requires
        q <= source@.len(),
    ensures
        r == spec_probe(source@, q as int, kind),
        r matches Some(e) ==> e == q,
{
    match kind {
        Kind::Paragraph => {}
        _ => { return None; }
    }
    let (a, b, _) = peek3(source, q);
    match (a, b) {
        (Some(Token::Newline(_)), _) => None,
        (Some(Token::Whitespace(_)), Some(Token::Newline(_))) => None,
        (Some(_), _) => Some(q),
        _ => None,
    }
}

/// A paragraph may open at the Document when the previous block is a list
/// chain that ended in a trailing blank run: the list can no longer
/// continue, so the Document takes the content as a fresh paragraph.
pub fn open(a: &Arena, parent: usize, start: usize, q: Ghost<int>)
    -> (r: Option<(Kind, usize, usize)>)
    requires
        wf(*a, q@),
        parent < a.nodes@.len(),
    ensures
        r matches Some((k, st, cur)) ==> k is Paragraph && st == start && cur == start
            && a.nodes@[parent as int].kind is Document,
        r is None <==> !({
            let cs = a.nodes@[parent as int].children@;
            a.nodes@[parent as int].kind is Document
                && cs.len() > 0
                && empty::spec_has_trailing_empty(*a, cs[cs.len() - 1])
        }),
{
    match a.nodes[parent].kind {
        Kind::Document => {}
        _ => { return None; }
    }
    let n = a.nodes[parent].children.len();
    proof {
        assert(crate::arena::entry_ok(a.nodes@, parent as int, q@));
    }
    if n == 0 {
        return None;
    }
    let last = a.nodes[parent].children[n - 1];
    proof {
        assert(a.nodes@[parent as int].children@[n - 1] == last);
    }
    if empty::find_last_empty(a, last, q).is_some() {
        Some((Kind::Paragraph, start, start))
    } else {
        None
    }
}

/// Consume one line of inline content into the open paragraph `i`: the
/// paragraph gains one closed inline child per token of the line (preceded
/// by a Whitespace child for the line break it spans, on a continuation
/// line), and the cursor lands just past the line's newline. Fails (returns
/// nothing, changing nothing) when the line starts with its newline or at
/// end of input: the engine then closes the paragraph.
pub fn consume(a: &mut Arena, i: usize, start: usize, source: &[u8]) -> (r: Option<usize>)
    requires
        wf(*old(a), start as int),
        start <= source@.len(),
        i < old(a).nodes@.len(),
        i != 0,
        old(a).nodes@[i as int].end is None,
        doc_tail_open(old(a).nodes@),
        ({
            let cs = old(a).nodes@[i as int].children@;
            cs.len() > 0 ==> closed(old(a).nodes@, cs[cs.len() - 1] as int)
        }),
    ensures
        r is None <==> (token_at(source@, start as int) is None
            || token_at(source@, start as int) matches Some(Token::Newline(_))),
        r is None ==> *final(a) == *old(a),
        r matches Some(p) ==> start < p <= source@.len(),
        r matches Some(p) ==> wf(*final(a), p as int)
            && p == line_end(source@, start as int),
        r is Some ==> ({
            let cs0 = old(a).nodes@[i as int].children@;
            let cs1 = final(a).nodes@[i as int].children@;
            let toks = line_tokens(source@, start as int);
            let gap: int = if cs0.len() > 0
                && end_val(old(a).nodes@, cs0[cs0.len() - 1] as int) < start {
                1
            } else {
                0
            };
            &&& cs1.len() == cs0.len() + gap + toks.len()
            &&& cs1.subrange(0, cs0.len() as int) == cs0
            &&& (gap == 1 ==> {
                let g = final(a).nodes@[cs1[cs0.len() as int] as int];
                &&& g.kind is Whitespace
                &&& g.start == end_val(old(a).nodes@, cs0[cs0.len() - 1] as int)
                &&& g.end == Some(start)
                &&& g.children@.len() == 0
            })
            &&& inline_run_filled(final(a).nodes@,
                cs1.subrange(cs0.len() + gap, cs1.len() as int), toks)
        }),
        final(a).nodes@.len() >= old(a).nodes@.len(),
        forall|j: int| 0 <= j < old(a).nodes@.len() && j != i as int ==>
            final(a).nodes@[j] == old(a).nodes@[j],
        final(a).nodes@[i as int].end == old(a).nodes@[i as int].end,
        final(a).nodes@[i as int].kind == old(a).nodes@[i as int].kind,
        final(a).nodes@[i as int].start == old(a).nodes@[i as int].start,
        ({
            let cs = final(a).nodes@[i as int].children@;
            cs.len() > 0 ==> closed(final(a).nodes@, cs[cs.len() - 1] as int)
        }),
        doc_tail_open(final(a).nodes@),
        final(a).nodes@[0].children@ == old(a).nodes@[0].children@,
{
    proof {
        assert(source.len() == source@.len());
        crate::token::lemma_token_at(source@, start as int);
    }
    let first = crate::token::next_token(source, start);
    match first {
        None => None,
        Some(Token::Newline(_)) => None,
        Some(_) => {
            let r = leaf::consume(a, i, start, source);
            Some(r)
        }
    }
}

} // verus!
