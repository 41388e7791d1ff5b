//! The heading strategy: a run of 1 to 6 `#` immediately followed by
//! whitespace opens a heading of that level; a hash run alone on its line
//! opens nothing (no empty headings). Headings never continue onto the next
//! line: consuming one line closes the node.

use vstd::prelude::*;
use crate::arena::{Arena, closed, end_val, entry_ok, wf};
use crate::leaf;
use crate::leaf::{inline_run_filled, line_end, line_tokens};
use crate::node::Kind;
use crate::token::{Token, token_at, token2_at, token3_at, peek3};

verus! {

/// What a heading opener yields at `q` under a parent of kind `pk`: level,
/// start at the first `#`, cursor after the separating whitespace. A hash
/// run followed by whitespace and then an immediate newline is rejected, as
/// is any opening directly inside an Empty block.
pub open spec fn spec_open(s: Seq<u8>, q: int, pk: Kind) -> Option<(Kind, usize, usize)> {
    if pk is Empty {
        None
    } else {
        match (token_at(s, q), token2_at(s, q), token3_at(s, q)) {
            (Some(Token::Hash(_)), Some(Token::Whitespace(_)), Some(Token::Newline(_))) => None,
            (Some(Token::Hash((hs, he))), Some(Token::Whitespace((_, we))), _) => {
                if he - hs <= 6 {
                    Some((Kind::Heading((he - hs) as usize), hs, we))
                } else {
                    None
                }
            }
            _ => None,
        }
    }
}

pub fn open(source: &[u8], q: usize, pk: Kind) -> (r: Option<(Kind, usize, usize)>)
    requires
        q <= source@.len(),
    ensures
        r == spec_open(source@, q as int, pk),
        r matches Some((k, st, cur)) ==> k is Heading && st == q
            && q < cur <= source@.len()
            && !(token_at(source@, cur as int) matches Some(Token::Newline(_))),
{
    if let Kind::Empty = pk {
        return None;
    }
    let (a, b, c) = peek3(source, q);
    match (a, b, c) {
        (Some(Token::Hash(_)), Some(Token::Whitespace(_)), Some(Token::Newline(_))) => None,
        (Some(Token::Hash((hs, he))), Some(Token::Whitespace((_, we))), _) => {
            if he - hs <= 6 {
                proof {
                    assert(token_at(source@, we as int) == token3_at(source@, q as int));
                }
                Some((Kind::Heading(he - hs), hs, we))
            } else {
                None
            }
        }
        _ => None,
    }
}

/// Consume the heading's single line of inline content into `i` — one
/// closed inline child per token of the line — then close the node at the
/// cursor just past the line's newline: headings never continue onto a
/// following line.
pub fn consume(a: &mut Arena, i: usize, start: usize, source: &[u8]) -> (r: usize)
    requires
        wf(*old(a), start as int),
        start <= source@.len(),
        i < old(a).nodes@.len(),
        i != 0,
        old(a).nodes@[i as int].end is None,
        ({
            let cs = old(a).nodes@[i as int].children@;
            cs.len() > 0 ==> closed(old(a).nodes@, cs[cs.len() - 1] as int)
        }),
        ({
            let dcs = old(a).nodes@[0].children@;
            dcs.len() > 0 && (i as int == dcs[dcs.len() - 1] as int
                || !closed(old(a).nodes@, dcs[dcs.len() - 1] as int))
        }),
        !(token_at(source@, start as int) matches Some(Token::Newline(_))),
    ensures
        wf(*final(a), r as int),
        start <= r <= source@.len(),
        r == line_end(source@, start as int),
        token_at(source@, start as int) is Some ==> start < r,
        final(a).nodes@[i as int].end == Some(r),
        final(a).nodes@[i as int].kind == old(a).nodes@[i as int].kind,
        final(a).nodes@[i as int].start == old(a).nodes@[i as int].start,
        ({
            let cs0 = old(a).nodes@[i as int].children@;
            let cs1 = final(a).nodes@[i as int].children@;
            let toks = line_tokens(source@, start as int);
            let gap: int = if token_at(source@, start as int) is Some && cs0.len() > 0
                && end_val(old(a).nodes@, cs0[cs0.len() - 1] as int) < start {
                1
            } else {
                0
            };
            &&& cs1.len() == cs0.len() + gap + toks.len()
            &&& cs1.subrange(0, cs0.len() as int) == cs0
            &&& inline_run_filled(final(a).nodes@,
                cs1.subrange(cs0.len() + gap, cs1.len() as int), toks)
        }),
        final(a).nodes@.len() >= old(a).nodes@.len(),
        forall|j: int| 0 <= j < old(a).nodes@.len() && j != i as int ==>
            final(a).nodes@[j] == old(a).nodes@[j],
        final(a).nodes@[0].children@ == old(a).nodes@[0].children@,
{
    proof {
        assert(entry_ok(old(a).nodes@, 0, start as int));
        let dcs = old(a).nodes@[0].children@;
        assert((dcs[dcs.len() - 1] as int) < old(a).nodes@.len());
    }
    let r = leaf::consume(a, i, start, source);
    let ghost mid = a.nodes@;
    proof {
        assert(entry_ok(a.nodes@, i as int, r as int));
        let cs = a.nodes@[i as int].children@;
        if cs.len() > 0 {
            assert(entry_ok(a.nodes@, cs[cs.len() - 1] as int, r as int));
        }
        let dcs = a.nodes@[0].children@;
        assert(dcs == old(a).nodes@[0].children@);
        let dl = dcs[dcs.len() - 1] as int;
        if dl != i as int {
            assert(a.nodes@[dl] == old(a).nodes@[dl]);
        }
    }
    a.close_at(i, r, Ghost(r as int));
    proof {
        let cs0 = old(a).nodes@[i as int].children@;
        let cs1 = a.nodes@[i as int].children@;
        let toks = line_tokens(source@, start as int);
        let gap: int = if token_at(source@, start as int) is Some && cs0.len() > 0
            && end_val(old(a).nodes@, cs0[cs0.len() - 1] as int) < start {
            1
        } else {
            0
        };
        assert(cs1 == mid[i as int].children@);
        assert(cs1.subrange(0, cs0.len() as int) == cs0);
        let news = cs1.subrange(cs0.len() + gap, cs1.len() as int);
        assert(inline_run_filled(a.nodes@, news, toks)) by {
            assert(inline_run_filled(mid, news, toks));
            assert forall|k: int| 0 <= k < toks.len() implies {
                let c = a.nodes@[#[trigger] news[k] as int];
                &&& c.kind == crate::leaf::inline_kind(toks[k])
                &&& c.start == crate::token::token_span(toks[k]).0
                &&& c.end == Some(crate::token::token_span(toks[k]).1)
                &&& c.children@.len() == 0
            } by {
                assert(entry_ok(mid, i as int, r as int));
                assert(news[k] == cs1[cs0.len() + gap + k]);
                assert((i as int) < cs1[cs0.len() + gap + k] as int);
                assert(a.nodes@[news[k] as int] == mid[news[k] as int]);
            }
        }
    }
    r
}

} // verus!
