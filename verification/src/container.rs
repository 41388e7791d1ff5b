//! Generic container consuming, shared by Document, BlockQuote and
//! ListItem: a container takes a line by giving it to a fresh child — a
//! blank line opens and fills an Empty block, anything else opens a
//! Paragraph and reads the line into it. At end of input there is nothing to
//! take and the container refuses, which makes the engine close it.

use vstd::prelude::*;
use crate::arena::{Arena, closed, doc_tail_strict, end_val, entry_ok, wf, doc_tail_open};
use crate::empty;
use crate::empty::{blank_at, blank_lines, blank_run_end, empty_lines_filled};
use crate::leaf::{inline_run_filled, line_end, line_tokens};
use crate::node::Kind;
use crate::paragraph;
use crate::token::{Token, token_at, next_token, lemma_token_at};

verus! {

/// Consume one line into the open container `x` at `start` by opening a
/// fresh child: an Empty block for a blank line (which swallows the whole
/// blank run and closes), a Paragraph otherwise (which stays open holding
/// the line's inline tokens). Returns the advanced cursor, or nothing at
/// end of input.
pub fn consume(a: &mut Arena, x: usize, start: usize, source: &[u8]) -> (r: Option<usize>)
    requires
        wf(*old(a), start as int),
        start <= source@.len(),
        x < old(a).nodes@.len(),
        old(a).nodes@[x as int].end is None,
        ({
            let cs = old(a).nodes@[x as int].children@;
            cs.len() > 0 ==> closed(old(a).nodes@, cs[cs.len() - 1] as int)
        }),
        x == 0 ==> ({
            let cs = old(a).nodes@[0].children@;
            &&& (cs.len() == 0 ==> start == 0)
            &&& (cs.len() > 0 ==> end_val(old(a).nodes@, cs[cs.len() - 1] as int) == start)
        }),
        x != 0 ==> doc_tail_strict(old(a).nodes@),
    ensures
        r is None <==> token_at(source@, start as int) is None,
        r is None ==> *final(a) == *old(a),
        r matches Some(p) ==> start < p <= source@.len(),
        r matches Some(p) ==> wf(*final(a), p as int),
        final(a).nodes@.len() >= old(a).nodes@.len(),
        final(a).nodes@[x as int].end is None,
        final(a).nodes@[0].end == old(a).nodes@[0].end,
        forall|j: int| 0 <= j < old(a).nodes@.len() && j != x as int ==>
            final(a).nodes@[j] == old(a).nodes@[j],
        r is Some ==> final(a).nodes@[x as int].children@
            == old(a).nodes@[x as int].children@ + seq![old(a).nodes@.len() as usize],
        final(a).nodes@[x as int].kind == old(a).nodes@[x as int].kind,
        final(a).nodes@[x as int].start == old(a).nodes@[x as int].start,
        r matches Some(p) ==> ({
            let nc = old(a).nodes@.len() as int;
            let c = final(a).nodes@[nc];
            &&& c.start == start
            &&& (blank_at(source@, start as int) is Some ==> {
                &&& c.kind is Empty
                &&& c.end == Some(p)
                &&& p == blank_run_end(source@, start as int)
                &&& empty_lines_filled(final(a).nodes@, nc,
                    blank_lines(source@, start as int))
            })
            &&& (blank_at(source@, start as int) is None ==> {
                &&& c.kind is Paragraph
                &&& c.end is None
                &&& p == line_end(source@, start as int)
                &&& inline_run_filled(final(a).nodes@, c.children@,
                    line_tokens(source@, start as int))
            })
        }),
{
    proof {
        assert(source.len() == source@.len());
        lemma_token_at(source@, start as int);
        assert(entry_ok(old(a).nodes@, x as int, start as int));
        let cs0 = old(a).nodes@[x as int].children@;
        if cs0.len() > 0 {
            assert(entry_ok(old(a).nodes@, cs0[cs0.len() - 1] as int, start as int));
        }
    }
    let first = match next_token(source, start) {
        Some(t) => t,
        None => {
            return None;
        }
    };
    match empty::peek_blank(source, start) {
        Some(_) => {
            let e = a.push_child(x, Kind::Empty, start, None, Ghost(start as int));
            proof {
                assert(a.nodes@[e as int].children@.len() == 0);
                if x == 0 {
                    let dcs = a.nodes@[0].children@;
                    assert(dcs[dcs.len() - 1] == e);
                } else {
                    assert(a.nodes@[0] == old(a).nodes@[0]);
                    assert(entry_ok(old(a).nodes@, 0, start as int));
                    let dcs = a.nodes@[0].children@;
                    let dl = dcs[dcs.len() - 1] as int;
                    assert(0 <= dl < old(a).nodes@.len());
                    if dl != x as int && dl != e as int {
                        assert(a.nodes@[dl] == old(a).nodes@[dl]);
                    }
                    if dl == x as int {
                        assert(a.nodes@[dl].end is None);
                    }
                }
            }
            let ghost after_push = a.nodes@;
            let p = match empty::consume(a, e, start, source) {
                Some(p) => p,
                None => {
                    proof {
                        assert(false);
                    }
                    start
                }
            };
            proof {
                assert(e == old(a).nodes@.len());
                assert(a.nodes@[e as int].kind == after_push[e as int].kind);
                assert(a.nodes@[e as int].start == after_push[e as int].start);
                assert(a.nodes@[x as int] == after_push[x as int]);
                assert(a.nodes@[x as int].children@
                    == old(a).nodes@[x as int].children@ + seq![e]);
            }
            Some(p)
        }
        None => {
            let pg = a.push_child(x, Kind::Paragraph, start, None, Ghost(start as int));
            proof {
                if x == 0 {
                    let dcs = a.nodes@[0].children@;
                    assert(dcs[dcs.len() - 1] == pg);
                    assert(!closed(a.nodes@, pg as int));
                } else {
                    assert(a.nodes@[0] == old(a).nodes@[0]);
                    assert(entry_ok(old(a).nodes@, 0, start as int));
                    let dcs = a.nodes@[0].children@;
                    let dl = dcs[dcs.len() - 1] as int;
                    assert(0 <= dl < old(a).nodes@.len());
                    if dl != x as int && dl != pg as int {
                        assert(a.nodes@[dl] == old(a).nodes@[dl]);
                    }
                    if dl == x as int {
                        assert(a.nodes@[dl].end is None);
                    }
                }
                assert(doc_tail_open(a.nodes@));
            }
            let ghost after_push = a.nodes@;
            let p = match paragraph::consume(a, pg, start, source) {
                Some(p) => p,
                None => {
                    proof {
                        assert(false);
                    }
                    start
                }
            };
            proof {
                assert(pg == old(a).nodes@.len());
                assert(a.nodes@[pg as int].kind == after_push[pg as int].kind);
                assert(a.nodes@[pg as int].start == after_push[pg as int].start);
                assert(a.nodes@[pg as int].end == after_push[pg as int].end);
                assert(a.nodes@[x as int] == after_push[x as int]);
                assert(a.nodes@[x as int].children@
                    == old(a).nodes@[x as int].children@ + seq![pg]);
                let toks = line_tokens(source@, start as int);
                let cs1 = a.nodes@[pg as int].children@;
                assert(after_push[pg as int].children@.len() == 0);
                assert(cs1.subrange(0, 0int) =~= after_push[pg as int].children@);
                assert(cs1.subrange(0, cs1.len() as int) =~= cs1);
                assert(inline_run_filled(a.nodes@, cs1, toks));
            }
            Some(p)
        }
    }
}

} // verus!
