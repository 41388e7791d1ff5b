//! Leaf-block consuming: a leaf block (paragraph, heading) absorbs the
//! tokens of one line, up to and including the terminating newline, as
//! closed inline children (Plaintext and Whitespace nodes). The returned
//! cursor stands just past the newline, or at end of input.

use vstd::prelude::*;
use crate::arena::{Arena, Entry, closed, end_val, entry_ok, wf, doc_tail_open};
use crate::node::Kind;
use crate::token::{Token, token_at, token_span, next_token, lemma_token_at};

verus! {

/// The inline node kind a token turns into: whitespace stays whitespace,
/// everything else is plain text.
pub open spec fn inline_kind(t: Token) -> Kind {
    match t {
        Token::Whitespace(_) => Kind::Whitespace,
        _ => Kind::Plaintext,
    }
}

fn inline_kind_ex(t: Token) -> (k: Kind)
    ensures
        k == inline_kind(t),
{
    match t {
        Token::Whitespace(_) => Kind::Whitespace,
        _ => Kind::Plaintext,
    }
}

/// The cursor after consuming one line from `p`: just past the line's
/// newline, or where the tokens end at end of input.
pub open spec fn line_end(s: Seq<u8>, p: int) -> int
    decreases s.len() - p when 0 <= p <= s.len() && s.len() <= usize::MAX
        via line_end_decreases
{
    match token_at(s, p) {
        None => p,
        Some(Token::Newline((_, e))) => e as int,
        Some(t) => line_end(s, token_span(t).1 as int),
    }
}

#[via_fn]
proof fn line_end_decreases(s: Seq<u8>, p: int) {
    lemma_token_at(s, p);
}

/// The inline tokens of the line at `p`: every token up to, and not
/// including, the line's terminating newline.
pub open spec fn line_tokens(s: Seq<u8>, p: int) -> Seq<Token>
    decreases s.len() - p when 0 <= p <= s.len() && s.len() <= usize::MAX
        via line_tokens_decreases
{
    match token_at(s, p) {
        None => Seq::empty(),
        Some(Token::Newline(_)) => Seq::empty(),
        Some(t) => seq![t] + line_tokens(s, token_span(t).1 as int),
    }
}

#[via_fn]
proof fn line_tokens_decreases(s: Seq<u8>, p: int) {
    lemma_token_at(s, p);
}

/// Consuming a line never moves the cursor backwards or out of the source,
/// and moves it strictly forward whenever a token stands at `p`.
pub proof fn lemma_line_end(s: Seq<u8>, p: int)
    requires
        0 <= p <= s.len(),
        s.len() <= usize::MAX,
    ensures
        p <= line_end(s, p) <= s.len(),
        token_at(s, p) is Some ==> p < line_end(s, p),
    decreases s.len() - p,
{
    lemma_token_at(s, p);
    match token_at(s, p) {
        None => {}
        Some(Token::Newline(_)) => {}
        Some(t) => {
            lemma_line_end(s, token_span(t).1 as int);
        }
    }
}

/// The entries named by `cs_new` are exactly one closed inline node per
/// given token, in order, each spanning its token.
pub open spec fn inline_run_filled(ns: Seq<Entry>, cs_new: Seq<usize>, toks: Seq<Token>) -> bool {
    &&& cs_new.len() == toks.len()
    &&& forall|k: int| 0 <= k < toks.len() ==> {
        let c = ns[#[trigger] cs_new[k] as int];
        &&& c.kind == inline_kind(toks[k])
        &&& c.start == token_span(toks[k]).0
        &&& c.end == Some(token_span(toks[k]).1)
        &&& c.children@.len() == 0
    }
}

/// Consume one line of inline content into the open leaf block `i`,
/// starting at `start`, whose first token is not a newline: the block gains
/// one closed inline child per token of the line, and the cursor lands just
/// past the line's newline. When the block already has children from an
/// earlier line, the gap up to `start` (the line break the block spans) is
/// recorded as one Whitespace child first.
pub fn consume(a: &mut Arena, i: usize, start: usize, source: &[u8]) -> (r: usize)
    requires
        wf(*old(a), start as int),
        start <= source@.len(),
        i < old(a).nodes@.len(),
        i != 0,
        old(a).nodes@[i as int].end is None,
        doc_tail_open(old(a).nodes@),
        ({
            let cs = old(a).nodes@[i as int].children@;
            cs.len() > 0 ==> closed(old(a).nodes@, cs[cs.len() - 1] as int)
        }),
        !(token_at(source@, start as int) matches Some(Token::Newline(_))),
    ensures
        wf(*final(a), r as int),
        start <= r <= source@.len(),
        r == line_end(source@, start as int),
        token_at(source@, start as int) is Some ==> start < r,
        token_at(source@, start as int) is None ==> r == start && *final(a) == *old(a),
        final(a).nodes@.len() >= old(a).nodes@.len(),
        forall|j: int| 0 <= j < old(a).nodes@.len() && j != i as int ==>
            final(a).nodes@[j] == old(a).nodes@[j],
        final(a).nodes@[i as int].end is None,
        final(a).nodes@[i as int].kind == old(a).nodes@[i as int].kind,
        final(a).nodes@[i as int].start == old(a).nodes@[i as int].start,
        ({
            let cs = final(a).nodes@[i as int].children@;
            cs.len() > 0 ==> closed(final(a).nodes@, cs[cs.len() - 1] as int)
        }),
        doc_tail_open(final(a).nodes@),
        final(a).nodes@[0].children@ == old(a).nodes@[0].children@,
        ({
            let cs0 = old(a).nodes@[i as int].children@;
            let cs1 = final(a).nodes@[i as int].children@;
            let toks = line_tokens(source@, start as int);
            let gap: int = if token_at(source@, start as int) is Some && cs0.len() > 0
                && end_val(old(a).nodes@, cs0[cs0.len() - 1] as int) < start {
                1
            } else {
                0
            };
            &&& cs1.len() == cs0.len() + gap + toks.len()
            &&& cs1.subrange(0, cs0.len() as int) == cs0
            &&& (gap == 1 ==> {
                let g = final(a).nodes@[cs1[cs0.len() as int] as int];
                &&& g.kind is Whitespace
                &&& g.start == end_val(old(a).nodes@, cs0[cs0.len() - 1] as int)
                &&& g.end == Some(start)
                &&& g.children@.len() == 0
            })
            &&& inline_run_filled(final(a).nodes@,
                cs1.subrange(cs0.len() + gap, cs1.len() as int), toks)
        }),
    {
        let ghost ns0 = old(a).nodes@;
        let ghost cs0 = ns0[i as int].children@;
        let ghost toks = line_tokens(source@, start as int);
        proof {
            assert(source.len() == source@.len());
            lemma_token_at(source@, start as int);
            lemma_line_end(source@, start as int);
            assert(entry_ok(a.nodes@, i as int, start as int));
        }
        let tok0 = match next_token(source, start) {
            Some(t) => t,
            None => {
                proof {
                    assert(line_tokens(source@, start as int) =~= Seq::<Token>::empty());
                    let cs1 = a.nodes@[i as int].children@;
                    assert(cs1.subrange(0, cs0.len() as int) =~= cs0);
                    assert(cs1.subrange(cs0.len() as int, cs1.len() as int)
                        =~= Seq::<usize>::empty());
                }
                return start;
            }
        };
        let ghost gap: int = 0;
        // Record the line break the block spans as a Whitespace child.
        let n = a.nodes[i].children.len();
        if n > 0 {
            let last = a.nodes[i].children[n - 1];
            proof {
                assert(entry_ok(a.nodes@, last as int, start as int));
            }
            let le = match a.nodes[last].end {
                Some(e) => e,
                None => 0,
            };
            if le < start {
                proof {
                    assert(end_val(a.nodes@, last as int) >= a.nodes@[last as int].start);
                    assert(a.nodes@[last as int].start >= a.nodes@[i as int].start);
                }
                a.push_child(i, Kind::Whitespace, le, Some(start), Ghost(start as int));
                proof {
                    gap = 1;
                    assert(a.nodes@[0] == old(a).nodes@[0]);
                    assert(entry_ok(old(a).nodes@, 0, start as int));
                    let dcs = a.nodes@[0].children@;
                    if dcs.len() > 0 {
                        let dl = dcs[dcs.len() - 1] as int;
                        assert(0 <= dl < old(a).nodes@.len());
                        if dl != i as int {
                            assert(a.nodes@[dl] == old(a).nodes@[dl]);
                        }
                    }
                }
            }
        }
        let ghost gi: int = a.nodes@.len() - gap;
        // First inline token of the line (known not to be a newline).
        let (s0, e0) = tok0.span();
        let k0 = inline_kind_ex(tok0);
        proof {
            assert(entry_ok(a.nodes@, i as int, start as int));
            let cs = a.nodes@[i as int].children@;
            if cs.len() > 0 {
                assert(entry_ok(a.nodes@, cs[cs.len() - 1] as int, start as int));
            }
        }
        a.push_child(i, k0, s0, Some(e0), Ghost(start as int));
        let ghost mut done: Seq<Token> = seq![tok0];
        proof {
            assert(a.nodes@[0] == old(a).nodes@[0]);
            assert(entry_ok(old(a).nodes@, 0, start as int));
            let dcs = a.nodes@[0].children@;
            if dcs.len() > 0 {
                let dl = dcs[dcs.len() - 1] as int;
                assert(0 <= dl < old(a).nodes@.len());
                if dl != i as int {
                    assert(a.nodes@[dl] == old(a).nodes@[dl]);
                }
            }
            assert(crate::arena::doc_tail_open(a.nodes@));
            assert(toks =~= done + line_tokens(source@, e0 as int));
            let cs1 = a.nodes@[i as int].children@;
            assert(cs1.subrange(0, cs0.len() as int) =~= cs0);
            assert(inline_run_filled(a.nodes@,
                cs1.subrange(cs0.len() + gap, cs1.len() as int), done));
        }
        let mut p = e0;
        loop
            invariant_except_break
                line_end(source@, start as int) == line_end(source@, p as int),
                toks =~= done + line_tokens(source@, p as int),
            invariant
                wf(*a, p as int),
                start < p <= source@.len(),
                source@.len() <= usize::MAX,
                i < a.nodes@.len(),
                a.nodes@.len() >= ns0.len(),
                forall|j: int| 0 <= j < ns0.len() && j != i as int ==>
                    a.nodes@[j] == ns0[j],
                a.nodes@[i as int].end is None,
                a.nodes@[i as int].kind == ns0[i as int].kind,
                a.nodes@[i as int].start == ns0[i as int].start,
                ({
                    let cs = a.nodes@[i as int].children@;
                    cs.len() > 0 ==> closed(a.nodes@, cs[cs.len() - 1] as int)
                }),
                doc_tail_open(a.nodes@),
                a.nodes@[0].children@ == ns0[0].children@,
                i != 0,
                cs0 == ns0[i as int].children@,
                toks == line_tokens(source@, start as int),
                0 <= gap <= 1,
                ({
                    let cs1 = a.nodes@[i as int].children@;
                    &&& cs1.len() == cs0.len() + gap + done.len()
                    &&& cs1.subrange(0, cs0.len() as int) == cs0
                    &&& (gap == 1 ==> gi == cs1[cs0.len() as int] as int && {
                        let g = a.nodes@[gi];
                        0 <= gi < a.nodes@.len()
                        && g.kind is Whitespace
                        && g.start == end_val(ns0, cs0[cs0.len() - 1] as int)
                        && g.end == Some(start)
                        && g.children@.len() == 0
                    })
                    &&& inline_run_filled(a.nodes@,
                        cs1.subrange(cs0.len() + gap, cs1.len() as int), done)
                }),
            ensures
                wf(*a, p as int),
                start < p <= source@.len(),
                a.nodes@.len() >= ns0.len(),
                forall|j: int| 0 <= j < ns0.len() && j != i as int ==>
                    a.nodes@[j] == ns0[j],
                a.nodes@[i as int].end is None,
                a.nodes@[i as int].kind == ns0[i as int].kind,
                a.nodes@[i as int].start == ns0[i as int].start,
                ({
                    let cs = a.nodes@[i as int].children@;
                    cs.len() > 0 ==> closed(a.nodes@, cs[cs.len() - 1] as int)
                }),
                doc_tail_open(a.nodes@),
                a.nodes@[0].children@ == ns0[0].children@,
                p == line_end(source@, start as int),
                done == toks,
                ({
                    let cs1 = a.nodes@[i as int].children@;
                    &&& cs1.len() == cs0.len() + gap + toks.len()
                    &&& cs1.subrange(0, cs0.len() as int) == cs0
                    &&& (gap == 1 ==> {
                        let g = a.nodes@[cs1[cs0.len() as int] as int];
                        g.kind is Whitespace
                        && g.start == end_val(ns0, cs0[cs0.len() - 1] as int)
                        && g.end == Some(start)
                        && g.children@.len() == 0
                    })
                    &&& inline_run_filled(a.nodes@,
                        cs1.subrange(cs0.len() + gap, cs1.len() as int), toks)
                }),
            decreases source@.len() - p,
        {
            proof {
                lemma_token_at(source@, p as int);
                assert(entry_ok(a.nodes@, i as int, p as int));
            }
            match next_token(source, p) {
                None => {
                    proof {
                        assert(line_tokens(source@, p as int) =~= Seq::<Token>::empty());
                        assert(toks =~= done);
                    }
                    break;
                }
                Some(t) => {
                    let (s_, e_) = t.span();
                    match t {
                        Token::Newline(_) => {
                            proof {
                                assert(line_tokens(source@, p as int) =~= Seq::<Token>::empty());
                                assert(toks =~= done);
                                crate::arena::lemma_wf_mono(*a, p as int, e_ as int);
                            }
                            p = e_;
                            break;
                        }
                        _ => {
                            let ghost pre = a.nodes@;
                            proof {
                                let cs = a.nodes@[i as int].children@;
                                if cs.len() > 0 {
                                    assert(entry_ok(a.nodes@, cs[cs.len() - 1] as int, p as int));
                                }
                            }
                            let k = inline_kind_ex(t);
                            a.push_child(i, k, s_, Some(e_), Ghost(p as int));
                            proof {
                                assert(a.nodes@[0] == pre[0]);
                                assert(crate::arena::entry_ok(pre, 0, p as int));
                                let dcs = a.nodes@[0].children@;
                                if dcs.len() > 0 {
                                    let dl = dcs[dcs.len() - 1] as int;
                                    assert(0 <= dl < pre.len());
                                    if dl != i as int {
                                        assert(a.nodes@[dl] == pre[dl]);
                                    }
                                }
                                let done2 = done.push(t);
                                assert(toks =~= done2 + line_tokens(source@, e_ as int));
                                let csp = pre[i as int].children@;
                                let cs1 = a.nodes@[i as int].children@;
                                assert(cs1 == csp + seq![(a.nodes@.len() - 1) as usize]);
                                assert(cs1.subrange(0, cs0.len() as int) =~= cs0) by {
                                    assert(csp.subrange(0, cs0.len() as int) == cs0);
                                }
                                if gap == 1 {
                                    assert(cs1[cs0.len() as int] == csp[cs0.len() as int]);
                                    assert(0 <= gi < pre.len());
                                    assert(gi != i as int);
                                    assert(a.nodes@[gi] == pre[gi]);
                                }
                                let news = cs1.subrange(cs0.len() + gap, cs1.len() as int);
                                let olds = csp.subrange(cs0.len() + gap, csp.len() as int);
                                assert(news =~= olds + seq![(a.nodes@.len() - 1) as usize]);
                                assert(inline_run_filled(a.nodes@, news, done2)) by {
                                    assert forall|kk: int| 0 <= kk < done2.len() implies {
                                        let c = a.nodes@[#[trigger] news[kk] as int];
                                        &&& c.kind == inline_kind(done2[kk])
                                        &&& c.start == token_span(done2[kk]).0
                                        &&& c.end == Some(token_span(done2[kk]).1)
                                        &&& c.children@.len() == 0
                                    } by {
                                        if kk < done.len() {
                                            assert(news[kk] == olds[kk]);
                                            assert(entry_ok(pre, i as int, p as int));
                                            assert(olds[kk] == csp[cs0.len() + gap + kk]);
                                            assert((csp[cs0.len() + gap + kk] as int) < pre.len());
                                            assert((i as int) < csp[cs0.len() + gap + kk] as int);
                                            assert(a.nodes@[news[kk] as int]
                                                == pre[news[kk] as int]);
                                        }
                                    }
                                }
                                done = done2;
                            }
                            p = e_;
                        }
                    }
                }
            }
        }
        p
    }

} // verus!
