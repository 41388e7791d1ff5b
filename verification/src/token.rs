//! The lazy, position-driven tokenizer. Tokenizing is a pure function of
//! `(offset, source)`: any caller may scan from any offset without
//! coordination. Each call classifies the next run of bytes into a fixed
//! token alphabet; no lookahead beyond what a single token needs.

use vstd::prelude::*;

verus! {

/// A token over the tokenizer's alphabet, carrying its half-open byte span.
#[derive(Debug, Copy, Clone, PartialEq, Eq)]
pub enum Token {
    RightCaret((usize, usize)),
    Hash((usize, usize)),
    Dash((usize, usize)),
    Asterisk((usize, usize)),
    Plus((usize, usize)),
    NumDot((usize, usize)),
    NumParen((usize, usize)),
    Plaintext((usize, usize)),
    Whitespace((usize, usize)),
    Newline((usize, usize)),
}

pub open spec fn token_span(t: Token) -> (usize, usize) {
    match t {
        Token::RightCaret(s) => s,
        Token::Hash(s) => s,
        Token::Dash(s) => s,
        Token::Asterisk(s) => s,
        Token::Plus(s) => s,
        Token::NumDot(s) => s,
        Token::NumParen(s) => s,
        Token::Plaintext(s) => s,
        Token::Whitespace(s) => s,
        Token::Newline(s) => s,
    }
}

impl Token {
    pub fn span(&self) -> (s: (usize, usize))
        ensures
            s == token_span(*self),
    {
        match self {
            Token::RightCaret(s) => *s,
            Token::Hash(s) => *s,
            Token::Dash(s) => *s,
            Token::Asterisk(s) => *s,
            Token::Plus(s) => *s,
            Token::NumDot(s) => *s,
            Token::NumParen(s) => *s,
            Token::Plaintext(s) => *s,
            Token::Whitespace(s) => *s,
            Token::Newline(s) => *s,
        }
    }
}

/// Space or tab.
pub open spec fn is_ws(b: u8) -> bool {
    b == 32 || b == 9
}

/// Line feed.
pub open spec fn is_nl(b: u8) -> bool {
    b == 10
}

pub open spec fn is_digit(b: u8) -> bool {
    48 <= b && b <= 57
}

/// A plaintext run stops only at whitespace, a newline, or end of input.
pub open spec fn ends_plain(b: u8) -> bool {
    is_ws(b) || is_nl(b)
}

/// End of the maximal run of whitespace bytes starting at `p`.
pub open spec fn ws_run_end(s: Seq<u8>, p: int) -> int
    decreases s.len() - p when 0 <= p <= s.len()
{
    if p < s.len() && is_ws(s[p]) {
        ws_run_end(s, p + 1)
    } else {
        p
    }
}

/// End of the maximal run of digit bytes starting at `p`.
pub open spec fn digit_run_end(s: Seq<u8>, p: int) -> int
    decreases s.len() - p when 0 <= p <= s.len()
{
    if p < s.len() && is_digit(s[p]) {
        digit_run_end(s, p + 1)
    } else {
        p
    }
}

/// End of the maximal run of `#` bytes starting at `p`.
pub open spec fn hash_run_end(s: Seq<u8>, p: int) -> int
    decreases s.len() - p when 0 <= p <= s.len()
{
    if p < s.len() && s[p] == 35 {
        hash_run_end(s, p + 1)
    } else {
        p
    }
}

/// End of the maximal run of plaintext bytes starting at `p`.
pub open spec fn plain_run_end(s: Seq<u8>, p: int) -> int
    decreases s.len() - p when 0 <= p <= s.len()
{
    if p < s.len() && !ends_plain(s[p]) {
        plain_run_end(s, p + 1)
    } else {
        p
    }
}

/// The token that starts at byte offset `p` of `s`, if any. This is the
/// tokenizer's whole behaviour: maximal munch, single pass, a function of
/// `(offset, source)` alone.
///
/// Classification by the first byte: a run of space/tab is Whitespace; a
/// single `\n` is Newline; `>`, `-`, `+`, `*` are one-byte tokens; a run of
/// 1 to 6 `#` is Hash, while a longer run degrades into a Plaintext run (no
/// heading above level 6); a digit run immediately followed by `.` or `)` is
/// NumDot/NumParen, and otherwise the digits open a Plaintext run; anything
/// else accumulates into Plaintext until whitespace, a newline, or end of
/// input.
pub open spec fn token_at(s: Seq<u8>, p: int) -> Option<Token> {
    if p < 0 || p >= s.len() {
        None
    } else {
        let b = s[p];
        if is_nl(b) {
            Some(Token::Newline((p as usize, (p + 1) as usize)))
        } else if is_ws(b) {
            Some(Token::Whitespace((p as usize, ws_run_end(s, p) as usize)))
        } else if b == 62 {
            Some(Token::RightCaret((p as usize, (p + 1) as usize)))
        } else if b == 45 {
            Some(Token::Dash((p as usize, (p + 1) as usize)))
        } else if b == 43 {
            Some(Token::Plus((p as usize, (p + 1) as usize)))
        } else if b == 42 {
            Some(Token::Asterisk((p as usize, (p + 1) as usize)))
        } else if b == 35 {
            let e = hash_run_end(s, p);
            if e - p <= 6 {
                Some(Token::Hash((p as usize, e as usize)))
            } else {
                Some(Token::Plaintext((p as usize, plain_run_end(s, p) as usize)))
            }
        } else if is_digit(b) {
            let e = digit_run_end(s, p);
            if e < s.len() && s[e] == 46 {
                Some(Token::NumDot((p as usize, (e + 1) as usize)))
            } else if e < s.len() && s[e] == 41 {
                Some(Token::NumParen((p as usize, (e + 1) as usize)))
            } else {
                Some(Token::Plaintext((p as usize, plain_run_end(s, p) as usize)))
            }
        } else {
            Some(Token::Plaintext((p as usize, plain_run_end(s, p) as usize)))
        }
    }
}

pub proof fn lemma_ws_run_end(s: Seq<u8>, p: int)
    requires
        0 <= p <= s.len(),
    ensures
        p <= ws_run_end(s, p) <= s.len(),
    decreases s.len() - p,
{
    if p < s.len() && is_ws(s[p]) {
        lemma_ws_run_end(s, p + 1);
    }
}

pub proof fn lemma_digit_run_end(s: Seq<u8>, p: int)
    requires
        0 <= p <= s.len(),
    ensures
        p <= digit_run_end(s, p) <= s.len(),
    decreases s.len() - p,
{
    if p < s.len() && is_digit(s[p]) {
        lemma_digit_run_end(s, p + 1);
    }
}

pub proof fn lemma_hash_run_end(s: Seq<u8>, p: int)
    requires
        0 <= p <= s.len(),
    ensures
        p <= hash_run_end(s, p) <= s.len(),
    decreases s.len() - p,
{
    if p < s.len() && s[p] == 35 {
        lemma_hash_run_end(s, p + 1);
    }
}

pub proof fn lemma_plain_run_end(s: Seq<u8>, p: int)
    requires
        0 <= p <= s.len(),
    ensures
        p <= plain_run_end(s, p) <= s.len(),
    decreases s.len() - p,
{
    if p < s.len() && !ends_plain(s[p]) {
        lemma_plain_run_end(s, p + 1);
    }
}

/// Every token starts exactly at the offset it was requested for, is
/// non-empty, and stays inside the source; an offset inside the source
/// always yields a token.
pub proof fn lemma_token_at(s: Seq<u8>, p: int)
    requires
        0 <= p <= s.len(),
        s.len() <= usize::MAX,
    ensures
        p < s.len() <==> token_at(s, p) is Some,
        token_at(s, p) matches Some(t) ==> {
            let (a, b) = token_span(t);
            a == p && p < b <= s.len()
        },
{
    if p < s.len() {
        lemma_ws_run_end(s, p);
        lemma_digit_run_end(s, p);
        lemma_hash_run_end(s, p);
        lemma_plain_run_end(s, p);
        if is_ws(s[p]) {
            assert(ws_run_end(s, p) == ws_run_end(s, p + 1));
            lemma_ws_run_end(s, p + 1);
        }
        if !ends_plain(s[p]) {
            assert(plain_run_end(s, p) == plain_run_end(s, p + 1));
            lemma_plain_run_end(s, p + 1);
        }
        if s[p] == 35 {
            assert(hash_run_end(s, p) == hash_run_end(s, p + 1));
            lemma_hash_run_end(s, p + 1);
        }
        if is_digit(s[p]) {
            assert(digit_run_end(s, p) == digit_run_end(s, p + 1));
            lemma_digit_run_end(s, p + 1);
        }
    }
}

fn scan_ws(source: &[u8], p: usize) -> (q: usize)
    requires
        p <= source@.len(),
    ensures
        q == ws_run_end(source@, p as int),
{
    let mut q = p;
    proof {
        lemma_ws_run_end(source@, p as int);
    }
    while q < source.len() && (source[q] == 32 || source[q] == 9)
        invariant
            p <= q <= source@.len(),
            ws_run_end(source@, p as int) == ws_run_end(source@, q as int),
        decreases source@.len() - q,
    {
        q = q + 1;
    }
    q
}

fn scan_digits(source: &[u8], p: usize) -> (q: usize)
    requires
        p <= source@.len(),
    ensures
        q == digit_run_end(source@, p as int),
{
    let mut q = p;
    proof {
        lemma_digit_run_end(source@, p as int);
    }
    while q < source.len() && 48 <= source[q] && source[q] <= 57
        invariant
            p <= q <= source@.len(),
            digit_run_end(source@, p as int) == digit_run_end(source@, q as int),
        decreases source@.len() - q,
    {
        q = q + 1;
    }
    q
}

fn scan_hashes(source: &[u8], p: usize) -> (q: usize)
    requires
        p <= source@.len(),
    ensures
        q == hash_run_end(source@, p as int),
{
    let mut q = p;
    proof {
        lemma_hash_run_end(source@, p as int);
    }
    while q < source.len() && source[q] == 35
        invariant
            p <= q <= source@.len(),
            hash_run_end(source@, p as int) == hash_run_end(source@, q as int),
        decreases source@.len() - q,
    {
        q = q + 1;
    }
    q
}

fn scan_plain(source: &[u8], p: usize) -> (q: usize)
    requires
        p <= source@.len(),
    ensures
        q == plain_run_end(source@, p as int),
{
    let mut q = p;
    proof {
        lemma_plain_run_end(source@, p as int);
    }
    while q < source.len() && source[q] != 32 && source[q] != 9 && source[q] != 10
        invariant
            p <= q <= source@.len(),
            plain_run_end(source@, p as int) == plain_run_end(source@, q as int),
        decreases source@.len() - q,
    {
        q = q + 1;
    }
    q
}

/// The next token at byte offset `p` of `source`, or `None` at or past the
/// end of the source.
pub fn next_token(source: &[u8], p: usize) -> (r: Option<Token>)
    requires
        p <= source@.len(),
    ensures
        r == token_at(source@, p as int),
{
    if p >= source.len() {
        return None;
    }
    let b = source[p];
    if b == 10 {
        Some(Token::Newline((p, p + 1)))
    } else if b == 32 || b == 9 {
        let e = scan_ws(source, p);
        Some(Token::Whitespace((p, e)))
    } else if b == 62 {
        Some(Token::RightCaret((p, p + 1)))
    } else if b == 45 {
        Some(Token::Dash((p, p + 1)))
    } else if b == 43 {
        Some(Token::Plus((p, p + 1)))
    } else if b == 42 {
        Some(Token::Asterisk((p, p + 1)))
    } else if b == 35 {
        let e = scan_hashes(source, p);
        proof {
            lemma_hash_run_end(source@, p as int);
        }
        if e - p <= 6 {
            Some(Token::Hash((p, e)))
        } else {
            let e2 = scan_plain(source, p);
            Some(Token::Plaintext((p, e2)))
        }
    } else if 48 <= b && b <= 57 {
        let e = scan_digits(source, p);
        proof {
            lemma_digit_run_end(source@, p as int);
        }
        if e < source.len() && source[e] == 46 {
            Some(Token::NumDot((p, e + 1)))
        } else if e < source.len() && source[e] == 41 {
            Some(Token::NumParen((p, e + 1)))
        } else {
            let e2 = scan_plain(source, p);
            Some(Token::Plaintext((p, e2)))
        }
    } else {
        let e = scan_plain(source, p);
        Some(Token::Plaintext((p, e)))
    }
}

/// The sequence of all tokens of `s` from offset `p` to the end.
pub open spec fn tokens_from(s: Seq<u8>, p: int) -> Seq<Token>
    decreases s.len() - p when 0 <= p <= s.len() && s.len() <= usize::MAX
        via tokens_from_decreases
{
    match token_at(s, p) {
        None => Seq::empty(),
        Some(t) => seq![t] + tokens_from(s, token_span(t).1 as int),
    }
}

#[via_fn]
proof fn tokens_from_decreases(s: Seq<u8>, p: int) {
    lemma_token_at(s, p);
}

/// The second token from offset `p`: the one right after `token_at(s, p)`.
pub open spec fn token2_at(s: Seq<u8>, p: int) -> Option<Token> {
    match token_at(s, p) {
        None => None,
        Some(t) => token_at(s, token_span(t).1 as int),
    }
}

/// The third token from offset `p`.
pub open spec fn token3_at(s: Seq<u8>, p: int) -> Option<Token> {
    match token2_at(s, p) {
        None => None,
        Some(t) => token_at(s, token_span(t).1 as int),
    }
}

/// Peek the next three tokens at offset `p` without consuming anything.
pub fn peek3(source: &[u8], p: usize) -> (r: (Option<Token>, Option<Token>, Option<Token>))
    requires
        p <= source@.len(),
    ensures
        r.0 == token_at(source@, p as int),
        r.1 == token2_at(source@, p as int),
        r.2 == token3_at(source@, p as int),
        r.0 matches Some(t) ==> token_span(t).0 == p
            && (p as int) < token_span(t).1 <= source@.len(),
        (r.0 matches Some(t) ==> (r.1 matches Some(t2) ==>
            token_span(t2).0 == token_span(t).1
            && token_span(t2).0 < token_span(t2).1 <= source@.len())),
        (r.1 matches Some(t2) ==> (r.2 matches Some(t3) ==>
            token_span(t3).0 == token_span(t2).1
            && token_span(t3).0 < token_span(t3).1 <= source@.len())),
        r.0 is None ==> r.1 is None,
        r.1 is None ==> r.2 is None,
{
    proof {
        assert(source.len() == source@.len());
        lemma_token_at(source@, p as int);
    }
    let a = next_token(source, p);
    let (b, c) = match a {
        None => (None, None),
        Some(t) => {
            let (_, e1) = t.span();
            proof {
                lemma_token_at(source@, e1 as int);
            }
            let b = next_token(source, e1);
            let c = match b {
                None => None,
                Some(t2) => {
                    let (_, e2) = t2.span();
                    proof {
                        lemma_token_at(source@, e2 as int);
                    }
                    next_token(source, e2)
                }
            };
            (b, c)
        }
    };
    (a, b, c)
}

/// A fresh tokenizer at a byte offset. Scanning has no persistent state
/// beyond the offset of the next token.
#[derive(Debug, Copy, Clone, PartialEq, Eq, Structural)]
pub struct Tokenizer {

    pub start: usize,
}

impl Tokenizer {
    pub fn new(start: usize) -> (t: Tokenizer)
        ensures
            t.start == start,
    {
        Tokenizer { start }
    }

    /// Produce the token at the tokenizer's offset and advance past it.
    pub fn next_t(&mut self, source: &[u8]) -> (r: Option<Token>)
        requires
            old(self).start <= source@.len(),
        ensures
            r == token_at(source@, old(self).start as int),
            r matches Some(t) ==> final(self).start == token_span(t).1
                && old(self).start < final(self).start <= source@.len(),
            r is None ==> *final(self) == *old(self),
    {
        let n = source.len();
        proof {
            lemma_token_at(source@, self.start as int);
        }
        let r = next_token(source, self.start);
        match r {
            Some(t) => {
                let (_, e) = t.span();
                self.start = e;
            }
            None => {}
        }
        r
    }
}

/// All tokens of `source` from byte offset `from` to the end.
pub fn tokenize(source: &[u8], from: usize) -> (r: Vec<Token>)
    requires
        from <= source@.len(),
    ensures
        r@ == tokens_from(source@, from as int),
{
    let ghost n = source@.len();
    proof {
        assert(source@.len() <= usize::MAX) by {
            assert(source.len() == source@.len());
        }
    }
    let mut tok = Tokenizer::new(from);
    let mut r: Vec<Token> = Vec::new();
    proof {
        assert(r@ + tokens_from(source@, from as int)
            =~= tokens_from(source@, from as int));
    }
    loop
        invariant
            source@.len() == n <= usize::MAX,
            from <= source@.len(),
            tok.start <= source@.len(),
            tokens_from(source@, from as int)
                == r@ + tokens_from(source@, tok.start as int),
        ensures
            r@ == tokens_from(source@, from as int),
        decreases source@.len() - tok.start,
    {
        let ghost prev = tok.start as int;
        let ghost r_prev = r@;
        match tok.next_t(source) {
            Some(t) => {
                r.push(t);
                proof {
                    assert(tokens_from(source@, prev)
                        == seq![t] + tokens_from(source@, tok.start as int));
                    assert(r_prev + (seq![t] + tokens_from(source@, tok.start as int))
                        =~= r@ + tokens_from(source@, tok.start as int));
                }
            }
            None => {
                proof {
                    assert(tokens_from(source@, tok.start as int) =~= Seq::empty());
                    assert(r@ + Seq::<Token>::empty() =~= r@);
                }
                break;
            }
        }
    }
    r
}

} // verus!
