//! The renderer's data contract: walk a finished tree and produce a tagged,
//! span-annotated record per node — containers carry children, inline
//! leaves carry the literal source bytes — together with a deterministic,
//! order-sensitive content fingerprint per node for change detection.
//! Rendering is a pure function of the source and the tree.

use vstd::prelude::*;
use vstd::wrapping::i64_specs;
use crate::node::{Kind, Node, node_wf};

verus! {

/// The stable external tag of a node kind.
#[derive(Debug, Copy, Clone, PartialEq, Eq, Structural)]
pub enum K {
    Document,
    BlockQuote,
    Empty,
    UnorderedList,
    OrderedList,
    ListItem,
    Heading1,
    Heading2,
    Heading3,
    Heading4,
    Heading5,
    Heading6,
    Paragraph,
    EmptyLine,
    Plaintext,
    Whitespace,
}

/// The numeric code of a tag, as mixed into the fingerprint.
pub open spec fn spec_code(k: K) -> i64 {
    match k {
        K::Document => 1,
        K::BlockQuote => 2,
        K::Empty => 3,
        K::UnorderedList => 4,
        K::OrderedList => 5,
        K::ListItem => 6,
        K::Heading1 => 7,
        K::Heading2 => 8,
        K::Heading3 => 9,
        K::Heading4 => 10,
        K::Heading5 => 11,
        K::Heading6 => 12,
        K::Paragraph => 13,
        K::EmptyLine => 14,
        K::Plaintext => 15,
        K::Whitespace => 16,
    }
}

impl K {
    pub fn code(self) -> (r: i64)
        ensures
            r == spec_code(self),
    {
        match self {
            K::Document => 1,
            K::BlockQuote => 2,
            K::Empty => 3,
            K::UnorderedList => 4,
            K::OrderedList => 5,
            K::ListItem => 6,
            K::Heading1 => 7,
            K::Heading2 => 8,
            K::Heading3 => 9,
            K::Heading4 => 10,
            K::Heading5 => 11,
            K::Heading6 => 12,
            K::Paragraph => 13,
            K::EmptyLine => 14,
            K::Plaintext => 15,
            K::Whitespace => 16,
        }
    }
}

/// The tag a node kind renders to; heading levels become distinct tags.
pub open spec fn spec_tag(kind: Kind) -> K {
    match kind {
        Kind::Document => K::Document,
        Kind::BlockQuote => K::BlockQuote,
        Kind::Empty => K::Empty,
        Kind::UnorderedList(_) => K::UnorderedList,
        Kind::OrderedList(_) => K::OrderedList,
        Kind::ListItem(_) => K::ListItem,
        Kind::Heading(size) => spec_heading_tag(size),
        Kind::Paragraph => K::Paragraph,
        Kind::EmptyLine => K::EmptyLine,
        Kind::Plaintext => K::Plaintext,
        Kind::Whitespace => K::Whitespace,
    }
}

pub open spec fn spec_heading_tag(size: usize) -> K {
    if size == 1 {
        K::Heading1
    } else if size == 2 {
        K::Heading2
    } else if size == 3 {
        K::Heading3
    } else if size == 4 {
        K::Heading4
    } else if size == 5 {
        K::Heading5
    } else {
        K::Heading6
    }
}

/// Whether a kind renders as an inline leaf: literal text, no children.
pub open spec fn is_inline(kind: Kind) -> bool {
    kind is EmptyLine || kind is Plaintext || kind is Whitespace
}

/// One fingerprint step: mix one value into the running hash, with
/// wrapping arithmetic throughout.
pub open spec fn hash_step(h: i64, v: i64) -> i64 {
    i64_specs::wrapping_add(i64_specs::wrapping_sub(i64_specs::wrapping_shl(h, 5), h), v)
}

/// The fingerprint of a byte string: a left fold of `hash_step` over its
/// bytes, starting from zero.
pub open spec fn spec_hash_str(s: Seq<u8>) -> i64
    decreases s.len(),
{
    if s.len() == 0 {
        0
    } else {
        hash_step(spec_hash_str(s.drop_last()), s.last() as i64)
    }
}

/// The fingerprint of a children list: a left fold of `hash_step` over the
/// children's fingerprints.
pub open spec fn spec_hash_merkles(ms: Seq<i64>) -> i64
    decreases ms.len(),
{
    if ms.len() == 0 {
        0
    } else {
        hash_step(spec_hash_merkles(ms.drop_last()), ms.last())
    }
}

/// A node's fingerprint: its span, its content hash, and its tag code,
/// mixed with fixed multipliers, wrapping on overflow.
pub open spec fn spec_hash_n(k: K, start: usize, end: usize, inner: i64) -> i64 {
    i64_specs::wrapping_add(
        i64_specs::wrapping_add(
            i64_specs::wrapping_add(
                start as i64,
                i64_specs::wrapping_mul(11, end as i64),
            ),
            i64_specs::wrapping_mul(17, inner),
        ),
        i64_specs::wrapping_mul(31, spec_code(k)),
    )
}

/// A rendered node: tag, span, fingerprint, and either children (container
/// kinds) or the literal source bytes (inline leaves).
#[derive(Debug)]
pub struct N {
    pub kind: K,
    pub span: (usize, usize),
    pub merkle: i64,
    pub children: Option<Vec<N>>,
    pub text: Option<Vec<u8>>,
}

/// The mathematical value of a rendered node.
pub struct SN {
    pub kind: K,
    pub span: (usize, usize),
    pub merkle: i64,
    pub children: Option<Seq<SN>>,
    pub text: Option<Seq<u8>>,
}

/// The mathematical value of an executable rendered node.
pub open spec fn view_n(x: N) -> SN
    decreases x,
{
    SN {
        kind: x.kind,
        span: x.span,
        merkle: x.merkle,
        children: match x.children {
            Some(v) => Some(view_n_seq(v@)),
            None => None,
        },
        text: match x.text {
            Some(t) => Some(t@),
            None => None,
        },
    }
}

pub open spec fn view_n_seq(v: Seq<N>) -> Seq<SN>
    decreases v,
{
    if v.len() == 0 {
        Seq::empty()
    } else {
        view_n_seq(v.drop_last()).push(view_n(v.last()))
    }
}

/// What rendering a finished node yields: a pure function of the source
/// bytes and the tree, so rendering the same tree twice yields the same
/// value.
pub open spec fn spec_render(s: Seq<u8>, n: Node) -> SN
    decreases n, 1int,
{
    let k = spec_tag(n.kind);
    if is_inline(n.kind) {
        let text = s.subrange(n.span.0 as int, n.span.1 as int);
        SN {
            kind: k,
            span: n.span,
            merkle: spec_hash_str(text),
            children: None,
            text: Some(text),
        }
    } else {
        let kids = spec_render_seq(s, n.children@);
        let ms = Seq::new(kids.len(), |i: int| kids[i].merkle);
        SN {
            kind: k,
            span: n.span,
            merkle: spec_hash_n(k, n.span.0, n.span.1, spec_hash_merkles(ms)),
            children: Some(kids),
            text: None,
        }
    }
}

pub open spec fn spec_render_seq(s: Seq<u8>, cs: Seq<Node>) -> Seq<SN>
    decreases cs, 0int,
{
    if cs.len() == 0 {
        Seq::empty()
    } else {
        spec_render_seq(s, cs.drop_last()).push(spec_render(s, cs.last()))
    }
}

/// Rendering the same finished tree against the same source twice yields
/// identical output: the renderer holds no hidden mutable state.
pub proof fn lemma_render_deterministic(s: Seq<u8>, n: Node, r1: SN, r2: SN)
    requires
        r1 == spec_render(s, n),
        r2 == spec_render(s, n),
    ensures
        r1 == r2,
{
}

/// Copy the byte range `[start, end)` out of the source.
fn bytes_range(source: &[u8], start: usize, end: usize) -> (r: Vec<u8>)
    requires
        start <= end <= source@.len(),
    ensures
        r@ == source@.subrange(start as int, end as int),
{
    let mut r: Vec<u8> = Vec::new();
    let mut i = start;
    while i < end
        invariant
            start <= i <= end <= source@.len(),
            r@ == source@.subrange(start as int, i as int),
        decreases end - i,
    {
        r.push(source[i]);
        proof {
            assert(r@ =~= source@.subrange(start as int, (i + 1) as int));
        }
        i = i + 1;
    }
    r
}

/// The fingerprint of a byte string.
pub fn hash_str(s: &[u8]) -> (r: i64)
    ensures
        r == spec_hash_str(s@),
{
    let mut h: i64 = 0;
    let mut i: usize = 0;
    while i < s.len()
        invariant
            i <= s@.len(),
            h == spec_hash_str(s@.subrange(0, i as int)),
        decreases s@.len() - i,
    {
        let b = s[i];
        h = h.wrapping_shl(5).wrapping_sub(h).wrapping_add(b as i64);
        proof {
            let pre = s@.subrange(0, i as int);
            let cur = s@.subrange(0, (i + 1) as int);
            assert(cur.drop_last() =~= pre);
            assert(cur.last() == s@[i as int]);
        }
        i = i + 1;
    }
    proof {
        assert(s@.subrange(0, s@.len() as int) =~= s@);
    }
    h
}

/// The fingerprint of a children list.
pub fn hash_vec(v: &Vec<N>) -> (r: i64)
    ensures
        r == spec_hash_merkles(Seq::new(view_n_seq(v@).len(), |i: int| view_n_seq(v@)[i].merkle)),
{
    let ghost kids = view_n_seq(v@);
    let ghost ms = Seq::new(kids.len(), |i: int| kids[i].merkle);
    proof {
        lemma_view_n_seq_len(v@);
    }
    let mut h: i64 = 0;
    let mut i: usize = 0;
    while i < v.len()
        invariant
            i <= v@.len(),
            kids == view_n_seq(v@),
            ms == Seq::new(kids.len(), |i: int| kids[i].merkle),
            kids.len() == v@.len(),
            h == spec_hash_merkles(ms.subrange(0, i as int)),
        decreases v@.len() - i,
    {
        let m = v[i].merkle;
        proof {
            lemma_view_n_seq_index(v@, i as int);
            let pre = ms.subrange(0, i as int);
            let cur = ms.subrange(0, (i + 1) as int);
            assert(cur.drop_last() =~= pre);
            assert(cur.last() == ms[i as int]);
            assert(ms[i as int] == kids[i as int].merkle);
        }
        h = h.wrapping_shl(5).wrapping_sub(h).wrapping_add(m);
        i = i + 1;
    }
    proof {
        assert(ms.subrange(0, ms.len() as int) =~= ms);
    }
    h
}

proof fn lemma_view_n_seq_len(v: Seq<N>)
    ensures
        view_n_seq(v).len() == v.len(),
    decreases v.len(),
{
    if v.len() > 0 {
        lemma_view_n_seq_len(v.drop_last());
    }
}

proof fn lemma_view_n_seq_index(v: Seq<N>, i: int)
    requires
        0 <= i < v.len(),
    ensures
        view_n_seq(v).len() == v.len(),
        view_n_seq(v)[i] == view_n(v[i]),
    decreases v.len(),
{
    lemma_view_n_seq_len(v);
    if i == v.len() - 1 {
        lemma_view_n_seq_len(v.drop_last());
    } else {
        lemma_view_n_seq_index(v.drop_last(), i);
        assert(v.drop_last()[i] == v[i]);
    }
}

/// The fingerprint of a node record from its parts.
#[verifier::rlimit(60)]
pub fn hash_n(kind: K, span: (usize, usize), children: &Option<Vec<N>>, text: &Option<Vec<u8>>)
    -> (r: i64)
    ensures
        r == ({
            let inner = match (children, text) {
                (Some(v), None) => spec_hash_merkles(
                    Seq::new(view_n_seq(v@).len(), |i: int| view_n_seq(v@)[i].merkle)),
                (None, Some(t)) => spec_hash_str(t@),
                _ => 0,
            };
            spec_hash_n(kind, span.0, span.1, inner)
        }),
{
    let inner: i64 = match (children, text) {
        (Some(v), None) => hash_vec(v),
        (None, Some(t)) => hash_str(t.as_slice()),
        _ => 0,
    };
    let start_t = #[verifier::truncate] (span.0 as i64);
    let end_t = #[verifier::truncate] (span.1 as i64);
    let code = kind.code();
    start_t
        .wrapping_add(11i64.wrapping_mul(end_t))
        .wrapping_add(17i64.wrapping_mul(inner))
        .wrapping_add(31i64.wrapping_mul(code))
}

/// Render an inline leaf: its tag, span, the literal source bytes, and the
/// fingerprint of those bytes.
pub fn render_inline(kind: K, source: &[u8], span: (usize, usize)) -> (r: N)
    requires
        span.0 <= span.1 <= source@.len(),
    ensures
        view_n(r) == (SN {
            kind: kind,
            span: span,
            merkle: spec_hash_str(source@.subrange(span.0 as int, span.1 as int)),
            children: None,
            text: Some(source@.subrange(span.0 as int, span.1 as int)),
        }),
{
    let text = bytes_range(source, span.0, span.1);
    let merkle = hash_str(text.as_slice());
    N { kind, span, merkle, children: None, text: Some(text) }
}

/// Render the children of a node: inline leaves carry no children at all,
/// container kinds carry one rendered record per child.
pub fn render_children(source: &[u8], node: &Node) -> (r: Option<Vec<N>>)
    requires
        node_wf(*node),
        node.span.1 <= source@.len(),
    ensures
        r is None <==> is_inline(node.kind),
        r matches Some(v) ==> view_n_seq(v@) == spec_render_seq(source@, node.children@),
    decreases *node, 0int,
{
    match node.kind {
        Kind::EmptyLine | Kind::Plaintext | Kind::Whitespace => {
            return None;
        }
        _ => {}
    }
    let m = node.children.len();
    let mut children: Vec<N> = Vec::new();
    let mut j: usize = 0;
    while j < m
        invariant
            node_wf(*node),
            node.span.1 <= source@.len(),
            m == node.children@.len(),
            j <= m,
            children@.len() == j,
            forall|k: int| 0 <= k < j ==>
                view_n(#[trigger] children@[k]) == spec_render(source@, node.children@[k]),
        decreases m - j,
    {
        proof {
            assert(node_wf(node.children@[j as int]));
            assert(node.children@[j as int].span.1 <= node.span.1) by {
                lemma_child_span_bound(*node, j as int);
            }
        }
        let c = &node.children[j];
        let rc = render_node(source, c);
        children.push(rc);
        j = j + 1;
    }
    proof {
        lemma_view_render_seq(source@, node.children@, children@);
    }
    Some(children)
}

/// Render a container node: its tag, span, rendered children, and the
/// fingerprint combining span, children fingerprints, and tag.
pub fn render_container(kind: K, source: &[u8], node: &Node) -> (r: N)
    requires
        node_wf(*node),
        node.span.1 <= source@.len(),
        !is_inline(node.kind),
        kind == spec_tag(node.kind),
    ensures
        view_n(r) == spec_render(source@, *node),
    decreases *node, 1int,
{
    let ch = match render_children(source, node) {
        Some(v) => Some(v),
        None => Some(Vec::new()),
    };
    let no_text: Option<Vec<u8>> = None;
    let merkle = hash_n(kind, node.span, &ch, &no_text);
    N { kind, span: node.span, merkle, children: ch, text: None }
}

/// A child's span ends within its parent's span.
proof fn lemma_child_span_bound(n: Node, j: int)
    requires
        node_wf(n),
        0 <= j < n.children@.len(),
    ensures
        n.children@[j].span.1 <= n.span.1,
    decreases n.children@.len() - j,
{
    if j == n.children@.len() - 1 {
    } else {
        lemma_child_span_bound(n, j + 1);
        assert(n.children@[j].span.1 <= n.children@[j + 1].span.0);
        assert(node_wf(n.children@[j + 1]));
        assert(n.children@[j + 1].span.0 <= n.children@[j + 1].span.1);
    }
}

/// Rendered children agree with the rendering of the child list.
proof fn lemma_view_render_seq(s: Seq<u8>, cs: Seq<Node>, out: Seq<N>)
    requires
        out.len() == cs.len(),
        forall|k: int| 0 <= k < cs.len() ==>
            view_n(#[trigger] out[k]) == spec_render(s, cs[k]),
    ensures
        view_n_seq(out) == spec_render_seq(s, cs),
    decreases cs.len(),
{
    if cs.len() > 0 {
        lemma_view_render_seq(s, cs.drop_last(), out.drop_last());
        assert(view_n_seq(out) == view_n_seq(out.drop_last()).push(view_n(out.last())));
        assert(spec_render_seq(s, cs) == spec_render_seq(s, cs.drop_last())
            .push(spec_render(s, cs.last())));
    }
}

/// Render a heading: its level picks the tag, then it renders as a
/// container of its inline children.
pub fn render_heading(source: &[u8], node: &Node, size: usize) -> (r: N)
    requires
        node_wf(*node),
        node.span.1 <= source@.len(),
        node.kind == Kind::Heading(size),
    ensures
        view_n(r) == spec_render(source@, *node),
    decreases *node, 2int,
{
    let kind = if size == 1 {
        K::Heading1
    } else if size == 2 {
        K::Heading2
    } else if size == 3 {
        K::Heading3
    } else if size == 4 {
        K::Heading4
    } else if size == 5 {
        K::Heading5
    } else {
        K::Heading6
    };
    render_container(kind, source, node)
}

/// Render one finished node, dispatching on its kind.
pub fn render_node(source: &[u8], node: &Node) -> (r: N)
    requires
        node_wf(*node),
        node.span.1 <= source@.len(),
    ensures
        view_n(r) == spec_render(source@, *node),
    decreases *node, 3int,
{
    let kind = node.kind;
    match kind {
        Kind::Document => render_container(K::Document, source, node),
        Kind::BlockQuote => render_container(K::BlockQuote, source, node),
        Kind::Empty => render_container(K::Empty, source, node),
        Kind::UnorderedList(_) => render_container(K::UnorderedList, source, node),
        Kind::OrderedList(_) => render_container(K::OrderedList, source, node),
        Kind::ListItem(_) => render_container(K::ListItem, source, node),
        Kind::Heading(size) => render_heading(source, node, size),
        Kind::Paragraph => render_container(K::Paragraph, source, node),
        Kind::EmptyLine => render_inline(K::EmptyLine, source, node.span),
        Kind::Plaintext => render_inline(K::Plaintext, source, node.span),
        Kind::Whitespace => render_inline(K::Whitespace, source, node.span),
    }
}

impl N {
    /// Render one finished node of a parse against its source.
    pub fn new(source: &[u8], node: &Node) -> (r: N)
        requires
            node_wf(*node),
            node.span.1 <= source@.len(),
        ensures
            view_n(r) == spec_render(source@, *node),
    {
        render_node(source, node)
    }
}

} // verus!
