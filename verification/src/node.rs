//! The node/span model: the tree of block containers and leaf blocks that a
//! parse produces. Every node carries a kind tag, a half-open byte span into
//! the source, and its ordered children.

use vstd::prelude::*;

verus! {

/// Which marker character opened an unordered list.
#[derive(Debug, Copy, Clone, PartialEq, Eq, Structural)]
pub enum UnorderedListToken {
    Asterisk,
    Dash,
    Plus,
}

/// Which marker family opened an ordered list: `1.` or `1)`.
#[derive(Debug, Copy, Clone, PartialEq, Eq, Structural)]
pub enum OrderedListToken {
    Dot,
    Paren,
}

/// Metadata of an unordered list: its marker character and the column width
/// consumed by marker plus separating whitespace, fixed at open time. The
/// width is the minimum indentation for a continuation line of an item.
#[derive(Debug, Copy, Clone, PartialEq, Eq, Structural)]
pub struct UnorderedList {
    pub token: UnorderedListToken,
    pub width: usize,
}

impl UnorderedList {
    pub fn new(token: UnorderedListToken, width: usize) -> (r: UnorderedList)
        ensures
            r.token == token,
            r.width == width,
    {
        UnorderedList { token, width }
    }
}

/// Metadata of an ordered list, as for `UnorderedList`.
#[derive(Debug, Copy, Clone, PartialEq, Eq, Structural)]
pub struct OrderedList {
    pub token: OrderedListToken,
    pub width: usize,
}

impl OrderedList {
    pub fn new(token: OrderedListToken, width: usize) -> (r: OrderedList)
        ensures
            r.token == token,
            r.width == width,
    {
        OrderedList { token, width }
    }
}

/// The kind tag of a node: container blocks, leaf blocks, and inline leaves.
/// A `ListItem` carries the owning list's width; a `Heading` its level.
#[derive(Debug, Copy, Clone, PartialEq, Eq, Structural)]
pub enum Kind {
    Document,
    BlockQuote,
    Empty,
    UnorderedList(UnorderedList),
    OrderedList(OrderedList),
    ListItem(usize),
    Heading(usize),
    Paragraph,
    EmptyLine,
    Plaintext,
    Whitespace,
}

/// A finished tree node: kind, half-open byte span, ordered children.
#[derive(Debug)]
pub struct Node {
    pub kind: Kind,
    pub span: (usize, usize),
    pub children: Vec<Node>,
}

impl Node {
    pub fn new(kind: Kind, start: usize, end: usize) -> (n: Node)
        ensures
            n.kind == kind,
            n.span == (start, end),
            n.children@.len() == 0,
    {
        Node { kind, span: (start, end), children: Vec::new() }
    }

    pub fn new_block(kind: Kind, start: usize, end: usize, children: Vec<Node>) -> (n: Node)
        ensures
            n.kind == kind,
            n.span == (start, end),
            n.children == children,
    {
        Node { kind, span: (start, end), children }
    }
}

/// Span well-formedness of a finished tree: every node's span is ordered,
/// children lie inside their parent, and siblings are non-overlapping and
/// increasing.
pub open spec fn node_wf(n: Node) -> bool
    decreases n,
{
    &&& n.span.0 <= n.span.1
    &&& (n.children@.len() > 0 ==> n.children@[0].span.0 >= n.span.0
        && n.children@[n.children@.len() - 1].span.1 <= n.span.1)
    &&& (forall|i: int| 0 <= i < n.children@.len() - 1 ==>
        (#[trigger] n.children@[i]).span.1 <= n.children@[i + 1].span.0)
    &&& (forall|i: int| 0 <= i < n.children@.len() ==> node_wf(#[trigger] n.children@[i]))
}

/// The fixed width of a list kind: the column span of marker plus
/// separating whitespace, recorded at open time.
pub open spec fn list_width(k: Kind) -> usize {
    match k {
        Kind::UnorderedList(u) => u.width,
        Kind::OrderedList(o) => o.width,
        _ => 0,
    }
}

/// Whether a finished list node is loose: some Empty block stands as a
/// sibling between two of its list items. A tight list has no such blank
/// run; renderers may use this to suppress item spacing.
pub open spec fn spec_is_loose(n: Node) -> bool {
    exists|i: int, j: int, k: int|
        0 <= i < j && j < k < n.children@.len()
        && (#[trigger] n.children@[i]).kind is ListItem
        && (#[trigger] n.children@[j]).kind is Empty
        && (#[trigger] n.children@[k]).kind is ListItem
}

/// Decide whether a finished list node is loose.
pub fn is_loose(n: &Node) -> (r: bool)
    ensures
        r == spec_is_loose(*n),
{
    let m = n.children.len();
    let mut item_seen = false;
    let ghost mut item_at: int = 0;
    let mut empty_after = false;
    let ghost mut empty_at: int = 0;
    let mut idx: usize = 0;
    while idx < m
        invariant
            m == n.children@.len(),
            idx <= m,
            item_seen ==> 0 <= item_at < idx && n.children@[item_at].kind is ListItem,
            empty_after ==> item_seen && item_at < empty_at < idx
                && n.children@[empty_at].kind is Empty,
            !item_seen ==> (forall|i: int| 0 <= i < idx ==>
                !((#[trigger] n.children@[i]).kind is ListItem)),
            !empty_after ==> (forall|i: int, j: int| 0 <= i < j && j < idx
                && (#[trigger] n.children@[i]).kind is ListItem ==>
                !((#[trigger] n.children@[j]).kind is Empty)),
            empty_after ==> (forall|k2: int| empty_at < k2 < idx ==>
                !((#[trigger] n.children@[k2]).kind is ListItem)),
            empty_after ==> (forall|i2: int, j2: int| 0 <= i2 < j2 && j2 < empty_at
                && (#[trigger] n.children@[i2]).kind is ListItem ==>
                !((#[trigger] n.children@[j2]).kind is Empty)),
        decreases m - idx,
    {
        match n.children[idx].kind {
            Kind::ListItem(_) => {
                if empty_after {
                    proof {
                        assert(spec_is_loose(*n)) by {
                            assert(0 <= item_at < empty_at && empty_at < idx as int
                                && n.children@[item_at].kind is ListItem
                                && n.children@[empty_at].kind is Empty
                                && n.children@[idx as int].kind is ListItem);
                        }
                    }
                    return true;
                }
                if !item_seen {
                    item_seen = true;
                    proof {
                        item_at = idx as int;
                    }
                }
            }
            Kind::Empty => {
                if item_seen && !empty_after {
                    empty_after = true;
                    proof {
                        empty_at = idx as int;
                    }
                }
            }
            _ => {}
        }
        idx = idx + 1;
    }
    proof {
        if spec_is_loose(*n) {
            let (i, j, k) = choose|i: int, j: int, k: int|
                0 <= i < j && j < k < n.children@.len()
                && (#[trigger] n.children@[i]).kind is ListItem
                && (#[trigger] n.children@[j]).kind is Empty
                && (#[trigger] n.children@[k]).kind is ListItem;
            assert(item_seen);
            assert(empty_after);
            if empty_at < k {
                assert(!(n.children@[k].kind is ListItem));
            } else {
                assert(j < empty_at);
                assert(!(n.children@[j].kind is Empty));
            }
            assert(false);
        }
    }
    false
}

/// Structural equality of finished trees.
pub open spec fn spec_node_eq(a: Node, b: Node) -> bool
    decreases a,
{
    &&& a.kind == b.kind
    &&& a.span == b.span
    &&& a.children@.len() == b.children@.len()
    &&& forall|i: int| 0 <= i < a.children@.len() ==>
        spec_node_eq(#[trigger] a.children@[i], b.children@[i])
}

fn node_eq(a: &Node, b: &Node) -> (r: bool)
    ensures
        r == spec_node_eq(*a, *b),
    decreases *a,
{
    if !(a.kind == b.kind) {
        return false;
    }
    if a.span.0 != b.span.0 || a.span.1 != b.span.1 {
        return false;
    }
    if a.children.len() != b.children.len() {
        return false;
    }
    let n = a.children.len();
    let mut i: usize = 0;
    while i < n
        invariant
            n == a.children@.len() == b.children@.len(),
            i <= n,
            forall|j: int| 0 <= j < i ==>
                spec_node_eq(#[trigger] a.children@[j], b.children@[j]),
        decreases n - i,
    {
        if !node_eq(&a.children[i], &b.children[i]) {
            return false;
        }
        i = i + 1;
    }
    true
}

impl PartialEq for Node {
    fn eq(&self, other: &Node) -> (r: bool) {
        node_eq(self, other)
    }
}

impl vstd::std_specs::cmp::PartialEqSpecImpl for Node {
    open spec fn obeys_eq_spec() -> bool {
        true
    }

    open spec fn eq_spec(&self, other: &Node) -> bool {
        spec_node_eq(*self, *other)
    }
}

} // verus!
