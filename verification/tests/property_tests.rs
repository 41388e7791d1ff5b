use md_blocks::parse;
use md_blocks::Span;
use md_blocks::node::{OrderedList, OrderedListToken, UnorderedList, UnorderedListToken};
use md_blocks::render::N;
use md_blocks::render::K;
use md_blocks::Kind;
use md_blocks::Node;

fn doc(start: usize, end: usize, children: Vec<Node>) -> Node {
    Node::new_block(Kind::Document, start, end, children)
}

fn empty(start: usize, end: usize, children: Vec<Node>) -> Node {
    Node::new_block(Kind::Empty, start, end, children)
}

fn empty_line(start: usize, end: usize) -> Node {
    Node::new(Kind::EmptyLine, start, end)
}

fn p(start: usize, end: usize, children: Vec<Node>) -> Node {
    Node::new_block(Kind::Paragraph, start, end, children)
}

fn plain(start: usize, end: usize) -> Node {
    Node::new(Kind::Plaintext, start, end)
}

fn ws(start: usize, end: usize) -> Node {
    Node::new(Kind::Whitespace, start, end)
}

fn h(level: usize, start: usize, end: usize, children: Vec<Node>) -> Node {
    Node::new_block(Kind::Heading(level), start, end, children)
}

fn bq(start: usize, end: usize, children: Vec<Node>) -> Node {
    Node::new_block(Kind::BlockQuote, start, end, children)
}

fn li(width: usize, start: usize, end: usize, children: Vec<Node>) -> Node {
    Node::new_block(Kind::ListItem(width), start, end, children)
}

fn ul(width: usize, start: usize, end: usize, children: Vec<Node>) -> Node {
    Node::new_block(
        Kind::UnorderedList(UnorderedList::new(UnorderedListToken::Asterisk, width)),
        start,
        end,
        children,
    )
}

fn ol_dot(width: usize, start: usize, end: usize, children: Vec<Node>) -> Node {
    Node::new_block(
        Kind::OrderedList(OrderedList::new(OrderedListToken::Dot, width)),
        start,
        end,
        children,
    )
}

fn ol_paren(width: usize, start: usize, end: usize, children: Vec<Node>) -> Node {
    Node::new_block(
        Kind::OrderedList(OrderedList::new(OrderedListToken::Paren, width)),
        start,
        end,
        children,
    )
}

/// Spans are ordered and children tile inside their parents, recursively.
fn check_spans(n: &Node) {
    let (start, end) = n.span;
    assert!(start <= end);
    let mut prev = start;
    for c in n.children.iter() {
        assert!(prev <= c.span.0);
        prev = c.span.1;
        check_spans(c);
    }
    assert!(n.children.is_empty() || prev <= end);
}

// Totality: a handful of adversarial inputs all parse to a Document whose
// end is the source length, with well-formed spans throughout.
#[test]
fn test_totality_and_spans() {
    let inputs = [
        "",
        "\n",
        "x",
        "> > > #",
        "* \n* \nABC",
        "1. \n\n1. \n\n",
        "# \n* A\n  * \n> q\n",
        "   \n\t\n- - -\n",
        "####### not a heading\n###### heading",
        "12. twelve\n12) other",
        "> * A\n>   * B\n> \n> \n",
        "* List item\n\n   * Second list item",
        "* one\n- two\n+ three",
    ];
    for s in inputs.iter() {
        let n = parse(s);
        assert!(matches!(n.kind, Kind::Document));
        assert_eq!(n.span, (0, s.len()));
        check_spans(&n);
    }
}

// A bare hash line with no content opens no heading; the following line
// still opens its own heading with its content.
#[test]
fn test_heading_termination() {
    let n = parse("# \n## Heading\n");
    assert_eq!(
        n,
        doc(0, 14, vec![
            p(0, 3, vec![plain(0, 1), ws(1, 2)]),
            h(2, 3, 14, vec![plain(6, 13)]),
        ])
    );
}

// Consecutive blank lines group into one Empty block, one EmptyLine per
// physical line, between the two paragraphs.
#[test]
fn test_blank_line_grouping() {
    let n = parse("Hello\n\n\n\nWorld");
    assert_eq!(
        n,
        doc(0, 14, vec![
            p(0, 6, vec![plain(0, 5)]),
            empty(6, 9, vec![empty_line(6, 7), empty_line(7, 8), empty_line(8, 9)]),
            p(9, 14, vec![plain(9, 14)]),
        ])
    );
}

// A deeper-indented marker opens a nested list inside the first item, while
// content at column zero after a blank line leaves every list and becomes a
// Document-level paragraph.
#[test]
fn test_list_width_discipline() {
    let n = parse("* List item\n  * Nested list\n\nThird list item");
    assert_eq!(
        n,
        doc(0, 44, vec![
            ul(2, 0, 28, vec![
                li(2, 0, 28, vec![
                    p(2, 14, vec![plain(2, 6), ws(6, 7), plain(7, 11)]),
                    ul(2, 14, 28, vec![
                        li(2, 14, 28, vec![
                            p(16, 28, vec![plain(16, 22), ws(22, 23), plain(23, 27)]),
                        ]),
                    ]),
                ]),
            ]),
            empty(28, 29, vec![empty_line(28, 29)]),
            p(29, 44, vec![
                plain(29, 34),
                ws(34, 35),
                plain(35, 39),
                ws(39, 40),
                plain(40, 44),
            ]),
        ])
    );
}

// A blank line closes the quote's paragraph; what follows is a new
// top-level paragraph, not quote content.
#[test]
fn test_blockquote_lazy_continuation() {
    let n = parse("> Hello\n\nWorld!");
    assert_eq!(
        n,
        doc(0, 15, vec![
            bq(0, 8, vec![p(2, 8, vec![plain(2, 7)])]),
            empty(8, 9, vec![empty_line(8, 9)]),
            p(9, 15, vec![plain(9, 15)]),
        ])
    );
}

// A line without the quote marker still continues the quote's open
// paragraph (lazy continuation).
#[test]
fn test_blockquote_lazy_line() {
    let n = parse("> Hello\nWorld!");
    assert_eq!(
        n,
        doc(0, 14, vec![
            bq(0, 14, vec![p(2, 14, vec![plain(2, 7), ws(7, 8), plain(8, 14)])]),
        ])
    );
}

// `.` and `)` are different marker families: switching closes the list and
// opens a new one, while repeating the same family continues one list.
#[test]
fn test_ordered_marker_families() {
    let two = parse("1. A\n1) B");
    assert_eq!(
        two,
        doc(0, 9, vec![
            ol_dot(3, 0, 5, vec![li(3, 0, 5, vec![p(3, 5, vec![plain(3, 4)])])]),
            ol_paren(3, 5, 9, vec![li(3, 5, 9, vec![p(8, 9, vec![plain(8, 9)])])]),
        ])
    );
    let one = parse("1. A\n1. B");
    assert_eq!(
        one,
        doc(0, 9, vec![
            ol_dot(3, 0, 9, vec![
                li(3, 0, 5, vec![p(3, 5, vec![plain(3, 4)])]),
                li(3, 5, 9, vec![p(8, 9, vec![plain(8, 9)])]),
            ]),
        ])
    );
}

// Rendering is deterministic and fingerprints follow the documented mixing.
#[test]
fn test_render_deterministic() {
    let src = "# T\n\ntext";
    let n = parse(src);
    let r1 = N::new(src.as_bytes(), &n);
    let r2 = N::new(src.as_bytes(), &n);
    assert_eq!(r1.merkle, r2.merkle);
    assert_eq!(r1.span, r2.span);
    assert_eq!(r1.kind, r2.kind);
}

#[test]
fn test_render_fingerprints() {
    // Empty document: no content hash, only span and tag code mix in.
    let n = parse("");
    let r = N::new("".as_bytes(), &n);
    assert_eq!(r.kind, K::Document);
    assert_eq!(r.span, (0, 0));
    assert_eq!(r.merkle, 31);
    assert!(r.text.is_none());
    assert_eq!(r.children.as_ref().map(|v| v.len()), Some(0));

    // One paragraph "A": hash("A") = 65; paragraph = 11*1 + 17*65 + 31*13;
    // document = 11*1 + 17*paragraph + 31*1.
    let n = parse("A");
    let r = N::new("A".as_bytes(), &n);
    let kids = r.children.as_ref().unwrap();
    assert_eq!(kids.len(), 1);
    let para = &kids[0];
    assert_eq!(para.kind, K::Paragraph);
    let inline = &para.children.as_ref().unwrap()[0];
    assert_eq!(inline.kind, K::Plaintext);
    assert_eq!(inline.merkle, 65);
    assert_eq!(inline.text.as_deref(), Some("A".as_bytes()));
    assert_eq!(para.merkle, 11 + 17 * 65 + 31 * 13);
    assert_eq!(r.merkle, 11 + 17 * (11 + 17 * 65 + 31 * 13) + 31);
}

// The renderer keeps literal text on inline leaves only; containers carry
// children only.
#[test]
fn test_render_shape() {
    let src = "> Hi\n";
    let n = parse(src);
    let r = N::new(src.as_bytes(), &n);
    fn walk(x: &N) {
        match (&x.children, &x.text) {
            (Some(v), None) => {
                for c in v.iter() {
                    walk(c);
                }
            }
            (None, Some(_)) => {}
            _ => panic!("a rendered node carries children or text, never both"),
        }
    }
    walk(&r);
}

// Tightness is derived: a list is loose exactly when an Empty block stands
// between two of its items.
#[test]
fn test_is_loose() {
    let loose = ul(2, 0, 10, vec![
        li(2, 0, 3, vec![]),
        empty(3, 4, vec![empty_line(3, 4)]),
        li(2, 4, 10, vec![]),
    ]);
    assert!(md_blocks::node::is_loose(&loose));
    let tight = ul(2, 0, 8, vec![li(2, 0, 4, vec![]), li(2, 4, 8, vec![])]);
    assert!(!md_blocks::node::is_loose(&tight));
    // This engine keeps blank runs inside items or moves them to the
    // Document, so a parsed list has no Empty between its items.
    let n = parse("* A\n\n* B");
    assert!(matches!(n.children[0].kind, Kind::UnorderedList(_)));
    assert!(!md_blocks::node::is_loose(&n.children[0]));
}

#[test]
fn test_span_merge() {
    let a = Span::new(3, 7);
    let b = Span::new(5, 12);
    let m = a.merge(b);
    assert_eq!((m.start, m.end), (3, 12));
    let m2 = b.merge(a);
    assert_eq!((m2.start, m2.end), (3, 12));
    let same = a.merge(Span::new(3, 7));
    assert_eq!((same.start, same.end), (3, 7));
}

// A heading at end of input with no content stays empty but closed.
#[test]
fn test_heading_at_end() {
    let n = parse("# ");
    assert_eq!(n, doc(0, 2, vec![h(1, 0, 2, vec![])]));
}

// A blank run that ends a list chain moves out to the Document: the list
// closes where the blanks began, and the blank run becomes a sibling.
#[test]
fn test_trailing_blank_relocates() {
    let n = parse("* A\n\nB");
    assert_eq!(
        n,
        doc(0, 6, vec![
            ul(2, 0, 4, vec![li(2, 0, 4, vec![p(2, 4, vec![plain(2, 3)])])]),
            empty(4, 5, vec![empty_line(4, 5)]),
            p(5, 6, vec![plain(5, 6)]),
        ])
    );
}

// Blank lines inside a list item belong to the item until outdented content
// closes the chain.
#[test]
fn test_list_blank_then_indent() {
    let n = parse("* A\n\n  B");
    assert_eq!(
        n,
        doc(0, 8, vec![
            ul(2, 0, 8, vec![
                li(2, 0, 8, vec![
                    p(2, 4, vec![plain(2, 3)]),
                    empty(4, 5, vec![empty_line(4, 5)]),
                    p(7, 8, vec![plain(7, 8)]),
                ]),
            ]),
        ])
    );
}

// Offsets are byte offsets: text outside the ASCII range still parses with
// byte-accurate spans.
#[test]
fn test_multibyte_text() {
    let src = "h\u{e9}llo w\u{f6}rld";
    let n = parse(src);
    assert_eq!(n.span, (0, src.len()));
    assert_eq!(
        n,
        doc(0, 13, vec![p(0, 13, vec![plain(0, 6), ws(6, 7), plain(7, 13)])])
    );
}
