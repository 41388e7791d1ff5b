use md_blocks::parse;
use md_blocks::Kind;
use md_blocks::Node;

fn doc(start: usize, end: usize, children: Vec<Node>) -> Node {
    Node::new_block(Kind::Document, start, end, children)
}

fn empty(start: usize, end: usize, children: Vec<Node>) -> Node {
    Node::new_block(Kind::Empty, start, end, children)
}

fn empty_line(start: usize, end: usize) -> Node {
    Node::new(Kind::EmptyLine, start, end)
}

fn p(start: usize, end: usize, children: Vec<Node>) -> Node {
    Node::new_block(Kind::Paragraph, start, end, children)
}

fn plain(start: usize, end: usize) -> Node {
    Node::new(Kind::Plaintext, start, end)
}

fn ws(start: usize, end: usize) -> Node {
    Node::new(Kind::Whitespace, start, end)
}

fn h(level: usize, start: usize, end: usize, children: Vec<Node>) -> Node {
    Node::new_block(Kind::Heading(level), start, end, children)
}

#[test]
fn test_empty() {
    assert_eq!(parse(""), doc(0, 0, vec![]));
    assert_eq!(
        parse("\n"),
        doc(0, 1, vec![empty(0, 1, vec![empty_line(0, 1)])])
    );
    assert_eq!(
        parse("\n\n"),
        doc(0, 2, vec![empty(0, 2, vec![empty_line(0, 1), empty_line(1, 2)])])
    );
    assert_eq!(parse("   \n"), doc(0, 4, vec![empty(0, 4, vec![empty_line(0, 4)])]));
}

#[test]
fn mod_test_plaintext() {
    assert_eq!(parse("ABC"), doc(0, 3, vec![p(0, 3, vec![plain(0, 3)])]));
    assert_eq!(
        parse("Hello,\nWorld!"),
        doc(0, 13, vec![p(0, 13, vec![plain(0, 6), ws(6, 7), plain(7, 13)])])
    );
    assert_eq!(parse("A \n"), doc(0, 3, vec![p(0, 3, vec![plain(0, 1), ws(1, 2)])]));
}

#[test]
fn test_heading() {
    assert_eq!(parse("# Hello"), doc(0, 7, vec![h(1, 0, 7, vec![plain(2, 7)])]));
    assert_eq!(
        parse("# Hello\nWorld!"),
        doc(0, 14, vec![
            h(1, 0, 8, vec![plain(2, 7)]),
            p(8, 14, vec![plain(8, 14)]),
        ])
    );
    assert_eq!(
        parse("Hello\n# World\n\n"),
        doc(0, 15, vec![
            p(0, 6, vec![plain(0, 5)]),
            h(1, 6, 14, vec![plain(8, 13)]),
            empty(14, 15, vec![empty_line(14, 15)]),
        ])
    );
    assert_eq!(
        parse("# Hello\n## World"),
        doc(0, 16, vec![
            h(1, 0, 8, vec![plain(2, 7)]),
            h(2, 8, 16, vec![plain(11, 16)]),
        ])
    );
    assert_eq!(
        parse("# \n## A B C"),
        doc(0, 11, vec![
            p(0, 3, vec![plain(0, 1), ws(1, 2)]),
            h(2, 3, 11, vec![
                plain(6, 7),
                ws(7, 8),
                plain(8, 9),
                ws(9, 10),
                plain(10, 11),
            ]),
        ])
    );
    assert_eq!(
        parse("#\n#A"),
        doc(0, 4, vec![p(0, 4, vec![plain(0, 1), ws(1, 2), plain(2, 3), plain(3, 4)])])
    );
}

#[test]
fn test_block_quote() {
    let result = parse("> * A\n>   * B\n>   * \n\n");
    println!("{:?}", result);
}

#[test]
fn test_unordered_lists() {
    let result = parse("* >A\n  >B");
    println!("{:?}", result);
}

#[test]
fn test_ordered_lists() {
    let result = parse("1. A\n\n1. B");
    println!("{:?}", result);
}
