use md_blocks::token::tokenize;
use md_blocks::token::Token;

#[test]
fn token_test_plaintext() {
    let result = tokenize("Hello, World!".as_bytes(), 0);
    assert_eq!(
        result,
        vec![
            Token::Plaintext((0, 6)),
            Token::Whitespace((6, 7)),
            Token::Plaintext((7, 13)),
        ]
    );
}

#[test]
fn test_hash() {
    let result = tokenize("### Header Text".as_bytes(), 0);
    assert_eq!(
        result,
        vec![
            Token::Hash((0, 3)),
            Token::Whitespace((3, 4)),
            Token::Plaintext((4, 10)),
            Token::Whitespace((10, 11)),
            Token::Plaintext((11, 15)),
        ]
    );
}

#[test]
fn test_ol() {
    let result = tokenize("1. Item\n12. Item".as_bytes(), 0);
    assert_eq!(
        result,
        vec![
            Token::NumDot((0, 2)),
            Token::Whitespace((2, 3)),
            Token::Plaintext((3, 7)),
            Token::Newline((7, 8)),
            Token::NumDot((8, 11)),
            Token::Whitespace((11, 12)),
            Token::Plaintext((12, 16)),
        ]
    );
}

#[test]
fn test_numbers() {
    let result = tokenize("Test 123 Test".as_bytes(), 0);
    assert_eq!(
        result,
        vec![
            Token::Plaintext((0, 4)),
            Token::Whitespace((4, 5)),
            Token::Plaintext((5, 8)),
            Token::Whitespace((8, 9)),
            Token::Plaintext((9, 13)),
        ]
    );
}

#[test]
fn test_marker_tokens() {
    let result = tokenize("> - + * 1)".as_bytes(), 0);
    assert_eq!(
        result,
        vec![
            Token::RightCaret((0, 1)),
            Token::Whitespace((1, 2)),
            Token::Dash((2, 3)),
            Token::Whitespace((3, 4)),
            Token::Plus((4, 5)),
            Token::Whitespace((5, 6)),
            Token::Asterisk((6, 7)),
            Token::Whitespace((7, 8)),
            Token::NumParen((8, 10)),
        ]
    );
}

#[test]
fn test_long_hash_run_degrades() {
    // A run of more than six hashes is no heading marker: it reads as
    // plain text up to the next whitespace.
    let result = tokenize("####### x".as_bytes(), 0);
    assert_eq!(
        result,
        vec![
            Token::Plaintext((0, 7)),
            Token::Whitespace((7, 8)),
            Token::Plaintext((8, 9)),
        ]
    );
    let six = tokenize("###### x".as_bytes(), 0);
    assert_eq!(
        six,
        vec![
            Token::Hash((0, 6)),
            Token::Whitespace((6, 7)),
            Token::Plaintext((7, 8)),
        ]
    );
}

#[test]
fn test_tokenize_from_offset() {
    // Tokenizing is a pure function of (offset, source): scanning from an
    // offset matches a fresh scan there.
    let all = tokenize("ab 12. c".as_bytes(), 3);
    assert_eq!(
        all,
        vec![
            Token::NumDot((3, 6)),
            Token::Whitespace((6, 7)),
            Token::Plaintext((7, 8)),
        ]
    );
}

#[test]
fn test_tokens_tile_source() {
    // The token stream tiles the byte source exactly: each token starts
    // where the previous one ended, from offset zero to the end.
    let inputs = ["", "a b\tc\n12. x 3) #### ####### > - + * 1.", "\n\n", "123", "#"];
    for s in inputs.iter() {
        let toks = tokenize(s.as_bytes(), 0);
        let mut at = 0;
        for t in toks.iter() {
            let (a, b) = t.span();
            assert_eq!(a, at);
            assert!(a < b);
            at = b;
        }
        assert_eq!(at, s.len());
    }
}
