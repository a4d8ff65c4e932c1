use searchpack::aggregate::{join_chars, split_chars};
use searchpack::route::{classify, Route};
use searchpack::stages::{filter_tokens, rewrite_tokens};
use searchpack::text::{chars_to_text, text_to_chars};
use searchpack::token::{serialize, Keyword, Token};

fn chs(s: &str) -> Vec<char> {
    s.chars().collect()
}

fn st(s: &str) -> Token {
    Token::Str(chs(s))
}

fn ot(s: &str) -> Token {
    Token::Other(chs(s))
}

#[test]
fn filter_drops_structure_keeps_newlines() {
    let input = vec![
        ot("a"),
        Token::Char('\t'),
        Token::Char('\n'),
        Token::Char('\r'),
        Token::Char(' '),
        ot("b"),
    ];
    let out = filter_tokens(&input);
    assert_eq!(out, vec![ot("a"), Token::Char('\n'), Token::Char(' '), ot("b")]);
}

#[test]
fn filter_idempotent_concrete() {
    let input = vec![
        Token::Keyword(Keyword::Null),
        Token::Char('\t'),
        st("\"x\""),
        Token::Char('\n'),
        Token::Char('\r'),
        ot("y"),
    ];
    let once = filter_tokens(&input);
    let twice = filter_tokens(&once);
    assert_eq!(once, twice);
}

#[test]
fn rewrite_aliases_concrete() {
    let input = vec![
        Token::Keyword(Keyword::Null),
        st("\"\""),
        st("\"t\""),
        st("\"u\""),
        st("\"x\""),
        st("\"tt\""),
        ot("t"),
        Token::Char('='),
    ];
    let out = rewrite_tokens(&input);
    assert_eq!(
        out,
        vec![
            ot("N"),
            ot("E"),
            ot("T"),
            ot("U"),
            st("\"x\""),
            st("\"tt\""),
            ot("t"),
            Token::Char('='),
        ]
    );
}

#[test]
fn rewrite_idempotent_concrete() {
    let input = vec![
        Token::Keyword(Keyword::Null),
        st("\"\""),
        st("\"t\""),
        st("\"u\""),
        st("\"keep\""),
        Token::Char(';'),
    ];
    let once = rewrite_tokens(&input);
    let twice = rewrite_tokens(&once);
    assert_eq!(once, twice);
}

#[test]
fn serialize_concrete() {
    let input = vec![
        Token::Keyword(Keyword::Null),
        st("\"a\""),
        Token::Char('='),
        ot("x"),
        Token::Char('\n'),
    ];
    let out = chars_to_text(&serialize(&input));
    assert_eq!(out, "null\"a\"=x\n");
}

#[test]
fn text_conversions_round_trip() {
    let v = text_to_chars("ab\u{1}c");
    assert_eq!(v, vec!['a', 'b', '\u{1}', 'c']);
    let s = chars_to_text(&v);
    assert_eq!(s, "ab\u{1}c");
}

#[test]
fn classify_routes() {
    assert_eq!(classify(&chs("search-index.js")), Route::SearchIndex);
    assert_eq!(classify(&chs("app.js")), Route::GenericJs);
    assert_eq!(classify(&chs("style.css")), Route::GenericCss);
    assert_eq!(classify(&chs("notes.txt")), Route::Skip);
}

#[test]
fn join_split_round_trip() {
    let parts = vec![chs("a"), chs("b"), chs("c")];
    let joined = join_chars(&parts, '\u{1}');
    assert_eq!(joined, chs("a\u{1}b\u{1}c"));
    let back = split_chars(&joined, '\u{1}');
    assert_eq!(back, parts);
}

#[test]
fn join_split_round_trip_empty_pieces() {
    let parts = vec![chs("a"), chs(""), chs("b")];
    let joined = join_chars(&parts, '\u{1}');
    assert_eq!(joined, chs("a\u{1}\u{1}b"));
    let back = split_chars(&joined, '\u{1}');
    assert_eq!(back, parts);
}

#[test]
fn split_without_separator_is_one_piece() {
    let back = split_chars(&chs("abc"), '\u{1}');
    assert_eq!(back, vec![chs("abc")]);
}
