use searchpack::aggregate::aggregate_tokens;
use searchpack::pipeline::{compact_search_index, compact_tokens};
use searchpack::text::{chars_to_text, inject_preamble, CompactError};
use searchpack::token::{serialize, Keyword, Token};

fn chs(s: &str) -> Vec<char> {
    s.chars().collect()
}

fn st(s: &str) -> Token {
    Token::Str(chs(s))
}

fn ot(s: &str) -> Token {
    Token::Other(chs(s))
}

// The tokens of `var N=null;var x="";var y="t";var z="u";`.
fn alias_scenario_tokens() -> Vec<Token> {
    vec![
        ot("var"),
        Token::Char(' '),
        ot("N"),
        Token::Char('='),
        Token::Keyword(Keyword::Null),
        Token::Char(';'),
        ot("var"),
        Token::Char(' '),
        ot("x"),
        Token::Char('='),
        st("\"\""),
        Token::Char(';'),
        ot("var"),
        Token::Char(' '),
        ot("y"),
        Token::Char('='),
        st("\"t\""),
        Token::Char(';'),
        ot("var"),
        Token::Char(' '),
        ot("z"),
        Token::Char('='),
        st("\"u\""),
        Token::Char(';'),
    ]
}

#[test]
fn rewrite_substitutes_all_four_aliases() {
    let out = searchpack::stages::rewrite_tokens(&alias_scenario_tokens());
    let text = chars_to_text(&serialize(&out));
    assert_eq!(text, "var N=N;var x=E;var y=T;var z=U;");
}

#[test]
fn preamble_replaces_marker() {
    let input = chs("var searchIndex={};addIndex(searchIndex);");
    let out = inject_preamble(&input).unwrap();
    assert_eq!(
        chars_to_text(&out),
        "var N=null,E=\"\",T=\"t\",U=\"u\",searchIndex={};addIndex(searchIndex);"
    );
}

#[test]
fn preamble_replaces_first_marker_only() {
    let input = chs("var searchIndex={};var searchIndex={};");
    let out = inject_preamble(&input).unwrap();
    assert_eq!(
        chars_to_text(&out),
        "var N=null,E=\"\",T=\"t\",U=\"u\",searchIndex={};var searchIndex={};"
    );
}

#[test]
fn missing_marker_is_structural_error() {
    let input = chs("var somethingElse={};");
    assert_eq!(inject_preamble(&input), Err(CompactError::MissingMarker));
}

// Four occurrences of the run `"a","b","c"` (strings adjacent in each run):
// packing pays for the declaration, so every run becomes a reference, the
// first preceded by the declaration and a line break.
#[test]
fn aggregation_packs_beneficial_run() {
    let mut input: Vec<Token> = Vec::new();
    for i in 0..4 {
        if i > 0 {
            input.push(Token::Char(';'));
        }
        input.push(st("\"a\""));
        input.push(st("\"b\""));
        input.push(st("\"c\""));
    }
    let out = aggregate_tokens(&input, &chs("R"), '\u{1}');
    let text = chars_to_text(&serialize(&out));
    assert_eq!(
        text,
        "var R=\"a\u{1}b\u{1}c\".split(\"\u{1}\")\nR;R;R;R"
    );
}

// With only three occurrences the declaration costs more than it saves, so
// the benefit rule leaves the runs inline.
#[test]
fn aggregation_skips_unprofitable_run() {
    let mut input: Vec<Token> = Vec::new();
    for i in 0..3 {
        if i > 0 {
            input.push(Token::Char(';'));
        }
        input.push(st("\"a\""));
        input.push(st("\"b\""));
        input.push(st("\"c\""));
    }
    let out = aggregate_tokens(&input, &chs("R"), '\u{1}');
    assert_eq!(out, input);
}

// A run whose content holds the separator is excluded from packing.
#[test]
fn aggregation_skips_run_containing_separator() {
    let mut input: Vec<Token> = Vec::new();
    for i in 0..6 {
        if i > 0 {
            input.push(Token::Char(';'));
        }
        input.push(st("\"a\u{1}aaaaaaaa\""));
    }
    let out = aggregate_tokens(&input, &chs("R"), '\u{1}');
    assert_eq!(out, input);
}

// Two distinct qualifying contents: the second variable's name carries the
// numeric suffix, and each declaration precedes its first reference.
#[test]
fn aggregation_names_second_variable_with_suffix() {
    let mut input: Vec<Token> = Vec::new();
    for _ in 0..4 {
        input.push(st("\"aaaaaaaaaa\""));
        input.push(Token::Char(';'));
    }
    for _ in 0..4 {
        input.push(st("\"bbbbbbbbbb\""));
        input.push(Token::Char(';'));
    }
    let out = aggregate_tokens(&input, &chs("R"), '\u{1}');
    let text = chars_to_text(&serialize(&out));
    assert_eq!(
        text,
        "var R=\"aaaaaaaaaa\".split(\"\u{1}\")\nR;R;R;R;var R1=\"bbbbbbbbbb\".split(\"\u{1}\")\nR1;R1;R1;R1;"
    );
}

#[test]
fn pipeline_end_to_end_with_marker() {
    let input = vec![
        ot("var"),
        Token::Char(' '),
        ot("searchIndex"),
        Token::Char('='),
        Token::Char('{'),
        Token::Char('}'),
        Token::Char(';'),
        ot("var"),
        Token::Char(' '),
        ot("a"),
        Token::Char('='),
        Token::Keyword(Keyword::Null),
        Token::Char(';'),
    ];
    let out = compact_search_index(&input).unwrap();
    assert_eq!(
        out,
        "var N=null,E=\"\",T=\"t\",U=\"u\",searchIndex={};var a=N;"
    );
}

#[test]
fn pipeline_end_to_end_missing_marker() {
    let input = vec![ot("var"), Token::Char(' '), ot("a"), Token::Char('='), st("\"t\"")];
    assert_eq!(compact_search_index(&input), Err(CompactError::MissingMarker));
}

#[test]
fn empty_input_has_no_marker() {
    let input: Vec<Token> = Vec::new();
    assert_eq!(compact_search_index(&input), Err(CompactError::MissingMarker));
    assert_eq!(inject_preamble(&Vec::new()), Err(CompactError::MissingMarker));
}

// The token-level pipeline never grows the serialized text.
#[test]
fn pipeline_output_no_longer_than_input() {
    let mut input = alias_scenario_tokens();
    for _ in 0..4 {
        input.push(st("\"aaaaaaaaaa\""));
        input.push(Token::Char(';'));
        input.push(Token::Char('\r'));
    }
    let before = serialize(&input).len();
    let out = compact_tokens(&input);
    let after = serialize(&out).len();
    assert!(after <= before);
}
