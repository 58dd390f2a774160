use ral::ast::Span;
use ral::lexer::{lex, Token};
use ral::parser::ErrorKind;

fn toks_of(src: &str) -> Vec<(Token, Span)> {
    let (toks, errs) = lex(&src.to_string());
    assert!(errs.is_empty(), "unexpected lex errors");
    toks
}

#[test]
fn lexes_every_token_kind() {
    let toks = toks_of("register alias restricted config { } : _ + - 42 foo @bar");
    let kinds: Vec<Token> = toks.into_iter().map(|(t, _)| t).collect();
    assert_eq!(
        kinds,
        vec![
            Token::Register,
            Token::Alias,
            Token::Restricted,
            Token::Config,
            Token::LBrace,
            Token::RBrace,
            Token::Colon,
            Token::Empty,
            Token::Add,
            Token::Subtract,
            Token::Num("42".to_string()),
            Token::Ident("foo".to_string()),
            Token::Var("bar".to_string()),
        ]
    );
}

#[test]
fn concatenated_token_text_is_input_without_whitespace() {
    let src = "config {\n  base: 4096\n}\nalias a: b\n";
    let toks = toks_of(src);
    let mut joined = String::new();
    for (t, _) in &toks {
        joined.push_str(&t.render());
    }
    let stripped: String = src.chars().filter(|c| !c.is_whitespace()).collect();
    assert_eq!(joined, stripped);
}

#[test]
fn token_spans_are_contiguous_modulo_whitespace() {
    let src = "register  ctrl {enable:1}";
    let toks = toks_of(src);
    let mut covered = vec![false; src.len()];
    for (_, sp) in &toks {
        for p in sp.start..sp.end {
            covered[p] = true;
        }
    }
    for (p, c) in src.chars().enumerate() {
        assert_eq!(covered[p], !c.is_whitespace(), "position {}", p);
    }
}

#[test]
fn span_slices_match_token_text() {
    let src = "register ctrl { enable: 17 }";
    let toks = toks_of(src);
    for (t, sp) in &toks {
        assert_eq!(&src[sp.start..sp.end], t.render().as_str());
    }
}

#[test]
fn keywords_win_over_identifiers() {
    let toks = toks_of("register registers");
    assert_eq!(toks[0].0, Token::Register);
    assert_eq!(toks[1].0, Token::Ident("registers".to_string()));
}

#[test]
fn bare_underscore_is_the_placeholder_token() {
    let toks = toks_of("_ _x");
    assert_eq!(toks[0].0, Token::Empty);
    assert_eq!(toks[1].0, Token::Ident("_x".to_string()));
}

#[test]
fn unexpected_character_is_reported_and_lexing_goes_on() {
    let (toks, errs) = lex(&"foo $ bar".to_string());
    assert_eq!(errs.len(), 1);
    assert_eq!(errs[0].kind, ErrorKind::UnexpectedChar);
    assert_eq!((errs[0].span.start, errs[0].span.end), (4, 5));
    let kinds: Vec<Token> = toks.into_iter().map(|(t, _)| t).collect();
    assert_eq!(
        kinds,
        vec![
            Token::Ident("foo".to_string()),
            Token::Ident("bar".to_string())
        ]
    );
}

#[test]
fn sigil_without_identifier_is_reported() {
    let (toks, errs) = lex(&"@ x".to_string());
    assert_eq!(errs.len(), 1);
    assert_eq!(errs[0].kind, ErrorKind::MissingVarName);
    assert_eq!((errs[0].span.start, errs[0].span.end), (0, 1));
    assert_eq!(toks.len(), 1);
}

#[test]
fn rendered_tokens_relex_to_the_same_stream() {
    let src = "config{base:4096}register ctrl{enable:1 reserved:_}alias c2:ctrl";
    let toks = toks_of(src);
    let rendered = toks
        .iter()
        .map(|(t, _)| t.render())
        .collect::<Vec<_>>()
        .join(" ");
    let again = toks_of(&rendered);
    let a: Vec<Token> = toks.into_iter().map(|(t, _)| t).collect();
    let b: Vec<Token> = again.into_iter().map(|(t, _)| t).collect();
    assert_eq!(a, b);
}
