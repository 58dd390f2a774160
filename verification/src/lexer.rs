//! The lexer: turns raw source text into an ordered sequence of spanned
//! tokens. Whitespace separates tokens and never produces one; keyword
//! spellings take priority over the identifier rule; an unrecognized
//! character yields an error anchored to its position, after which lexing
//! resumes one position further on.

use vstd::prelude::*;
use crate::ast::Span;
use crate::parser::{ErrorKind, ParseError};

verus! {

/// A lexical token. Tokens carry no span by themselves; the lexer always
/// pairs a token with the span of the text it matched.
#[derive(Debug, Clone, PartialEq, Eq, Hash)]
pub enum Token {
    Register,
    Alias,
    Restricted,
    Empty,
    Colon,
    Num(String),
    Ident(String),
    RBrace,
    LBrace,
    Config,
    Var(String),
    Subtract,
    Add,
}

impl Token {
    /// The exact source text this token renders back to: keywords and
    /// punctuation from their fixed spellings, numbers, identifiers and
    /// variable references from their stored text.
    pub fn render(&self) -> (r: String)
        ensures
            r@ == token_text(*self),
    {
        match self {
            Token::Register => String::from_str("register"),
            Token::Alias => String::from_str("alias"),
            Token::Restricted => String::from_str("restricted"),
            Token::Config => String::from_str("config"),
            Token::Empty => String::from_str("_"),
            Token::Colon => String::from_str(":"),
            Token::LBrace => String::from_str("{"),
            Token::RBrace => String::from_str("}"),
            Token::Add => String::from_str("+"),
            Token::Subtract => String::from_str("-"),
            Token::Num(s) => s.clone(),
            Token::Ident(s) => s.clone(),
            Token::Var(s) => String::from_str("@").concat(s.as_str()),
        }
    }
}

pub open spec fn is_ws_char(c: char) -> bool {
    c == ' ' || c == '\n' || c == '\t' || c == '\r'
}

pub open spec fn is_digit_char(c: char) -> bool {
    '0' as u32 <= c as u32 && c as u32 <= '9' as u32
}

pub open spec fn is_ident_start_char(c: char) -> bool {
    ||| 'a' as u32 <= c as u32 && c as u32 <= 'z' as u32
    ||| 'A' as u32 <= c as u32 && c as u32 <= 'Z' as u32
    ||| c == '_'
}

pub open spec fn is_ident_char(c: char) -> bool {
    is_ident_start_char(c) || is_digit_char(c)
}

pub open spec fn all_digit_chars(s: Seq<char>) -> bool {
    forall|i: int| 0 <= i < s.len() ==> is_digit_char(#[trigger] s[i])
}

pub open spec fn all_ident_chars(s: Seq<char>) -> bool {
    forall|i: int| 0 <= i < s.len() ==> is_ident_char(#[trigger] s[i])
}

/// The spellings that are keywords rather than identifiers.
pub open spec fn is_keyword_text(s: Seq<char>) -> bool {
    s == "register"@ || s == "alias"@ || s == "restricted"@ || s == "config"@
}

/// The exact source text a token stands for.
pub open spec fn token_text(t: Token) -> Seq<char> {
    match t {
        Token::Register => "register"@,
        Token::Alias => "alias"@,
        Token::Restricted => "restricted"@,
        Token::Config => "config"@,
        Token::Empty => "_"@,
        Token::Colon => ":"@,
        Token::LBrace => "{"@,
        Token::RBrace => "}"@,
        Token::Add => "+"@,
        Token::Subtract => "-"@,
        Token::Num(s) => s@,
        Token::Ident(s) => s@,
        Token::Var(s) => "@"@ + s@,
    }
}

/// Structural well-formedness of a token's payload: a number is a nonempty
/// digit string, an identifier is identifier-shaped and is neither a keyword
/// nor the bare placeholder, and a variable name is identifier-shaped.
pub open spec fn token_wf(t: Token) -> bool {
    match t {
        Token::Num(s) => s@.len() > 0 && all_digit_chars(s@),
        Token::Ident(s) => {
            &&& s@.len() > 0
            &&& is_ident_start_char(s@[0])
            &&& all_ident_chars(s@)
            &&& !is_keyword_text(s@)
            &&& s@ != "_"@
        },
        Token::Var(s) => s@.len() > 0 && is_ident_start_char(s@[0]) && all_ident_chars(s@),
        _ => true,
    }
}

/// The token stands at its span: the span is a nonempty in-bounds range and
/// the source text it covers is exactly the token's text.
pub open spec fn token_at(src: Seq<char>, ts: (Token, Span)) -> bool {
    &&& ts.1.start < ts.1.end <= src.len()
    &&& src.subrange(ts.1.start as int, ts.1.end as int) == token_text(ts.0)
    &&& token_wf(ts.0)
}

/// Every token stands at its span and the spans run left to right without
/// overlap.
pub open spec fn tokens_wf(src: Seq<char>, toks: Seq<(Token, Span)>) -> bool {
    &&& forall|i: int| 0 <= i < toks.len() ==> token_at(src, #[trigger] toks[i])
    &&& forall|i: int|
        0 <= i < toks.len() - 1 ==> (#[trigger] toks[i].1.end) <= toks[i + 1].1.start
}

/// The concatenation of the token texts, in order.
pub open spec fn tokens_text(toks: Seq<(Token, Span)>) -> Seq<char>
    decreases toks.len(),
{
    if toks.len() == 0 {
        Seq::empty()
    } else {
        tokens_text(toks.drop_last()) + token_text(toks.last().0)
    }
}

/// The source text with its whitespace removed.
pub open spec fn strip_ws(s: Seq<char>) -> Seq<char>
    decreases s.len(),
{
    if s.len() == 0 {
        Seq::empty()
    } else if is_ws_char(s.last()) {
        strip_ws(s.drop_last())
    } else {
        strip_ws(s.drop_last()).push(s.last())
    }
}

/// A character at which some token or whitespace may start.
pub open spec fn is_lexable_start(c: char) -> bool {
    ||| is_ws_char(c)
    ||| c == '{'
    ||| c == '}'
    ||| c == ':'
    ||| c == '+'
    ||| c == '-'
    ||| c == '@'
    ||| is_digit_char(c)
    ||| is_ident_start_char(c)
}

/// A lexical error is genuine: it sits at a position that really cannot
/// start a token. An unexpected-character error points at a character no
/// rule accepts; a malformed variable reference points at a sigil that is
/// not followed by an identifier.
pub open spec fn genuine_lex_error(src: Seq<char>, e: ParseError) -> bool {
    &&& e.span.end == e.span.start + 1
    &&& e.span.end <= src.len()
    &&& e.secondary is None
    &&& match e.kind {
        ErrorKind::UnexpectedChar => !is_lexable_start(src[e.span.start as int]),
        ErrorKind::MissingVarName => {
            &&& src[e.span.start as int] == '@'
            &&& (e.span.end == src.len() || !is_ident_start_char(src[e.span.end as int]))
        },
        _ => false,
    }
}

/// The token cannot be extended to the right: the character just after
/// its span, when there is one, does not continue it. Together with
/// coverage and span order this pins the tokenization: an identifier or
/// number is never split, and a keyword spelling embedded in a longer
/// word stays one identifier.
pub open spec fn token_right_maximal(src: Seq<char>, ts: (Token, Span)) -> bool {
    ts.1.end < src.len() ==> match ts.0 {
        Token::Num(_) => !is_digit_char(src[ts.1.end as int]),
        Token::Ident(_) => !is_ident_char(src[ts.1.end as int]),
        Token::Var(_) => !is_ident_char(src[ts.1.end as int]),
        Token::Empty => !is_ident_char(src[ts.1.end as int]),
        Token::Register => !is_ident_char(src[ts.1.end as int]),
        Token::Alias => !is_ident_char(src[ts.1.end as int]),
        Token::Restricted => !is_ident_char(src[ts.1.end as int]),
        Token::Config => !is_ident_char(src[ts.1.end as int]),
        _ => true,
    }
}

pub open spec fn tokens_maximal(src: Seq<char>, toks: Seq<(Token, Span)>) -> bool {
    forall|i: int| 0 <= i < toks.len() ==> token_right_maximal(src, #[trigger] toks[i])
}

/// Everything `lex` establishes about its result: the tokens stand at
/// their spans in source order and cannot be extended to the right, every
/// error is genuine and the errors come in source order, the spans are
/// contiguous modulo whitespace, and an error-free run concatenates to
/// the source with its whitespace removed.
pub open spec fn lexing_of(
    src: Seq<char>,
    toks: Seq<(Token, Span)>,
    errs: Seq<ParseError>,
) -> bool {
    &&& tokens_wf(src, toks)
    &&& tokens_maximal(src, toks)
    &&& forall|j: int| 0 <= j < errs.len() ==> genuine_lex_error(src, #[trigger] errs[j])
    &&& forall|j: int| 0 <= j < errs.len() - 1 ==> (#[trigger] errs[j].span.start) <= errs[j + 1].span.start
    &&& lex_covered(src, toks, errs, src.len() as int)
    &&& (errs.len() == 0 ==> tokens_text(toks) == strip_ws(src))
}

/// A position is inside one of the token spans.
pub open spec fn covered_by_token(toks: Seq<(Token, Span)>, p: int) -> bool {
    exists|k: int| 0 <= k < toks.len() && (#[trigger] toks[k]).1.start <= p < toks[k].1.end
}

/// A position is inside one of the error spans.
pub open spec fn covered_by_err(errs: Seq<ParseError>, p: int) -> bool {
    exists|k: int| 0 <= k < errs.len() && (#[trigger] errs[k]).span.start <= p < errs[k].span.end
}

/// Up to `upto`, every non-whitespace position lies inside a token span or
/// an error span: the matched spans are contiguous modulo whitespace.
pub open spec fn lex_covered(
    src: Seq<char>,
    toks: Seq<(Token, Span)>,
    errs: Seq<ParseError>,
    upto: int,
) -> bool {
    forall|p: int|
        0 <= p < upto && !is_ws_char(#[trigger] src[p]) ==> covered_by_token(toks, p)
            || covered_by_err(errs, p)
}

/// Pushing a token whose span reaches from the covered prefix up to
/// `upto_new` extends the covered prefix.
proof fn lemma_cover_push_tok(
    src: Seq<char>,
    toks: Seq<(Token, Span)>,
    t: (Token, Span),
    errs: Seq<ParseError>,
    upto_old: int,
    upto_new: int,
)
    requires
        lex_covered(src, toks, errs, upto_old),
        t.1.start <= upto_old,
        upto_new <= t.1.end,
    ensures
        lex_covered(src, toks.push(t), errs, upto_new),
{
    assert forall|p: int|
        0 <= p < upto_new && !is_ws_char(#[trigger] src[p]) implies covered_by_token(
        toks.push(t),
        p,
    ) || covered_by_err(errs, p) by {
        if p < upto_old && (covered_by_token(toks, p) || covered_by_err(errs, p)) {
            if covered_by_token(toks, p) {
                let k = choose|k: int|
                    0 <= k < toks.len() && (#[trigger] toks[k]).1.start <= p < toks[k].1.end;
                assert(toks.push(t)[k] == toks[k]);
            }
        } else {
            assert(toks.push(t)[toks.len() as int] == t);
        }
    }
}

/// Pushing an error whose span reaches from the covered prefix up to
/// `upto_new` extends the covered prefix.
proof fn lemma_cover_push_err(
    src: Seq<char>,
    toks: Seq<(Token, Span)>,
    errs: Seq<ParseError>,
    e: ParseError,
    upto_old: int,
    upto_new: int,
)
    requires
        lex_covered(src, toks, errs, upto_old),
        e.span.start <= upto_old,
        upto_new <= e.span.end,
    ensures
        lex_covered(src, toks, errs.push(e), upto_new),
{
    assert forall|p: int|
        0 <= p < upto_new && !is_ws_char(#[trigger] src[p]) implies covered_by_token(toks, p)
            || covered_by_err(errs.push(e), p) by {
        if p < upto_old && (covered_by_token(toks, p) || covered_by_err(errs, p)) {
            if covered_by_err(errs, p) {
                let k = choose|k: int|
                    0 <= k < errs.len() && (#[trigger] errs[k]).span.start <= p < errs[k].span.end;
                assert(errs.push(e)[k] == errs[k]);
            }
        } else {
            assert(errs.push(e)[errs.len() as int] == e);
        }
    }
}

proof fn lemma_tokens_text_push(toks: Seq<(Token, Span)>, t: (Token, Span))
    ensures
        tokens_text(toks.push(t)) == tokens_text(toks) + token_text(t.0),
{
    assert(toks.push(t).drop_last() =~= toks);
    assert(toks.push(t).last() == t);
}

/// Dropping one whitespace character off the end leaves the stripped text
/// unchanged.
proof fn lemma_strip_ws_extend_ws(src: Seq<char>, i: int)
    requires
        0 <= i < src.len(),
        is_ws_char(src[i]),
    ensures
        strip_ws(src.subrange(0, i + 1)) == strip_ws(src.subrange(0, i)),
{
    assert(src.subrange(0, i + 1).drop_last() =~= src.subrange(0, i));
    assert(src.subrange(0, i + 1).last() == src[i]);
}

/// Extending the prefix by a whitespace-free stretch appends that stretch
/// to the stripped text.
proof fn lemma_strip_ws_extend(src: Seq<char>, i: int, j: int)
    requires
        0 <= i <= j <= src.len(),
        forall|p: int| i <= p < j ==> !is_ws_char(#[trigger] src[p]),
    ensures
        strip_ws(src.subrange(0, j)) == strip_ws(src.subrange(0, i)) + src.subrange(i, j),
    decreases j - i,
{
    if i == j {
        assert(src.subrange(i, j) =~= Seq::<char>::empty());
        assert(strip_ws(src.subrange(0, i)) + src.subrange(i, j) =~= strip_ws(
            src.subrange(0, i),
        ));
    } else {
        lemma_strip_ws_extend(src, i, j - 1);
        assert(src.subrange(0, j).drop_last() =~= src.subrange(0, j - 1));
        assert(src.subrange(0, j).last() == src[j - 1]);
        assert(!is_ws_char(src[j - 1]));
        assert(strip_ws(src.subrange(0, j)) == strip_ws(src.subrange(0, j - 1)).push(src[j - 1]));
        assert(strip_ws(src.subrange(0, i)) + src.subrange(i, j - 1) + seq![src[j - 1]] =~= strip_ws(
            src.subrange(0, i),
        ) + src.subrange(i, j));
        assert(strip_ws(src.subrange(0, j - 1)).push(src[j - 1]) =~= strip_ws(src.subrange(0, i))
            + src.subrange(i, j - 1) + seq![src[j - 1]]);
    }
}

/// The largest `end` such that every character of `[start, end)` is an
/// identifier character.
fn scan_ident_end(s: &str, start: usize) -> (end: usize)
    requires
        start <= s@.len(),
    ensures
        start <= end <= s@.len(),
        forall|p: int| start <= p < end ==> is_ident_char(#[trigger] s@[p]),
        end < s@.len() ==> !is_ident_char(s@[end as int]),
{
    let n = s.unicode_len();
    let mut end = start;
    while end < n
        invariant
            start <= end <= n,
            n == s@.len(),
            forall|p: int| start <= p < end ==> is_ident_char(#[trigger] s@[p]),
        decreases n - end,
    {
        let c = s.get_char(end);
        let u = c as u32;
        if ('a' as u32) <= u && u <= ('z' as u32) || ('A' as u32) <= u && u <= ('Z' as u32) || c
            == '_' || ('0' as u32) <= u && u <= ('9' as u32) {
            end = end + 1;
        } else {
            return end;
        }
    }
    end
}

/// The largest `end` such that every character of `[start, end)` is a
/// decimal digit.
fn scan_digits_end(s: &str, start: usize) -> (end: usize)
    requires
        start <= s@.len(),
    ensures
        start <= end <= s@.len(),
        forall|p: int| start <= p < end ==> is_digit_char(#[trigger] s@[p]),
        end < s@.len() ==> !is_digit_char(s@[end as int]),
{
    let n = s.unicode_len();
    let mut end = start;
    while end < n
        invariant
            start <= end <= n,
            n == s@.len(),
            forall|p: int| start <= p < end ==> is_digit_char(#[trigger] s@[p]),
        decreases n - end,
    {
        let c = s.get_char(end);
        let u = c as u32;
        if ('0' as u32) <= u && u <= ('9' as u32) {
            end = end + 1;
        } else {
            return end;
        }
    }
    end
}

/// Turns an identifier-shaped word into its token: the keyword spellings
/// win over the identifier rule, and the bare underscore is the
/// placeholder.
fn classify_word(text: String) -> (t: Token)
    requires
        text@.len() > 0,
        is_ident_start_char(text@[0]),
        all_ident_chars(text@),
    ensures
        token_wf(t),
        token_text(t) == text@,
{
    if text == String::from_str("register") {
        Token::Register
    } else if text == String::from_str("alias") {
        Token::Alias
    } else if text == String::from_str("restricted") {
        Token::Restricted
    } else if text == String::from_str("config") {
        Token::Config
    } else if text == String::from_str("_") {
        Token::Empty
    } else {
        Token::Ident(text)
    }
}

/// Lexes the full source text into spanned tokens, accumulating an error
/// for every position at which no rule matches and continuing one position
/// further on. The tokens stand at their spans in source order; every
/// error is genuine; and when there are no errors, the concatenated token
/// texts are exactly the source with its whitespace removed, and the spans
/// cover every non-whitespace position.
#[verifier::rlimit(60)]
pub fn lex(source: &String) -> (r: (Vec<(Token, Span)>, Vec<ParseError>))
    ensures
        lexing_of(source@, r.0@, r.1@),
{
    let s = source.as_str();
    let n = s.unicode_len();
    let mut toks: Vec<(Token, Span)> = Vec::new();
    let mut errs: Vec<ParseError> = Vec::new();
    let mut i: usize = 0;
    while i < n
        invariant
            n == source@.len(),
            s@ == source@,
            i <= n,
            tokens_wf(source@, toks@),
            tokens_maximal(source@, toks@),
            forall|k: int| 0 <= k < toks@.len() ==> (#[trigger] toks@[k]).1.end <= i,
            forall|j: int|
                0 <= j < errs@.len() ==> genuine_lex_error(source@, #[trigger] errs@[j])
                    && errs@[j].span.end <= i,
            forall|j: int|
                0 <= j < errs@.len() - 1 ==> (#[trigger] errs@[j].span.start) <= errs@[j
                    + 1].span.start,
            lex_covered(source@, toks@, errs@, i as int),
            errs@.len() == 0 ==> tokens_text(toks@) == strip_ws(source@.subrange(0, i as int)),
        decreases n - i,
    {
        let ghost toks0 = toks@;
        let ghost errs0 = errs@;
        let c = s.get_char(i);
        let u = c as u32;
        if c == ' ' || c == '\n' || c == '\t' || c == '\r' {
            proof {
                lemma_strip_ws_extend_ws(source@, i as int);
            }
            i = i + 1;
        } else if c == '{' {
            toks.push((Token::LBrace, Span::new(i, i + 1)));
            proof {
                reveal_strlit("{");
                assert(source@.subrange(i as int, i + 1 as int) =~= "{"@);
                lemma_tokens_text_push(toks0, toks@.last());
                lemma_strip_ws_extend(source@, i as int, i + 1 as int);
                lemma_cover_push_tok(source@, toks0, toks@.last(), errs@, i as int, i + 1 as int);
            }
            i = i + 1;
        } else if c == '}' {
            toks.push((Token::RBrace, Span::new(i, i + 1)));
            proof {
                reveal_strlit("}");
                assert(source@.subrange(i as int, i + 1 as int) =~= "}"@);
                lemma_tokens_text_push(toks0, toks@.last());
                lemma_strip_ws_extend(source@, i as int, i + 1 as int);
                lemma_cover_push_tok(source@, toks0, toks@.last(), errs@, i as int, i + 1 as int);
            }
            i = i + 1;
        } else if c == ':' {
            toks.push((Token::Colon, Span::new(i, i + 1)));
            proof {
                reveal_strlit(":");
                assert(source@.subrange(i as int, i + 1 as int) =~= ":"@);
                lemma_tokens_text_push(toks0, toks@.last());
                lemma_strip_ws_extend(source@, i as int, i + 1 as int);
                lemma_cover_push_tok(source@, toks0, toks@.last(), errs@, i as int, i + 1 as int);
            }
            i = i + 1;
        } else if c == '+' {
            toks.push((Token::Add, Span::new(i, i + 1)));
            proof {
                reveal_strlit("+");
                assert(source@.subrange(i as int, i + 1 as int) =~= "+"@);
                lemma_tokens_text_push(toks0, toks@.last());
                lemma_strip_ws_extend(source@, i as int, i + 1 as int);
                lemma_cover_push_tok(source@, toks0, toks@.last(), errs@, i as int, i + 1 as int);
            }
            i = i + 1;
        } else if c == '-' {
            toks.push((Token::Subtract, Span::new(i, i + 1)));
            proof {
                reveal_strlit("-");
                assert(source@.subrange(i as int, i + 1 as int) =~= "-"@);
                lemma_tokens_text_push(toks0, toks@.last());
                lemma_strip_ws_extend(source@, i as int, i + 1 as int);
                lemma_cover_push_tok(source@, toks0, toks@.last(), errs@, i as int, i + 1 as int);
            }
            i = i + 1;
        } else if ('0' as u32) <= u && u <= ('9' as u32) {
            let end = scan_digits_end(s, i);
            assert(end > i);
            let text = s.substring_char(i, end).to_owned();
            toks.push((Token::Num(text), Span::new(i, end)));
            proof {
                lemma_tokens_text_push(toks0, toks@.last());
                lemma_strip_ws_extend(source@, i as int, end as int);
                lemma_cover_push_tok(source@, toks0, toks@.last(), errs@, i as int, end as int);
            }
            i = end;
        } else if ('a' as u32) <= u && u <= ('z' as u32) || ('A' as u32) <= u && u <= ('Z' as u32)
            || c == '_' {
            let end = scan_ident_end(s, i);
            assert(end > i);
            let text = s.substring_char(i, end).to_owned();
            let tok = classify_word(text);
            toks.push((tok, Span::new(i, end)));
            proof {
                lemma_tokens_text_push(toks0, toks@.last());
                lemma_strip_ws_extend(source@, i as int, end as int);
                lemma_cover_push_tok(source@, toks0, toks@.last(), errs@, i as int, end as int);
            }
            i = end;
        } else if c == '@' {
            let has_name = i + 1 < n && {
                let c2 = s.get_char(i + 1);
                let u2 = c2 as u32;
                ('a' as u32) <= u2 && u2 <= ('z' as u32) || ('A' as u32) <= u2 && u2 <= (
                'Z' as u32) || c2 == '_'
            };
            if has_name {
                let end = scan_ident_end(s, i + 1);
                assert(end > i + 1);
                let name = s.substring_char(i + 1, end).to_owned();
                toks.push((Token::Var(name), Span::new(i, end)));
                proof {
                    reveal_strlit("@");
                    assert(source@.subrange(i as int, end as int) =~= "@"@ + source@.subrange(
                        i + 1 as int,
                        end as int,
                    ));
                    lemma_tokens_text_push(toks0, toks@.last());
                    lemma_strip_ws_extend(source@, i as int, end as int);
                lemma_cover_push_tok(source@, toks0, toks@.last(), errs@, i as int, end as int);
                }
                i = end;
            } else {
                errs.push(
                    ParseError::new(
                        ErrorKind::MissingVarName,
                        Span::new(i, i + 1),
                        String::from_str("expected an identifier after the variable sigil"),
                    ),
                );
                proof {
                    lemma_cover_push_err(source@, toks@, errs0, errs@.last(), i as int, i + 1 as int);
                }
                i = i + 1;
            }
        } else {
            errs.push(
                ParseError::new(
                    ErrorKind::UnexpectedChar,
                    Span::new(i, i + 1),
                    String::from_str("unexpected character"),
                ),
            );
            proof {
                lemma_cover_push_err(source@, toks@, errs0, errs@.last(), i as int, i + 1 as int);
            }
            i = i + 1;
        }
    }
    assert(source@.subrange(0, i as int) =~= source@);
    (toks, errs)
}

} // verus!
