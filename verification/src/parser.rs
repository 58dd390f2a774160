//! The parsers and their error model. Errors are accumulated, never thrown
//! at the first failure: the declaration parser resynchronizes at the next
//! top-level keyword so one run can report every independent problem.

use vstd::prelude::*;
use crate::ast::{BinaryOp, ConfigValue, Decl, Expr, ExprX, FieldValue, Register, Span, Spanned};
use crate::lexer::{all_digit_chars, is_digit_char, token_at, token_text, tokens_wf, Token};
use std::sync::Arc;

verus! {

/// The distinct kinds of diagnostic this front end produces.
#[derive(Debug, Clone, Copy, PartialEq, Eq, Structural)]
pub enum ErrorKind {
    /// A character no lexical rule accepts.
    UnexpectedChar,
    /// A variable sigil not followed by an identifier.
    MissingVarName,
    /// A token other than the ones the grammar accepts here.
    UnexpectedToken,
    /// The input ended where more tokens were required.
    UnexpectedEnd,
    /// An opening brace whose block never closes.
    UnclosedBrace,
    /// A numeric literal exceeding the unsigned 32-bit range.
    Overflow,
    /// A register field value that is not a numeric literal or placeholder.
    ExpectedLiteral,
    /// A top-level entry name declared twice.
    DuplicateName,
    /// A configuration key declared twice.
    DuplicateKey,
}

/// A diagnostic: its kind, the primary span it is anchored to, a message,
/// and optionally a secondary labelled span (for instance the opening brace
/// an unterminated block points back at).
#[derive(Debug, Clone)]
pub struct ParseError {
    pub kind: ErrorKind,
    pub span: Span,
    pub message: String,
    pub secondary: Option<(Span, String)>,
}

impl ParseError {
    /// The error's spans index validly into a text of length `n`.
    pub open spec fn span_wf(self, n: nat) -> bool {
        &&& self.span.wf(n)
        &&& match self.secondary {
            Some(sec) => sec.0.wf(n),
            None => true,
        }
    }

    pub fn new(kind: ErrorKind, span: Span, message: String) -> (r: ParseError)
        ensures
            r.kind == kind,
            r.span == span,
            r.message == message,
            r.secondary is None,
    {
        ParseError { kind, span, message, secondary: None }
    }

    pub fn with_secondary(kind: ErrorKind, span: Span, message: String, sec_span: Span, sec_message: String) -> (r: ParseError)
        ensures
            r.kind == kind,
            r.span == span,
            r.message == message,
            r.secondary == Some::<(Span, String)>((sec_span, sec_message)),
    {
        ParseError { kind, span, message, secondary: Some((sec_span, sec_message)) }
    }
}

/// The unsigned value a digit string denotes.
pub open spec fn digits_val(s: Seq<char>) -> int
    decreases s.len(),
{
    if s.len() == 0 {
        0
    } else {
        digits_val(s.drop_last()) * 10 + (s.last() as u32 - '0' as u32)
    }
}

proof fn lemma_digits_val_nonneg(s: Seq<char>)
    requires
        all_digit_chars(s),
    ensures
        digits_val(s) >= 0,
    decreases s.len(),
{
    if s.len() > 0 {
        assert(all_digit_chars(s.drop_last())) by {
            assert(forall|i: int|
                0 <= i < s.len() - 1 ==> s.drop_last()[i] == #[trigger] s[i]);
        }
        lemma_digits_val_nonneg(s.drop_last());
        assert(is_digit_char(s.last()));
    }
}

proof fn lemma_digits_val_prefix(s: Seq<char>, i: int)
    requires
        all_digit_chars(s),
        0 <= i <= s.len(),
    ensures
        digits_val(s) >= digits_val(s.subrange(0, i)),
    decreases s.len() - i,
{
    if i == s.len() {
        assert(s.subrange(0, i) =~= s);
    } else {
        lemma_digits_val_prefix(s, i + 1);
        assert(s.subrange(0, i + 1).drop_last() =~= s.subrange(0, i));
        assert(s.subrange(0, i + 1).last() == s[i]);
        assert(all_digit_chars(s.subrange(0, i))) by {
            assert(forall|p: int|
                0 <= p < i ==> s.subrange(0, i)[p] == #[trigger] s[p]);
        }
        lemma_digits_val_nonneg(s.subrange(0, i));
        assert(is_digit_char(s[i]));
        assert(digits_val(s.subrange(0, i + 1)) >= digits_val(s.subrange(0, i)));
    }
}

/// Parses a digit string into an unsigned 32-bit integer; reports overflow
/// instead of wrapping.
pub fn parse_u32(s: &String) -> (r: Option<u32>)
    requires
        s@.len() > 0,
        all_digit_chars(s@),
    ensures
        match r {
            Some(v) => digits_val(s@) == v as int,
            None => digits_val(s@) > u32::MAX,
        },
{
    let st = s.as_str();
    let n = st.unicode_len();
    let mut acc: u64 = 0;
    let mut i: usize = 0;
    while i < n
        invariant
            n == s@.len(),
            st@ == s@,
            i <= n,
            all_digit_chars(s@),
            acc as int == digits_val(s@.subrange(0, i as int)),
            acc <= u32::MAX,
        decreases n - i,
    {
        let c = st.get_char(i);
        assert(is_digit_char(s@[i as int]));
        let d = (c as u32) - ('0' as u32);
        acc = acc * 10 + (d as u64);
        proof {
            assert(s@.subrange(0, i + 1).drop_last() =~= s@.subrange(0, i as int));
            assert(s@.subrange(0, i + 1).last() == s@[i as int]);
        }
        i = i + 1;
        if acc > (u32::MAX as u64) {
            proof {
                lemma_digits_val_prefix(s@, i as int);
            }
            return None;
        }
    }
    proof {
        assert(s@.subrange(0, n as int) =~= s@);
    }
    Some(acc as u32)
}

/// An operator token.
pub open spec fn is_op_tok(t: Token) -> bool {
    t == Token::Add || t == Token::Subtract
}

/// The token an operator renders back to.
pub open spec fn op_tok_of(op: BinaryOp) -> Token {
    match op {
        BinaryOp::Add => Token::Add,
        BinaryOp::Subtract => Token::Subtract,
    }
}

/// A token at which a primary expression parses: a numeric literal within
/// the 32-bit range, or a variable reference.
pub open spec fn primary_ok(t: Token) -> bool {
    match t {
        Token::Num(s) => digits_val(s@) <= u32::MAX,
        Token::Var(_) => true,
        _ => false,
    }
}

pub open spec fn is_num_tok(t: Token) -> bool {
    match t {
        Token::Num(_) => true,
        _ => false,
    }
}

/// Where the left-associative operator chain that begins at `i` ends, if
/// it parses: while an operator follows, a primary must follow it.
pub open spec fn chain_end(ts: Seq<(Token, Span)>, i: int) -> Option<int>
    decreases ts.len() - i,
    when 0 <= i <= ts.len()
{
    if i < ts.len() && is_op_tok(ts[i].0) {
        if i + 1 < ts.len() && primary_ok(ts[i + 1].0) {
            chain_end(ts, i + 2)
        } else {
            None
        }
    } else {
        Some(i)
    }
}

/// Where the expression that begins at `i` ends, if one parses there: a
/// primary followed by the longest chain of operator-and-primary pairs.
pub open spec fn expr_end_from(ts: Seq<(Token, Span)>, i: int) -> Option<int> {
    if 0 <= i < ts.len() && primary_ok(ts[i].0) {
        chain_end(ts, i + 1)
    } else {
        None
    }
}

/// How the primary expected at `i` fails, if it does: the end of the
/// input where more tokens were required, an overflowing numeric literal
/// anchored at the literal's span, or an unexpected token at its own span.
pub open spec fn primary_failure(src: Seq<char>, ts: Seq<(Token, Span)>, i: int) -> Option<
    (ErrorKind, Span),
> {
    if !(0 <= i < ts.len()) {
        Some(
            (
                ErrorKind::UnexpectedEnd,
                (Span { start: src.len() as usize, end: src.len() as usize }),
            ),
        )
    } else if is_num_tok(ts[i].0) && !primary_ok(ts[i].0) {
        Some((ErrorKind::Overflow, ts[i].1))
    } else if !primary_ok(ts[i].0) {
        Some((ErrorKind::UnexpectedToken, ts[i].1))
    } else {
        None
    }
}

/// How the operator chain continuing at `i` fails, if it does: the first
/// operator not followed by a sound primary decides, exactly as
/// `primary_failure` says.
pub open spec fn chain_failure(src: Seq<char>, ts: Seq<(Token, Span)>, i: int) -> Option<
    (ErrorKind, Span),
>
    decreases ts.len() - i,
    when 0 <= i <= ts.len()
{
    if i < ts.len() && is_op_tok(ts[i].0) {
        if i + 1 < ts.len() && primary_ok(ts[i + 1].0) {
            chain_failure(src, ts, i + 2)
        } else {
            primary_failure(src, ts, i + 1)
        }
    } else {
        None
    }
}

/// How the expression that begins at `i` fails, if it does: it fails
/// exactly when it has no end, and the first unsatisfiable primary
/// position decides the kind and span of the report.
pub open spec fn expr_failure(src: Seq<char>, ts: Seq<(Token, Span)>, i: int) -> Option<
    (ErrorKind, Span),
> {
    if primary_failure(src, ts, i) is Some {
        primary_failure(src, ts, i)
    } else {
        chain_failure(src, ts, i + 1)
    }
}

/// Well-formedness of a parsed expression tree against the source: every
/// node's span reproduces exactly the text that generated it. A numeric
/// node's span slice parses back to its value; a variable node's slice is
/// the sigil followed by its name; a binary node's span is the union of its
/// operands' spans, which sit in source order.
pub open spec fn expr_wf(src: Seq<char>, e: Spanned<Expr>) -> bool
    decreases e,
{
    &&& e.source@ == src
    &&& e.span.wf(src.len())
    &&& match *e.x {
        ExprX::Num(v) => e.slice().len() > 0 && all_digit_chars(e.slice()) && digits_val(e.slice())
            == v as int,
        ExprX::Var(name) => e.slice() == "@"@ + name@,
        ExprX::Binary(op, l, r) => {
            &&& expr_wf(src, l)
            &&& expr_wf(src, r)
            &&& e.span.start == l.span.start
            &&& e.span.end == r.span.end
            &&& l.span.end <= r.span.start
        },
    }
}

pub open spec fn is_leaf(e: Spanned<Expr>) -> bool {
    match *e.x {
        ExprX::Binary(_, _, _) => false,
        _ => true,
    }
}

pub open spec fn expr_is_num(e: Spanned<Expr>) -> bool {
    match *e.x {
        ExprX::Num(_) => true,
        _ => false,
    }
}

/// The expression tree chains to the left: every binary node's right
/// operand is a primary, so `a - b - c` reads `(a - b) - c`.
pub open spec fn left_spine(e: Spanned<Expr>) -> bool
    decreases e,
{
    match *e.x {
        ExprX::Binary(_, l, r) => left_spine(l) && is_leaf(r),
        _ => true,
    }
}

/// The texts of the tokens an expression tree renders back to, in order:
/// leaves from their span slices, operators from their fixed spellings.
pub open spec fn expr_text_toks(e: Spanned<Expr>) -> Seq<Seq<char>>
    decreases e,
{
    match *e.x {
        ExprX::Num(_) => seq![e.slice()],
        ExprX::Var(name) => seq!["@"@ + name@],
        ExprX::Binary(op, l, r) => expr_text_toks(l) + seq![token_text(op_tok_of(op))]
            + expr_text_toks(r),
    }
}

/// The texts of a stretch of tokens, in order.
pub open spec fn toks_texts(ts: Seq<(Token, Span)>) -> Seq<Seq<char>>
    decreases ts.len(),
{
    if ts.len() == 0 {
        Seq::empty()
    } else {
        toks_texts(ts.drop_last()).push(token_text(ts.last().0))
    }
}

/// Parses the primary expression at `i`: a numeric literal (parsed to a
/// 32-bit value here, with overflow a reported error, never a wraparound)
/// or a variable reference.
fn parse_primary(source: &String, toks: &Vec<(Token, Span)>, i: usize) -> (r: Result<
    Spanned<Expr>,
    ParseError,
>)
    requires
        tokens_wf(source@, toks@),
        i <= toks@.len(),
    ensures
        match r {
            Ok(e) => {
                &&& i < toks@.len() && primary_ok(toks@[i as int].0)
                &&& expr_wf(source@, e)
                &&& is_leaf(e)
                &&& e.span == toks@[i as int].1
                &&& expr_text_toks(e) == seq![token_text(toks@[i as int].0)]
                &&& (expr_is_num(e) <==> is_num_tok(toks@[i as int].0))
            },
            Err(pe) => {
                &&& primary_failure(source@, toks@, i as int) == Some((pe.kind, pe.span))
                &&& pe.span_wf(source@.len())
                &&& (pe.kind == ErrorKind::UnexpectedEnd || pe.kind == ErrorKind::UnexpectedToken
                    || pe.kind == ErrorKind::Overflow)
            },
        },
{
    if i >= toks.len() {
        let n = source.as_str().unicode_len();
        return Err(
            ParseError::new(
                ErrorKind::UnexpectedEnd,
                Span::new(n, n),
                String::from_str("expected an expression, found the end of the input"),
            ),
        );
    }
    let t = &toks[i];
    assert(token_at(source@, toks@[i as int]));
    match &t.0 {
        Token::Num(s) => {
            let sc = s.clone();
            match parse_u32(&sc) {
                Some(v) => {
                    let e = Spanned::new(source, Arc::new(ExprX::Num(v)), t.1);
                    assert(e.slice() == token_text(toks@[i as int].0));
                    Ok(e)
                },
                None => Err(
                    ParseError::new(
                        ErrorKind::Overflow,
                        t.1,
                        String::from_str("numeric literal exceeds the unsigned 32-bit range"),
                    ),
                ),
            }
        },
        Token::Var(s) => {
            let e = Spanned::new(source, Arc::new(ExprX::Var(s.clone())), t.1);
            assert(e.slice() == token_text(toks@[i as int].0));
            Ok(e)
        },
        _ => Err(
            ParseError::new(
                ErrorKind::UnexpectedToken,
                t.1,
                String::from_str("expected a number or a variable"),
            ),
        ),
    }
}

/// Parses the expression that begins at `start`: a primary, then, while an
/// operator token follows, another primary, folding to the left. Succeeds
/// exactly when `expr_end_from` gives an end; the tree then renders back to
/// precisely the tokens consumed.
pub fn parse_expr(source: &String, toks: &Vec<(Token, Span)>, start: usize) -> (r: Result<
    (Spanned<Expr>, usize),
    ParseError,
>)
    requires
        tokens_wf(source@, toks@),
        start <= toks@.len(),
    ensures
        match r {
            Ok((e, end)) => {
                &&& expr_end_from(toks@, start as int) == Some(end as int)
                &&& start < end <= toks@.len()
                &&& expr_wf(source@, e)
                &&& left_spine(e)
                &&& expr_text_toks(e) == toks_texts(toks@.subrange(start as int, end as int))
                &&& e.span.start == toks@[start as int].1.start
                &&& e.span.end == toks@[end - 1].1.end
                &&& (expr_is_num(e) <==> (end == start + 1 && is_num_tok(toks@[start as int].0)))
            },
            Err(pe) => {
                &&& expr_end_from(toks@, start as int) is None
                &&& expr_failure(source@, toks@, start as int) == Some((pe.kind, pe.span))
                &&& (start < toks@.len() ==> pe.span.start >= toks@[start as int].1.start
                    || pe.span.start == source@.len() as usize)
                &&& pe.span_wf(source@.len())
                &&& (pe.kind == ErrorKind::UnexpectedEnd || pe.kind == ErrorKind::UnexpectedToken
                    || pe.kind == ErrorKind::Overflow)
            },
        },
{
    let first = match parse_primary(source, toks, start) {
        Ok(e) => e,
        Err(pe) => {
            proof {
                assert(primary_failure(source@, toks@, start as int) == Some((pe.kind, pe.span)));
                assert(expr_failure(source@, toks@, start as int) == Some((pe.kind, pe.span)));
                assert(expr_end_from(toks@, start as int) is None);
                assert(start < toks@.len() ==> pe.span.start >= toks@[start as int].1.start
                    || pe.span.start == source@.len() as usize);
            }
            return Err(pe);
        },
    };
    let len = toks.len();
    assert(start < len);
    let mut e = first;
    let mut pos: usize = start + 1;
    proof {
        let sub = toks@.subrange(start as int, pos as int);
        assert(sub.len() == 1);
        assert(sub.drop_last() =~= Seq::<(Token, Span)>::empty());
        assert(sub.last() == toks@[start as int]);
        assert(toks_texts(Seq::<(Token, Span)>::empty()) =~~= Seq::<Seq<char>>::empty());
        assert(toks_texts(sub) =~~= seq![token_text(toks@[start as int].0)]);
        assert(expr_text_toks(e) =~~= toks_texts(sub));
    }
    while pos < toks.len()
        invariant
            tokens_wf(source@, toks@),
            start < pos <= toks@.len(),
            expr_wf(source@, e),
            left_spine(e),
            expr_text_toks(e) == toks_texts(toks@.subrange(start as int, pos as int)),
            e.span.start == toks@[start as int].1.start,
            e.span.end == toks@[pos - 1].1.end,
            chain_end(toks@, pos as int) == expr_end_from(toks@, start as int),
            chain_failure(source@, toks@, pos as int) == expr_failure(
                source@,
                toks@,
                start as int,
            ),
            expr_is_num(e) <==> (pos == start + 1 && is_num_tok(toks@[start as int].0)),
        decreases toks@.len() - pos,
    {
        let opt_op: Option<BinaryOp> = match &toks[pos].0 {
            Token::Add => Some(BinaryOp::Add),
            Token::Subtract => Some(BinaryOp::Subtract),
            _ => None,
        };
        match opt_op {
            None => {
                assert(chain_end(toks@, pos as int) == Some(pos as int));
                return Ok((e, pos));
            },
            Some(op) => {
                let rhs = match parse_primary(source, toks, pos + 1) {
                    Ok(r) => r,
                    Err(pe) => {
                        proof {
                            assert(chain_end(toks@, pos as int) is None);
                            assert(chain_failure(source@, toks@, pos as int) == primary_failure(
                                source@,
                                toks@,
                                pos + 1,
                            ));
                            assert(token_at(source@, toks@[start as int]));
                            if pos + 1 < toks@.len() {
                                lemma_tokens_ordered(source@, toks@, start as int, pos + 1);
                                assert(token_at(source@, toks@[pos + 1]));
                            }
                        }
                        return Err(pe);
                    },
                };
                let ghost e0 = e;
                let sp = Span::new(e.span.start, rhs.span.end);
                let ghost rhs0 = rhs;
                e = Spanned::new(source, Arc::new(ExprX::Binary(op, e, rhs)), sp);
                proof {
                    assert(token_at(source@, toks@[pos as int]));
                    assert(token_at(source@, toks@[pos + 1]));
                    assert(toks@[pos - 1].1.end <= toks@[pos as int].1.start);
                    assert(toks@[pos as int].1.end <= toks@[pos + 1].1.start);
                    let sub2 = toks@.subrange(start as int, pos + 2);
                    let sub1 = toks@.subrange(start as int, pos + 1);
                    let sub0 = toks@.subrange(start as int, pos as int);
                    assert(sub2.drop_last() =~= sub1);
                    assert(sub1.drop_last() =~= sub0);
                    assert(sub2.last() == toks@[pos + 1]);
                    assert(sub1.last() == toks@[pos as int]);
                    assert(toks_texts(sub1) =~~= toks_texts(sub0).push(
                        token_text(toks@[pos as int].0),
                    ));
                    assert(toks_texts(sub2) =~~= toks_texts(sub1).push(token_text(toks@[pos + 1].0)));
                    assert(token_text(op_tok_of(op)) == token_text(toks@[pos as int].0));
                    assert(expr_text_toks(e) =~~= expr_text_toks(e0) + seq![
                        token_text(op_tok_of(op)),
                    ] + expr_text_toks(rhs0));
                    assert(expr_text_toks(e) =~~= toks_texts(sub2));
                }
                pos = pos + 2;
            },
        }
    }
    assert(chain_end(toks@, pos as int) == Some(pos as int));
    Ok((e, pos))
}

/// A spanned string node is faithful: its span slice is exactly its text.
pub open spec fn spanned_str_wf(src: Seq<char>, s: Spanned<String>) -> bool {
    &&& s.source@ == src
    &&& s.span.wf(src.len())
    &&& s.slice() == s.x@
}

/// A configuration value node is faithful to the source at its span.
pub open spec fn config_value_wf(src: Seq<char>, v: ConfigValue) -> bool {
    match v {
        ConfigValue::Placeholder(sp) => sp.wf(src.len()) && src.subrange(
            sp.start as int,
            sp.end as int,
        ) == "_"@,
        ConfigValue::Word(w) => spanned_str_wf(src, w),
        ConfigValue::Expression(e) => expr_wf(src, e) && left_spine(e),
    }
}

/// A register field value node is faithful: the placeholder's slice is the
/// underscore, and a numeric value's slice parses back to the value.
pub open spec fn field_value_wf(src: Seq<char>, v: Spanned<FieldValue>) -> bool {
    &&& v.source@ == src
    &&& v.span.wf(src.len())
    &&& match v.x {
        FieldValue::Placeholder => v.slice() == "_"@,
        FieldValue::Num(n) => v.slice().len() > 0 && all_digit_chars(v.slice()) && digits_val(
            v.slice(),
        ) == n as int,
    }
}

pub open spec fn register_wf(src: Seq<char>, r: Spanned<Register>) -> bool {
    &&& r.source@ == src
    &&& r.span.wf(src.len())
    &&& spanned_str_wf(src, r.x.name)
    &&& forall|k: int|
        0 <= k < r.x.mappings@.len() ==> spanned_str_wf(src, (#[trigger] r.x.mappings@[k]).0)
            && field_value_wf(src, r.x.mappings@[k].1)
}

/// A declaration's nodes are all faithful to the source at their spans.
pub open spec fn decl_wf(src: Seq<char>, d: Decl) -> bool {
    match d {
        Decl::ConfigBlock(c) => {
            &&& c.source@ == src
            &&& c.span.wf(src.len())
            &&& forall|k: int|
                0 <= k < c.x@.len() ==> spanned_str_wf(src, (#[trigger] c.x@[k]).0)
                    && config_value_wf(src, c.x@[k].1)
        },
        Decl::RegisterBlock(r) => register_wf(src, r),
        Decl::AliasDecl(n, t) => spanned_str_wf(src, n) && spanned_str_wf(src, t),
        Decl::RestrictedDecl(n, t, rs) => spanned_str_wf(src, n) && spanned_str_wf(src, t)
            && spanned_str_wf(src, rs),
    }
}

pub open spec fn decls_wf(src: Seq<char>, ds: Seq<Decl>) -> bool {
    forall|k: int| 0 <= k < ds.len() ==> decl_wf(src, #[trigger] ds[k])
}

/// The token texts a configuration value renders back to.
pub open spec fn config_value_texts(v: ConfigValue) -> Seq<Seq<char>> {
    match v {
        ConfigValue::Placeholder(_) => seq!["_"@],
        ConfigValue::Word(w) => seq![w.x@],
        ConfigValue::Expression(e) => expr_text_toks(e),
    }
}

pub open spec fn config_entries_texts(es: Seq<(Spanned<String>, ConfigValue)>) -> Seq<Seq<char>>
    decreases es.len(),
{
    if es.len() == 0 {
        Seq::empty()
    } else {
        config_entries_texts(es.drop_last()) + seq![es.last().0.x@, ":"@] + config_value_texts(
            es.last().1,
        )
    }
}

pub open spec fn field_value_texts(v: Spanned<FieldValue>) -> Seq<Seq<char>> {
    match v.x {
        FieldValue::Placeholder => seq!["_"@],
        FieldValue::Num(_) => seq![v.slice()],
    }
}

pub open spec fn reg_entries_texts(es: Seq<(Spanned<String>, Spanned<FieldValue>)>) -> Seq<
    Seq<char>,
>
    decreases es.len(),
{
    if es.len() == 0 {
        Seq::empty()
    } else {
        reg_entries_texts(es.drop_last()) + seq![es.last().0.x@, ":"@] + field_value_texts(
            es.last().1,
        )
    }
}

/// The token texts a declaration renders back to, in order: keywords and
/// punctuation from their fixed spellings, names and literals from the
/// parsed nodes.
pub open spec fn decl_texts(d: Decl) -> Seq<Seq<char>> {
    match d {
        Decl::ConfigBlock(c) => seq!["config"@, "{"@] + config_entries_texts(c.x@) + seq!["}"@],
        Decl::RegisterBlock(r) => seq!["register"@, r.x.name.x@, "{"@] + reg_entries_texts(
            r.x.mappings@,
        ) + seq!["}"@],
        Decl::AliasDecl(n, t) => seq!["alias"@, n.x@, ":"@, t.x@],
        Decl::RestrictedDecl(n, t, rs) => seq![
            "restricted"@,
            "alias"@,
            n.x@,
            ":"@,
            t.x@,
            ":"@,
            rs.x@,
        ],
    }
}

pub open spec fn decls_texts(ds: Seq<Decl>) -> Seq<Seq<char>>
    decreases ds.len(),
{
    if ds.len() == 0 {
        Seq::empty()
    } else {
        decls_texts(ds.drop_last()) + decl_texts(ds.last())
    }
}

pub open spec fn is_ident_tok(t: Token) -> bool {
    match t {
        Token::Ident(_) => true,
        _ => false,
    }
}

/// A keyword that may begin a top-level declaration; the parser
/// resynchronizes at these after an error.
pub open spec fn is_top_kw(t: Token) -> bool {
    t == Token::Register || t == Token::Alias || t == Token::Restricted || t == Token::Config
}

/// Where a register block's body, entered just past its opening brace,
/// ends, if it parses: field entries `name : value` until the closing
/// brace, each value a placeholder or a plain numeric literal.
pub open spec fn reg_body_end(ts: Seq<(Token, Span)>, i: int) -> Option<int>
    decreases ts.len() - i,
    when 0 <= i <= ts.len()
{
    if i >= ts.len() {
        None
    } else if ts[i].0 == Token::RBrace {
        Some(i + 1)
    } else if is_ident_tok(ts[i].0) && i + 1 < ts.len() && ts[i + 1].0 == Token::Colon {
        if i + 2 < ts.len() && ts[i + 2].0 == Token::Empty {
            reg_body_end(ts, i + 3)
        } else if i + 2 < ts.len() && is_num_tok(ts[i + 2].0) && expr_end_from(ts, i + 2) == Some(
            i + 3,
        ) {
            reg_body_end(ts, i + 3)
        } else {
            None
        }
    } else {
        None
    }
}

/// Where a configuration value beginning at `i` ends, if one parses there:
/// the placeholder, a bare word, or an expression.
pub open spec fn cfg_value_end(ts: Seq<(Token, Span)>, i: int) -> Option<int> {
    if 0 <= i < ts.len() && (ts[i].0 == Token::Empty || is_ident_tok(ts[i].0)) {
        Some(i + 1)
    } else {
        expr_end_from(ts, i)
    }
}

/// Where a configuration block's body, entered just past its opening
/// brace, ends, if it parses.
pub open spec fn cfg_body_end(ts: Seq<(Token, Span)>, i: int) -> Option<int>
    decreases ts.len() - i,
    when 0 <= i <= ts.len()
{
    if i >= ts.len() {
        None
    } else if ts[i].0 == Token::RBrace {
        Some(i + 1)
    } else if is_ident_tok(ts[i].0) && i + 1 < ts.len() && ts[i + 1].0 == Token::Colon {
        match cfg_value_end(ts, i + 2) {
            Some(j) => if i + 2 < j <= ts.len() {
                cfg_body_end(ts, j)
            } else {
                None
            },
            None => None,
        }
    } else {
        None
    }
}

/// Where the declaration beginning at `i` ends, if one parses there,
/// dispatching on its leading keyword.
pub open spec fn decl_end_from(ts: Seq<(Token, Span)>, i: int) -> Option<int> {
    if !(0 <= i < ts.len()) {
        None
    } else if ts[i].0 == Token::Alias {
        if i + 3 < ts.len() && is_ident_tok(ts[i + 1].0) && ts[i + 2].0 == Token::Colon
            && is_ident_tok(ts[i + 3].0) {
            Some(i + 4)
        } else {
            None
        }
    } else if ts[i].0 == Token::Restricted {
        if i + 6 < ts.len() && ts[i + 1].0 == Token::Alias && is_ident_tok(ts[i + 2].0) && ts[i
            + 3].0 == Token::Colon && is_ident_tok(ts[i + 4].0) && ts[i + 5].0 == Token::Colon
            && is_ident_tok(ts[i + 6].0) {
            Some(i + 7)
        } else {
            None
        }
    } else if ts[i].0 == Token::Register {
        if i + 2 < ts.len() && is_ident_tok(ts[i + 1].0) && ts[i + 2].0 == Token::LBrace {
            reg_body_end(ts, i + 3)
        } else {
            None
        }
    } else if ts[i].0 == Token::Config {
        if i + 1 < ts.len() && ts[i + 1].0 == Token::LBrace {
            cfg_body_end(ts, i + 2)
        } else {
            None
        }
    } else {
        None
    }
}

/// The first position at or after `i` at which a top-level declaration
/// keyword stands, or the end of the stream: where the parser
/// resynchronizes after an error.
pub open spec fn next_sync(ts: Seq<(Token, Span)>, i: int) -> int
    decreases ts.len() - i,
    when 0 <= i <= ts.len()
{
    if i >= ts.len() {
        i
    } else if is_top_kw(ts[i].0) {
        i
    } else {
        next_sync(ts, i + 1)
    }
}

proof fn lemma_next_sync_bounds(ts: Seq<(Token, Span)>, i: int)
    requires
        0 <= i <= ts.len(),
    ensures
        i <= next_sync(ts, i) <= ts.len(),
    decreases ts.len() - i,
{
    if i < ts.len() && !is_top_kw(ts[i].0) {
        lemma_next_sync_bounds(ts, i + 1);
    }
}

/// The starting positions of the declaration regions that fail, walking
/// the stream by the parser's own rule: a sound declaration is stepped
/// over, a failing one contributes its start, and the walk resumes at the
/// next top-level keyword after it.
pub open spec fn error_regions(ts: Seq<(Token, Span)>, i: int) -> Seq<int>
    decreases ts.len() - i,
    when 0 <= i <= ts.len()
    via error_regions_dec
{
    if i >= ts.len() {
        Seq::empty()
    } else {
        match decl_end_from(ts, i) {
            Some(j) => if i < j <= ts.len() {
                error_regions(ts, j)
            } else {
                Seq::empty()
            },
            None => seq![i] + error_regions(ts, next_sync(ts, i + 1)),
        }
    }
}

#[via_fn]
proof fn error_regions_dec(ts: Seq<(Token, Span)>, i: int) {
    if 0 <= i < ts.len() {
        lemma_next_sync_bounds(ts, i + 1);
    }
}

/// Each reported error belongs to its failed region, one for one and in
/// walk order: it is anchored at or after the region's first token, or at
/// the end of the input.
pub open spec fn errs_match_regions(
    src: Seq<char>,
    ts: Seq<(Token, Span)>,
    rs: Seq<int>,
    es: Seq<ParseError>,
) -> bool {
    &&& es.len() == rs.len()
    &&& forall|k: int|
        0 <= k < es.len() ==> 0 <= rs[k] < ts.len() && ((#[trigger] es[k]).span.start
            >= ts[rs[k]].1.start || es[k].span.start == src.len() as usize)
}

/// The whole file parses from `i` on: declarations back to back until the
/// end of the token stream.
pub open spec fn file_ok_from(ts: Seq<(Token, Span)>, i: int) -> bool
    decreases ts.len() - i,
    when 0 <= i <= ts.len()
{
    if i >= ts.len() {
        true
    } else {
        match decl_end_from(ts, i) {
            Some(j) => if i < j <= ts.len() {
                file_ok_from(ts, j)
            } else {
                false
            },
            None => false,
        }
    }
}

/// The whole token stream is a grammatical file.
pub open spec fn file_ok(ts: Seq<(Token, Span)>) -> bool {
    file_ok_from(ts, 0)
}

/// The error kinds the declaration parser may report.
pub open spec fn parse_err_kind(k: ErrorKind) -> bool {
    ||| k == ErrorKind::UnexpectedToken
    ||| k == ErrorKind::UnexpectedEnd
    ||| k == ErrorKind::UnclosedBrace
    ||| k == ErrorKind::Overflow
    ||| k == ErrorKind::ExpectedLiteral
}

proof fn lemma_toks_texts_elems(ts: Seq<(Token, Span)>)
    ensures
        toks_texts(ts).len() == ts.len(),
        forall|k: int| 0 <= k < ts.len() ==> #[trigger] toks_texts(ts)[k] == token_text(ts[k].0),
    decreases ts.len(),
{
    if ts.len() > 0 {
        lemma_toks_texts_elems(ts.drop_last());
        assert(forall|k: int| 0 <= k < ts.len() - 1 ==> ts.drop_last()[k] == #[trigger] ts[k]);
    }
}

proof fn lemma_config_entries_texts_push(
    es: Seq<(Spanned<String>, ConfigValue)>,
    en: (Spanned<String>, ConfigValue),
)
    ensures
        config_entries_texts(es.push(en)) == config_entries_texts(es) + seq![en.0.x@, ":"@]
            + config_value_texts(en.1),
{
    assert(es.push(en).drop_last() =~= es);
    assert(es.push(en).last() == en);
}

proof fn lemma_reg_entries_texts_push(
    es: Seq<(Spanned<String>, Spanned<FieldValue>)>,
    en: (Spanned<String>, Spanned<FieldValue>),
)
    ensures
        reg_entries_texts(es.push(en)) == reg_entries_texts(es) + seq![en.0.x@, ":"@]
            + field_value_texts(en.1),
{
    assert(es.push(en).drop_last() =~= es);
    assert(es.push(en).last() == en);
}

proof fn lemma_decls_texts_push(ds: Seq<Decl>, d: Decl)
    ensures
        decls_texts(ds.push(d)) == decls_texts(ds) + decl_texts(d),
{
    assert(ds.push(d).drop_last() =~= ds);
    assert(ds.push(d).last() == d);
}

proof fn lemma_toks_texts_concat(ts: Seq<(Token, Span)>, a: int, b: int, c: int)
    requires
        0 <= a <= b <= c <= ts.len(),
    ensures
        toks_texts(ts.subrange(a, c)) == toks_texts(ts.subrange(a, b)) + toks_texts(
            ts.subrange(b, c),
        ),
{
    lemma_toks_texts_elems(ts.subrange(a, c));
    lemma_toks_texts_elems(ts.subrange(a, b));
    lemma_toks_texts_elems(ts.subrange(b, c));
    assert forall|k: int| 0 <= k < c - a implies toks_texts(ts.subrange(a, c))[k] == (toks_texts(
        ts.subrange(a, b),
    ) + toks_texts(ts.subrange(b, c)))[k] by {
        if k < b - a {
            assert(ts.subrange(a, b)[k] == ts.subrange(a, c)[k]);
        } else {
            assert(ts.subrange(b, c)[k - (b - a)] == ts.subrange(a, c)[k]);
        }
    }
    assert(toks_texts(ts.subrange(a, c)) =~~= toks_texts(ts.subrange(a, b)) + toks_texts(
        ts.subrange(b, c),
    ));
}

/// A token that stands earlier in the stream starts no later in the
/// source.
proof fn lemma_tok_start_le(src: Seq<char>, ts: Seq<(Token, Span)>, a: int, b: int)
    requires
        tokens_wf(src, ts),
        0 <= a <= b < ts.len(),
    ensures
        ts[a].1.start <= ts[b].1.start,
{
    assert(token_at(src, ts[a]));
    if a < b {
        lemma_tokens_ordered(src, ts, a, b);
    }
}

proof fn lemma_tokens_ordered(src: Seq<char>, ts: Seq<(Token, Span)>, a: int, b: int)
    requires
        tokens_wf(src, ts),
        0 <= a < b < ts.len(),
    ensures
        ts[a].1.end <= ts[b].1.start,
    decreases b - a,
{
    assert(token_at(src, ts[b - 1]));
    if a + 1 < b {
        lemma_tokens_ordered(src, ts, a, b - 1);
    }
}

fn eof_span(source: &String) -> (r: Span)
    ensures
        r.start == source@.len() && r.end == source@.len(),
{
    let n = source.as_str().unicode_len();
    Span::new(n, n)
}

/// Parses a register block's body, entered just past its opening brace at
/// `open_idx`: field entries until the closing brace. Each value must be
/// the placeholder or a plain numeric literal; an unterminated block is
/// reported at the opening brace with a note at the end of the input.
#[verifier::rlimit(100)]
fn parse_register_body(source: &String, toks: &Vec<(Token, Span)>, open_idx: usize) -> (r: Result<
    (Vec<(Spanned<String>, Spanned<FieldValue>)>, usize),
    ParseError,
>)
    requires
        tokens_wf(source@, toks@),
        open_idx < toks@.len(),
    ensures
        match r {
            Ok((ms, j)) => {
                &&& reg_body_end(toks@, open_idx + 1) == Some(j as int)
                &&& open_idx + 1 < j <= toks@.len()
                &&& toks@[j - 1].0 == Token::RBrace
                &&& forall|k: int|
                    0 <= k < ms@.len() ==> spanned_str_wf(source@, (#[trigger] ms@[k]).0)
                        && field_value_wf(source@, ms@[k].1)
                &&& reg_entries_texts(ms@) == toks_texts(toks@.subrange(open_idx + 1, j - 1))
            },
            Err(pe) => {
                &&& reg_body_end(toks@, open_idx + 1) is None
                &&& pe.span_wf(source@.len())
                &&& parse_err_kind(pe.kind)
                &&& (pe.span.start >= toks@[open_idx as int].1.start || pe.span.start == source@.len() as usize)
            },
        },
{
    let ghost body = open_idx + 1;
    let n_toks: usize = toks.len();
    let mut ms: Vec<(Spanned<String>, Spanned<FieldValue>)> = Vec::new();
    assert(open_idx < n_toks);
    let mut j: usize = open_idx + 1;
    proof {
        assert(toks@.subrange(body, body) =~= Seq::<(Token, Span)>::empty());
        assert(reg_entries_texts(ms@) =~~= toks_texts(toks@.subrange(body, j as int)));
    }
    loop
        invariant
            tokens_wf(source@, toks@),
            open_idx < toks@.len(),
            body == open_idx + 1,
            body <= j <= toks@.len(),
            reg_body_end(toks@, j as int) == reg_body_end(toks@, body),
            forall|k: int|
                0 <= k < ms@.len() ==> spanned_str_wf(source@, (#[trigger] ms@[k]).0)
                    && field_value_wf(source@, ms@[k].1),
            reg_entries_texts(ms@) == toks_texts(toks@.subrange(body, j as int)),
        decreases toks@.len() - j,
    {
        if j >= toks.len() {
            return Err(
                ParseError::with_secondary(
                    ErrorKind::UnclosedBrace,
                    toks[open_idx].1,
                    String::from_str("this block is never closed"),
                    eof_span(source),
                    String::from_str("expected a closing brace before the end of the input"),
                ),
            );
        }
        let ghost ms0 = ms@;
        let entry_start = j;
        match &toks[j].0 {
            Token::RBrace => {
                proof {
                    assert(reg_body_end(toks@, j as int) == Some(j + 1));
                }
                return Ok((ms, j + 1));
            },
            Token::Ident(f) => {
                let fname = f.clone();
                if j + 1 >= toks.len() {
                    return Err(
                        ParseError::new(
                            ErrorKind::UnexpectedEnd,
                            eof_span(source),
                            String::from_str("expected a colon after the field name"),
                        ),
                    );
                }
                match &toks[j + 1].0 {
                    Token::Colon => {},
                    _ => {
                        proof {
                            lemma_tok_start_le(source@, toks@, open_idx as int, j + 1);
                        }
                        return Err(
                            ParseError::new(
                                ErrorKind::UnexpectedToken,
                                toks[j + 1].1,
                                String::from_str("expected a colon after the field name"),
                            ),
                        );
                    },
                }
                let key = Spanned::new(source, fname, toks[j].1);
                let is_empty_tok = j + 2 < toks.len() && match &toks[j + 2].0 {
                    Token::Empty => true,
                    _ => false,
                };
                if is_empty_tok {
                    let val = Spanned::new(source, FieldValue::Placeholder, toks[j + 2].1);
                    ms.push((key, val));
                    proof {
                        assert(token_at(source@, toks@[j as int]));
                        assert(token_at(source@, toks@[j + 2]));
                        lemma_reg_entries_texts_push(ms0, ms@.last());
                        lemma_toks_texts_concat(toks@, body, j as int, j + 3);
                        lemma_toks_texts_elems(toks@.subrange(j as int, j + 3));
                        assert(toks@.subrange(j as int, j + 3)[0] == toks@[j as int]);
                        assert(toks@.subrange(j as int, j + 3)[1] == toks@[j + 1]);
                        assert(toks@.subrange(j as int, j + 3)[2] == toks@[j + 2]);
                        assert(toks_texts(toks@.subrange(j as int, j + 3)) =~~= seq![
                            token_text(toks@[j as int].0),
                            token_text(toks@[j + 1].0),
                            token_text(toks@[j + 2].0),
                        ]);
                        assert(ms@.last().0.x@ == token_text(toks@[j as int].0));
                        assert(reg_entries_texts(ms@) =~~= toks_texts(
                            toks@.subrange(body, j + 3),
                        ));
                    }
                    j = j + 3;
                } else {
                    let e = match parse_expr(source, toks, j + 2) {
                        Ok((e, eend)) => {
                            if !(eend == j + 3) {
                                proof {
                                    lemma_tok_start_le(source@, toks@, open_idx as int, j + 2);
                                }
                                return Err(
                                    ParseError::new(
                                        ErrorKind::ExpectedLiteral,
                                        e.span,
                                        String::from_str(
                                            "a register field value must be a plain numeric literal or the placeholder",
                                        ),
                                    ),
                                );
                            }
                            e
                        },
                        Err(pe) => {
                            proof {
                                if j + 2 < toks@.len() {
                                    lemma_tok_start_le(source@, toks@, open_idx as int, j + 2);
                                }
                            }
                            return Err(pe);
                        },
                    };
                    let v: u32 = match &*e.x {
                        ExprX::Num(v) => *v,
                        _ => {
                            proof {
                                lemma_tok_start_le(source@, toks@, open_idx as int, j + 2);
                            }
                            return Err(
                                ParseError::new(
                                    ErrorKind::ExpectedLiteral,
                                    e.span,
                                    String::from_str(
                                        "a register field value must be a plain numeric literal or the placeholder",
                                    ),
                                ),
                            );
                        },
                    };
                    let val = Spanned::new(source, FieldValue::Num(v), e.span);
                    ms.push((key, val));
                    proof {
                        assert(token_at(source@, toks@[j as int]));
                        assert(token_at(source@, toks@[j + 2]));
                        assert(expr_end_from(toks@, j + 2) == Some(j + 3));
                        assert(is_num_tok(toks@[j + 2].0));
                        assert(reg_body_end(toks@, j as int) == reg_body_end(toks@, j + 3));
                        lemma_toks_texts_elems(toks@.subrange(j + 2, j + 3));
                        assert(expr_text_toks(e)[0] == e.slice());
                        assert(e.slice() == token_text(toks@[j + 2].0));
                        lemma_reg_entries_texts_push(ms0, ms@.last());
                        lemma_toks_texts_concat(toks@, body, j as int, j + 3);
                        lemma_toks_texts_elems(toks@.subrange(j as int, j + 3));
                        assert(toks@.subrange(j as int, j + 3)[0] == toks@[j as int]);
                        assert(toks@.subrange(j as int, j + 3)[1] == toks@[j + 1]);
                        assert(toks@.subrange(j as int, j + 3)[2] == toks@[j + 2]);
                        assert(toks_texts(toks@.subrange(j as int, j + 3)) =~~= seq![
                            token_text(toks@[j as int].0),
                            token_text(toks@[j + 1].0),
                            token_text(toks@[j + 2].0),
                        ]);
                        assert(ms@.last().0.x@ == token_text(toks@[j as int].0));
                        assert(ms@.last().1.slice() == token_text(toks@[j + 2].0));
                        assert(reg_entries_texts(ms@) =~~= toks_texts(
                            toks@.subrange(body, j + 3),
                        ));
                    }
                    j = j + 3;
                }
            },
            _ => {
                proof {
                    lemma_tok_start_le(source@, toks@, open_idx as int, j as int);
                }
                return Err(
                    ParseError::new(
                        ErrorKind::UnexpectedToken,
                        toks[j].1,
                        String::from_str("expected a field name or a closing brace"),
                    ),
                );
            },
        }
    }
}

/// Parses a configuration block's body, entered just past its opening
/// brace at `open_idx`: key entries until the closing brace, each value
/// the placeholder, a bare word, or an expression.
#[verifier::rlimit(100)]
fn parse_config_body(source: &String, toks: &Vec<(Token, Span)>, open_idx: usize) -> (r: Result<
    (Vec<(Spanned<String>, ConfigValue)>, usize),
    ParseError,
>)
    requires
        tokens_wf(source@, toks@),
        open_idx < toks@.len(),
    ensures
        match r {
            Ok((es, j)) => {
                &&& cfg_body_end(toks@, open_idx + 1) == Some(j as int)
                &&& open_idx + 1 < j <= toks@.len()
                &&& toks@[j - 1].0 == Token::RBrace
                &&& forall|k: int|
                    0 <= k < es@.len() ==> spanned_str_wf(source@, (#[trigger] es@[k]).0)
                        && config_value_wf(source@, es@[k].1)
                &&& config_entries_texts(es@) == toks_texts(toks@.subrange(open_idx + 1, j - 1))
            },
            Err(pe) => {
                &&& cfg_body_end(toks@, open_idx + 1) is None
                &&& pe.span_wf(source@.len())
                &&& parse_err_kind(pe.kind)
                &&& (pe.span.start >= toks@[open_idx as int].1.start || pe.span.start == source@.len() as usize)
            },
        },
{
    let ghost body = open_idx + 1;
    let n_toks: usize = toks.len();
    let mut es: Vec<(Spanned<String>, ConfigValue)> = Vec::new();
    assert(open_idx < n_toks);
    let mut j: usize = open_idx + 1;
    proof {
        assert(toks@.subrange(body, body) =~= Seq::<(Token, Span)>::empty());
        assert(config_entries_texts(es@) =~~= toks_texts(toks@.subrange(body, j as int)));
    }
    loop
        invariant
            tokens_wf(source@, toks@),
            open_idx < toks@.len(),
            body == open_idx + 1,
            body <= j <= toks@.len(),
            cfg_body_end(toks@, j as int) == cfg_body_end(toks@, body),
            forall|k: int|
                0 <= k < es@.len() ==> spanned_str_wf(source@, (#[trigger] es@[k]).0)
                    && config_value_wf(source@, es@[k].1),
            config_entries_texts(es@) == toks_texts(toks@.subrange(body, j as int)),
        decreases toks@.len() - j,
    {
        if j >= toks.len() {
            return Err(
                ParseError::with_secondary(
                    ErrorKind::UnclosedBrace,
                    toks[open_idx].1,
                    String::from_str("this block is never closed"),
                    eof_span(source),
                    String::from_str("expected a closing brace before the end of the input"),
                ),
            );
        }
        let ghost es0 = es@;
        match &toks[j].0 {
            Token::RBrace => {
                proof {
                    assert(cfg_body_end(toks@, j as int) == Some(j + 1));
                }
                return Ok((es, j + 1));
            },
            Token::Ident(f) => {
                let fname = f.clone();
                if j + 1 >= toks.len() {
                    return Err(
                        ParseError::new(
                            ErrorKind::UnexpectedEnd,
                            eof_span(source),
                            String::from_str("expected a colon after the key"),
                        ),
                    );
                }
                match &toks[j + 1].0 {
                    Token::Colon => {},
                    _ => {
                        proof {
                            lemma_tok_start_le(source@, toks@, open_idx as int, j + 1);
                        }
                        return Err(
                            ParseError::new(
                                ErrorKind::UnexpectedToken,
                                toks[j + 1].1,
                                String::from_str("expected a colon after the key"),
                            ),
                        );
                    },
                }
                let key = Spanned::new(source, fname, toks[j].1);
                let mut val_is_empty = false;
                let mut val_word: Option<String> = None;
                if j + 2 < toks.len() {
                    match &toks[j + 2].0 {
                        Token::Empty => {
                            val_is_empty = true;
                        },
                        Token::Ident(w) => {
                            val_word = Some(w.clone());
                        },
                        _ => {},
                    }
                }
                if val_is_empty {
                    {
                        let val = ConfigValue::Placeholder(toks[j + 2].1);
                        es.push((key, val));
                        proof {
                            assert(token_at(source@, toks@[j as int]));
                            assert(token_at(source@, toks@[j + 2]));
                            assert(cfg_value_end(toks@, j + 2) == Some(j + 3));
                            lemma_config_entries_texts_push(es0, es@.last());
                            lemma_toks_texts_concat(toks@, body, j as int, j + 3);
                            lemma_toks_texts_elems(toks@.subrange(j as int, j + 3));
                            assert(toks@.subrange(j as int, j + 3)[0] == toks@[j as int]);
                            assert(toks@.subrange(j as int, j + 3)[1] == toks@[j + 1]);
                            assert(toks@.subrange(j as int, j + 3)[2] == toks@[j + 2]);
                            assert(toks_texts(toks@.subrange(j as int, j + 3)) =~~= seq![
                                token_text(toks@[j as int].0),
                                token_text(toks@[j + 1].0),
                                token_text(toks@[j + 2].0),
                            ]);
                            assert(es@.last().0.x@ == token_text(toks@[j as int].0));
                            assert(config_entries_texts(es@) =~~= toks_texts(
                                toks@.subrange(body, j + 3),
                            ));
                        }
                        j = j + 3;
                    }
                } else if let Some(w) = val_word {
                    {
                        let val = ConfigValue::Word(Spanned::new(source, w, toks[j + 2].1));
                        es.push((key, val));
                        proof {
                            assert(token_at(source@, toks@[j as int]));
                            assert(token_at(source@, toks@[j + 2]));
                            assert(cfg_value_end(toks@, j + 2) == Some(j + 3));
                            lemma_config_entries_texts_push(es0, es@.last());
                            lemma_toks_texts_concat(toks@, body, j as int, j + 3);
                            lemma_toks_texts_elems(toks@.subrange(j as int, j + 3));
                            assert(toks@.subrange(j as int, j + 3)[0] == toks@[j as int]);
                            assert(toks@.subrange(j as int, j + 3)[1] == toks@[j + 1]);
                            assert(toks@.subrange(j as int, j + 3)[2] == toks@[j + 2]);
                            assert(toks_texts(toks@.subrange(j as int, j + 3)) =~~= seq![
                                token_text(toks@[j as int].0),
                                token_text(toks@[j + 1].0),
                                token_text(toks@[j + 2].0),
                            ]);
                            assert(es@.last().0.x@ == token_text(toks@[j as int].0));
                            assert(config_entries_texts(es@) =~~= toks_texts(
                                toks@.subrange(body, j + 3),
                            ));
                        }
                        j = j + 3;
                    }
                } else {
                    {
                        let (e, eend) = match parse_expr(source, toks, j + 2) {
                            Ok(r) => r,
                            Err(pe) => {
                                proof {
                                    if j + 2 < toks@.len() {
                                        lemma_tok_start_le(source@, toks@, open_idx as int, j + 2);
                                    }
                                }
                                return Err(pe);
                            },
                        };
                        let val = ConfigValue::Expression(e);
                        es.push((key, val));
                        proof {
                            assert(token_at(source@, toks@[j as int]));
                            assert(cfg_value_end(toks@, j + 2) == Some(eend as int));
                            assert(cfg_body_end(toks@, j as int) == cfg_body_end(
                                toks@,
                                eend as int,
                            ));
                            lemma_config_entries_texts_push(es0, es@.last());
                            lemma_toks_texts_concat(toks@, body, j as int, eend as int);
                            lemma_toks_texts_concat(toks@, j as int, j + 2, eend as int);
                            lemma_toks_texts_elems(toks@.subrange(j as int, j + 2));
                            assert(toks_texts(toks@.subrange(j as int, j + 2)) =~~= seq![
                                token_text(toks@[j as int].0),
                                token_text(toks@[j + 1].0),
                            ]);
                            assert(es@.last().0.x@ == token_text(toks@[j as int].0));
                            assert(config_entries_texts(es@) =~~= toks_texts(
                                toks@.subrange(body, eend as int),
                            ));
                        }
                        j = eend;
                    }
                }
            },
            _ => {
                proof {
                    lemma_tok_start_le(source@, toks@, open_idx as int, j as int);
                }
                return Err(
                    ParseError::new(
                        ErrorKind::UnexpectedToken,
                        toks[j].1,
                        String::from_str("expected a key or a closing brace"),
                    ),
                );
            },
        }
    }
}

/// Interleaves two error lists by the start of their spans, keeping each
/// list's own order: the order in which a run over the source discovers
/// its problems.
pub open spec fn merge_by_span(a: Seq<ParseError>, b: Seq<ParseError>) -> Seq<ParseError>
    decreases a.len() + b.len(),
{
    if a.len() == 0 {
        b
    } else if b.len() == 0 {
        a
    } else if a[0].span.start <= b[0].span.start {
        seq![a[0]] + merge_by_span(a.drop_first(), b)
    } else {
        seq![b[0]] + merge_by_span(a, b.drop_first())
    }
}

/// Every element of the merge comes from one of the two lists, and none
/// is lost.
pub proof fn lemma_merge_by_span_elems(a: Seq<ParseError>, b: Seq<ParseError>)
    ensures
        merge_by_span(a, b).len() == a.len() + b.len(),
        forall|k: int|
            0 <= k < merge_by_span(a, b).len() ==> a.contains(#[trigger] merge_by_span(a, b)[k])
                || b.contains(merge_by_span(a, b)[k]),
    decreases a.len() + b.len(),
{
    if a.len() == 0 || b.len() == 0 {
        assert(forall|k: int| 0 <= k < a.len() ==> a.contains(#[trigger] a[k]));
        assert(forall|k: int| 0 <= k < b.len() ==> b.contains(#[trigger] b[k]));
    } else if a[0].span.start <= b[0].span.start {
        lemma_merge_by_span_elems(a.drop_first(), b);
        assert(a.contains(a[0]));
        assert forall|k: int|
            1 <= k < merge_by_span(a, b).len() implies a.contains(
            #[trigger] merge_by_span(a, b)[k],
        ) || b.contains(merge_by_span(a, b)[k]) by {
            assert(merge_by_span(a, b)[k] == merge_by_span(a.drop_first(), b)[k - 1]);
            if a.drop_first().contains(merge_by_span(a.drop_first(), b)[k - 1]) {
                let j = choose|j: int|
                    0 <= j < a.drop_first().len() && a.drop_first()[j] == merge_by_span(
                        a.drop_first(),
                        b,
                    )[k - 1];
                assert(a[j + 1] == a.drop_first()[j]);
            }
        }
    } else {
        lemma_merge_by_span_elems(a, b.drop_first());
        assert(b.contains(b[0]));
        assert forall|k: int|
            1 <= k < merge_by_span(a, b).len() implies a.contains(
            #[trigger] merge_by_span(a, b)[k],
        ) || b.contains(merge_by_span(a, b)[k]) by {
            assert(merge_by_span(a, b)[k] == merge_by_span(a, b.drop_first())[k - 1]);
            if b.drop_first().contains(merge_by_span(a, b.drop_first())[k - 1]) {
                let j = choose|j: int|
                    0 <= j < b.drop_first().len() && b.drop_first()[j] == merge_by_span(
                        a,
                        b.drop_first(),
                    )[k - 1];
                assert(b[j + 1] == b.drop_first()[j]);
            }
        }
    }
}

/// The rendered strings match the token texts, one for one.
pub open spec fn strings_match(v: Seq<String>, t: Seq<Seq<char>>) -> bool {
    v.len() == t.len() && forall|k: int| 0 <= k < v.len() ==> (#[trigger] v[k])@ == t[k]
}

proof fn lemma_texts_assemble(
    out2: Seq<String>,
    outf: Seq<String>,
    tl: Seq<Seq<char>>,
    opt: Seq<char>,
    tr: Seq<Seq<char>>,
    base: int,
)
    requires
        base >= 0,
        out2.len() == base + tl.len() + 1,
        forall|k: int| 0 <= k < tl.len() ==> (#[trigger] out2[base + k])@ == tl[k],
        out2[base + tl.len() as int]@ == opt,
        outf.len() == out2.len() + tr.len(),
        forall|k: int| 0 <= k < out2.len() ==> #[trigger] outf[k] == out2[k],
        forall|k: int| 0 <= k < tr.len() ==> (#[trigger] outf[out2.len() as int + k])@ == tr[k],
    ensures
        outf.len() == base + (tl + seq![opt] + tr).len(),
        forall|k: int|
            0 <= k < (tl + seq![opt] + tr).len() ==> (#[trigger] outf[base + k])@ == (tl
                + seq![opt] + tr)[k],
{
    let te = tl + seq![opt] + tr;
    assert forall|k: int| 0 <= k < te.len() implies (#[trigger] outf[base + k])@ == te[k] by {
        if k < tl.len() {
            assert(outf[base + k] == out2[base + k]);
        } else if k == tl.len() {
            assert(outf[base + k] == out2[base + k]);
        } else {
            assert(outf[out2.len() as int + (k - tl.len() - 1)]@ == tr[k - tl.len() - 1]);
        }
    }
}

/// Appends the texts of the tokens the expression renders back to:
/// leaves from their span slices, operators from their spellings.
#[verifier::rlimit(100)]
fn push_expr_texts(e: &Spanned<Expr>, out: &mut Vec<String>)
    requires
        expr_wf(e.source@, *e),
    ensures
        final(out)@.len() == old(out)@.len() + expr_text_toks(*e).len(),
        forall|k: int| 0 <= k < old(out)@.len() ==> final(out)@[k] == old(out)@[k],
        forall|k: int|
            0 <= k < expr_text_toks(*e).len() ==> (#[trigger] final(out)@[old(out)@.len() + k])@
                == expr_text_toks(*e)[k],
    decreases *e,
{
    match &*e.x {
        ExprX::Num(_) => {
            let s = e.source.as_str().substring_char(e.span.start, e.span.end).to_owned();
            out.push(s);
        },
        ExprX::Var(name) => {
            out.push(String::from_str("@").concat(name.as_str()));
        },
        ExprX::Binary(op, l, r) => {
            proof {
                assert(*e.x == ExprX::Binary(*op, *l, *r));
                assert(expr_wf(e.source@, *l));
                assert(expr_wf(e.source@, *r));
            }
            let ghost base = out@.len();
            push_expr_texts(l, out);
            match op {
                BinaryOp::Add => out.push(String::from_str("+")),
                BinaryOp::Subtract => out.push(String::from_str("-")),
            }
            let ghost out2 = out@;
            push_expr_texts(r, out);
            proof {
                let te = expr_text_toks(*e);
                assert(te =~~= expr_text_toks(*l) + seq![token_text(op_tok_of(*op))]
                    + expr_text_toks(*r));
                assert(out2[base + expr_text_toks(*l).len() as int]@ == token_text(
                    op_tok_of(*op),
                ));
                lemma_texts_assemble(
                    out2,
                    out@,
                    expr_text_toks(*l),
                    token_text(op_tok_of(*op)),
                    expr_text_toks(*r),
                    base as int,
                );
            }
        },
    }
}

/// Renders a declaration list back to the texts of its tokens, one string
/// per token, in declaration order: keywords and punctuation from their
/// spellings, names and literals from the parsed nodes. Lexing the joined
/// output again gives a stream lexically equivalent to the one the
/// declarations were parsed from.
#[verifier::loop_isolation(false)]
#[verifier::rlimit(100)]
pub fn render_decls(source: &String, ds: &Vec<Decl>) -> (r: Vec<String>)
    requires
        decls_wf(source@, ds@),
    ensures
        strings_match(r@, decls_texts(ds@)),
{
    let mut out: Vec<String> = Vec::new();
    let mut d: usize = 0;
    proof {
        assert(ds@.subrange(0, 0) =~= Seq::<Decl>::empty());
    }
    while d < ds.len()
        invariant
            d <= ds@.len(),
            strings_match(out@, decls_texts(ds@.subrange(0, d as int))),
        decreases ds@.len() - d,
    {
        let ghost processed = ds@.subrange(0, d as int);
        let ghost processed1 = ds@.subrange(0, d + 1);
        proof {
            assert(processed1.drop_last() =~= processed);
            assert(processed1.last() == ds@[d as int]);
            assert(decl_wf(source@, ds@[d as int]));
        }
        let ghost base = out@.len();
        match &ds[d] {
            Decl::AliasDecl(n, t) => {
                out.push(String::from_str("alias"));
                out.push(n.x.clone());
                out.push(String::from_str(":"));
                out.push(t.x.clone());
            },
            Decl::RestrictedDecl(n, t, rs) => {
                out.push(String::from_str("restricted"));
                out.push(String::from_str("alias"));
                out.push(n.x.clone());
                out.push(String::from_str(":"));
                out.push(t.x.clone());
                out.push(String::from_str(":"));
                out.push(rs.x.clone());
            },
            Decl::RegisterBlock(reg) => {
                out.push(String::from_str("register"));
                out.push(reg.x.name.x.clone());
                out.push(String::from_str("{"));
                let ghost hdr = decls_texts(processed) + seq![
                    "register"@,
                    reg.x.name.x@,
                    "{"@,
                ];
                let m = reg.x.mappings.len();
                let mut t: usize = 0;
                proof {
                    assert(reg.x.mappings@.subrange(0, 0) =~= Seq::<(
                        Spanned<String>,
                        Spanned<FieldValue>,
                    )>::empty());
                    assert(strings_match(
                        out@,
                        hdr + reg_entries_texts(reg.x.mappings@.subrange(0, 0)),
                    ));
                }
                while t < m
                    invariant
                        t <= m,
                        strings_match(
                            out@,
                            hdr + reg_entries_texts(reg.x.mappings@.subrange(0, t as int)),
                        ),
                    decreases m - t,
                {
                    let ghost prefix = reg.x.mappings@.subrange(0, t as int);
                    proof {
                        assert(reg.x.mappings@.subrange(0, t + 1).drop_last() =~= prefix);
                        assert(reg.x.mappings@.subrange(0, t + 1).last() == reg.x.mappings@[
                            t as int]);
                        lemma_reg_entries_texts_push(prefix, reg.x.mappings@[t as int]);
                    }
                    let en = &reg.x.mappings[t];
                    out.push(en.0.x.clone());
                    out.push(String::from_str(":"));
                    match &en.1.x {
                        FieldValue::Placeholder => {
                            out.push(String::from_str("_"));
                        },
                        FieldValue::Num(_) => {
                            let sl = en.1.source.as_str().substring_char(
                                en.1.span.start,
                                en.1.span.end,
                            ).to_owned();
                            out.push(sl);
                        },
                    }
                    proof {
                        assert(hdr + reg_entries_texts(reg.x.mappings@.subrange(0, t + 1)) =~~= (
                        hdr + reg_entries_texts(prefix)) + seq![en.0.x@, ":"@] + field_value_texts(
                            en.1,
                        ));
                        assert(strings_match(
                            out@,
                            hdr + reg_entries_texts(reg.x.mappings@.subrange(0, t + 1)),
                        ));
                    }
                    t = t + 1;
                }
                out.push(String::from_str("}"));
                proof {
                    assert(reg.x.mappings@.subrange(0, m as int) =~= reg.x.mappings@);
                    assert(decls_texts(processed1) =~~= hdr + reg_entries_texts(reg.x.mappings@)
                        + seq!["}"@]);
                }
            },
            Decl::ConfigBlock(c) => {
                out.push(String::from_str("config"));
                out.push(String::from_str("{"));
                let ghost hdr = decls_texts(processed) + seq!["config"@, "{"@];
                let m = c.x.len();
                let mut t: usize = 0;
                proof {
                    assert(c.x@.subrange(0, 0) =~= Seq::<(Spanned<String>, ConfigValue)>::empty());
                    assert(strings_match(out@, hdr + config_entries_texts(c.x@.subrange(0, 0))));
                }
                while t < m
                    invariant
                        t <= m,
                        strings_match(out@, hdr + config_entries_texts(c.x@.subrange(0, t as int))),
                    decreases m - t,
                {
                    let ghost prefix = c.x@.subrange(0, t as int);
                    proof {
                        assert(c.x@.subrange(0, t + 1).drop_last() =~= prefix);
                        assert(c.x@.subrange(0, t + 1).last() == c.x@[t as int]);
                        lemma_config_entries_texts_push(prefix, c.x@[t as int]);
                    }
                    let ghost out0 = out@;
                    let ghost pre = hdr + config_entries_texts(prefix);
                    let en = &c.x[t];
                    out.push(en.0.x.clone());
                    out.push(String::from_str(":"));
                    let ghost out1 = out@;
                    match &en.1 {
                        ConfigValue::Placeholder(_) => {
                            out.push(String::from_str("_"));
                        },
                        ConfigValue::Word(w) => {
                            out.push(w.x.clone());
                        },
                        ConfigValue::Expression(e) => {
                            proof {
                                assert(config_value_wf(source@, en.1));
                                assert(expr_wf(e.source@, *e));
                            }
                            push_expr_texts(e, &mut out);
                        },
                    }
                    proof {
                        let vt = config_value_texts(en.1);
                        let full = pre + seq![en.0.x@, ":"@] + vt;
                        assert(out@.len() == full.len());
                        assert forall|k: int| 0 <= k < full.len() implies (#[trigger] out@[k])@
                            == full[k] by {
                            if k < pre.len() {
                                assert(out@[k] == out1[k]);
                                assert(out1[k] == out0[k]);
                                assert(out0[k]@ == pre[k]);
                            } else if k < pre.len() + 2 {
                                assert(out@[k] == out1[k]);
                            } else {
                                assert(out@[out1.len() as int + (k - pre.len() - 2)]@ == vt[k
                                    - pre.len() - 2]);
                            }
                        }
                        assert(hdr + config_entries_texts(c.x@.subrange(0, t + 1)) =~~= full);
                        assert(strings_match(
                            out@,
                            hdr + config_entries_texts(c.x@.subrange(0, t + 1)),
                        ));
                    }
                    t = t + 1;
                }
                out.push(String::from_str("}"));
                proof {
                    assert(c.x@.subrange(0, m as int) =~= c.x@);
                    assert(decls_texts(processed1) =~~= hdr + config_entries_texts(c.x@) + seq![
                        "}"@,
                    ]);
                }
            },
        }
        d = d + 1;
    }
    proof {
        assert(ds@.subrange(0, ds@.len() as int) =~= ds@);
    }
    out
}

/// Parses the single declaration that begins at `i`, dispatching on its
/// leading keyword. Succeeds exactly when `decl_end_from` gives an end;
/// the declaration then renders back to precisely the tokens consumed.
#[verifier::rlimit(100)]
fn parse_decl(source: &String, toks: &Vec<(Token, Span)>, i: usize) -> (r: Result<
    (Decl, usize),
    ParseError,
>)
    requires
        tokens_wf(source@, toks@),
        i < toks@.len(),
    ensures
        match r {
            Ok((d, j)) => {
                &&& decl_end_from(toks@, i as int) == Some(j as int)
                &&& i < j <= toks@.len()
                &&& decl_wf(source@, d)
                &&& decl_texts(d) == toks_texts(toks@.subrange(i as int, j as int))
            },
            Err(pe) => {
                &&& decl_end_from(toks@, i as int) is None
                &&& pe.span_wf(source@.len())
                &&& parse_err_kind(pe.kind)
                &&& (pe.span.start >= toks@[i as int].1.start || pe.span.start == source@.len() as usize)
            },
        },
{
    let n_toks: usize = toks.len();
    match &toks[i].0 {
        Token::Alias => {
            if n_toks - i <= 3 {
                return Err(
                    ParseError::new(
                        ErrorKind::UnexpectedEnd,
                        eof_span(source),
                        String::from_str("this alias declaration is incomplete"),
                    ),
                );
            }
            proof {
                lemma_tok_start_le(source@, toks@, i as int, i + 1);
                lemma_tok_start_le(source@, toks@, i as int, i + 2);
                lemma_tok_start_le(source@, toks@, i as int, i + 3);
            }
            let name = match &toks[i + 1].0 {
                Token::Ident(s) => s.clone(),
                _ => {
                    return Err(
                        ParseError::new(
                            ErrorKind::UnexpectedToken,
                            toks[i + 1].1,
                            String::from_str("expected a name for the alias"),
                        ),
                    );
                },
            };
            match &toks[i + 2].0 {
                Token::Colon => {},
                _ => {
                    return Err(
                        ParseError::new(
                            ErrorKind::UnexpectedToken,
                            toks[i + 2].1,
                            String::from_str("expected a colon after the alias name"),
                        ),
                    );
                },
            }
            let target = match &toks[i + 3].0 {
                Token::Ident(s) => s.clone(),
                _ => {
                    return Err(
                        ParseError::new(
                            ErrorKind::UnexpectedToken,
                            toks[i + 3].1,
                            String::from_str("expected the name the alias points at"),
                        ),
                    );
                },
            };
            let d = Decl::AliasDecl(
                Spanned::new(source, name, toks[i + 1].1),
                Spanned::new(source, target, toks[i + 3].1),
            );
            proof {
                assert(token_at(source@, toks@[i as int]));
                assert(token_at(source@, toks@[i + 1]));
                assert(token_at(source@, toks@[i + 3]));
                lemma_toks_texts_elems(toks@.subrange(i as int, i + 4));
                assert(decl_texts(d) =~~= toks_texts(toks@.subrange(i as int, i + 4)));
            }
            Ok((d, i + 4))
        },
        Token::Restricted => {
            if n_toks - i <= 6 {
                return Err(
                    ParseError::new(
                        ErrorKind::UnexpectedEnd,
                        eof_span(source),
                        String::from_str("this restricted alias declaration is incomplete"),
                    ),
                );
            }
            proof {
                lemma_tok_start_le(source@, toks@, i as int, i + 1);
                lemma_tok_start_le(source@, toks@, i as int, i + 2);
                lemma_tok_start_le(source@, toks@, i as int, i + 3);
                lemma_tok_start_le(source@, toks@, i as int, i + 4);
                lemma_tok_start_le(source@, toks@, i as int, i + 5);
                lemma_tok_start_le(source@, toks@, i as int, i + 6);
            }
            match &toks[i + 1].0 {
                Token::Alias => {},
                _ => {
                    return Err(
                        ParseError::new(
                            ErrorKind::UnexpectedToken,
                            toks[i + 1].1,
                            String::from_str("expected the alias keyword after restricted"),
                        ),
                    );
                },
            }
            let name = match &toks[i + 2].0 {
                Token::Ident(s) => s.clone(),
                _ => {
                    return Err(
                        ParseError::new(
                            ErrorKind::UnexpectedToken,
                            toks[i + 2].1,
                            String::from_str("expected a name for the alias"),
                        ),
                    );
                },
            };
            match &toks[i + 3].0 {
                Token::Colon => {},
                _ => {
                    return Err(
                        ParseError::new(
                            ErrorKind::UnexpectedToken,
                            toks[i + 3].1,
                            String::from_str("expected a colon after the alias name"),
                        ),
                    );
                },
            }
            let target = match &toks[i + 4].0 {
                Token::Ident(s) => s.clone(),
                _ => {
                    return Err(
                        ParseError::new(
                            ErrorKind::UnexpectedToken,
                            toks[i + 4].1,
                            String::from_str("expected the name the alias points at"),
                        ),
                    );
                },
            };
            match &toks[i + 5].0 {
                Token::Colon => {},
                _ => {
                    return Err(
                        ParseError::new(
                            ErrorKind::UnexpectedToken,
                            toks[i + 5].1,
                            String::from_str("expected a colon before the restriction"),
                        ),
                    );
                },
            }
            let restriction = match &toks[i + 6].0 {
                Token::Ident(s) => s.clone(),
                _ => {
                    return Err(
                        ParseError::new(
                            ErrorKind::UnexpectedToken,
                            toks[i + 6].1,
                            String::from_str("expected a restriction name"),
                        ),
                    );
                },
            };
            let d = Decl::RestrictedDecl(
                Spanned::new(source, name, toks[i + 2].1),
                Spanned::new(source, target, toks[i + 4].1),
                Spanned::new(source, restriction, toks[i + 6].1),
            );
            proof {
                assert(token_at(source@, toks@[i as int]));
                assert(token_at(source@, toks@[i + 1]));
                assert(token_at(source@, toks@[i + 2]));
                assert(token_at(source@, toks@[i + 4]));
                assert(token_at(source@, toks@[i + 6]));
                lemma_toks_texts_elems(toks@.subrange(i as int, i + 7));
                assert(decl_texts(d) =~~= toks_texts(toks@.subrange(i as int, i + 7)));
            }
            Ok((d, i + 7))
        },
        Token::Register => {
            if n_toks - i <= 2 {
                return Err(
                    ParseError::new(
                        ErrorKind::UnexpectedEnd,
                        eof_span(source),
                        String::from_str("this register declaration is incomplete"),
                    ),
                );
            }
            proof {
                lemma_tok_start_le(source@, toks@, i as int, i + 1);
                lemma_tok_start_le(source@, toks@, i as int, i + 2);
            }
            let name = match &toks[i + 1].0 {
                Token::Ident(s) => s.clone(),
                _ => {
                    return Err(
                        ParseError::new(
                            ErrorKind::UnexpectedToken,
                            toks[i + 1].1,
                            String::from_str("expected a name for the register"),
                        ),
                    );
                },
            };
            match &toks[i + 2].0 {
                Token::LBrace => {},
                _ => {
                    return Err(
                        ParseError::new(
                            ErrorKind::UnexpectedToken,
                            toks[i + 2].1,
                            String::from_str("expected an opening brace after the register name"),
                        ),
                    );
                },
            }
            let (ms, j) = match parse_register_body(source, toks, i + 2) {
                Ok(r) => r,
                Err(pe) => {
                    return Err(pe);
                },
            };
            let reg = Register { name: Spanned::new(source, name, toks[i + 1].1), mappings: ms };
            let sp = Span::new(toks[i].1.start, toks[j - 1].1.end);
            let d = Decl::RegisterBlock(Spanned::new(source, reg, sp));
            proof {
                assert(token_at(source@, toks@[i as int]));
                assert(token_at(source@, toks@[i + 1]));
                assert(token_at(source@, toks@[j - 1]));
                lemma_tokens_ordered(source@, toks@, i as int, j - 1);
                lemma_toks_texts_concat(toks@, i as int, i + 3, j as int);
                lemma_toks_texts_concat(toks@, i + 3, j - 1, j as int);
                lemma_toks_texts_elems(toks@.subrange(i as int, i + 3));
                assert(toks@.subrange(i as int, i + 3)[0] == toks@[i as int]);
                assert(toks@.subrange(i as int, i + 3)[1] == toks@[i + 1]);
                assert(toks@.subrange(i as int, i + 3)[2] == toks@[i + 2]);
                lemma_toks_texts_elems(toks@.subrange(j - 1, j as int));
                assert(toks@.subrange(j - 1, j as int)[0] == toks@[j - 1]);
                assert(decl_texts(d) =~~= toks_texts(toks@.subrange(i as int, j as int)));
            }
            Ok((d, j))
        },
        Token::Config => {
            if n_toks - i <= 1 {
                return Err(
                    ParseError::new(
                        ErrorKind::UnexpectedEnd,
                        eof_span(source),
                        String::from_str("this configuration block is incomplete"),
                    ),
                );
            }
            proof {
                lemma_tok_start_le(source@, toks@, i as int, i + 1);
            }
            match &toks[i + 1].0 {
                Token::LBrace => {},
                _ => {
                    return Err(
                        ParseError::new(
                            ErrorKind::UnexpectedToken,
                            toks[i + 1].1,
                            String::from_str("expected an opening brace after config"),
                        ),
                    );
                },
            }
            let (es, j) = match parse_config_body(source, toks, i + 1) {
                Ok(r) => r,
                Err(pe) => {
                    return Err(pe);
                },
            };
            let sp = Span::new(toks[i].1.start, toks[j - 1].1.end);
            let d = Decl::ConfigBlock(Spanned::new(source, es, sp));
            proof {
                assert(token_at(source@, toks@[i as int]));
                assert(token_at(source@, toks@[j - 1]));
                lemma_tokens_ordered(source@, toks@, i as int, j - 1);
                lemma_toks_texts_concat(toks@, i as int, i + 2, j as int);
                lemma_toks_texts_concat(toks@, i + 2, j - 1, j as int);
                lemma_toks_texts_elems(toks@.subrange(i as int, i + 2));
                assert(toks@.subrange(i as int, i + 2)[0] == toks@[i as int]);
                assert(toks@.subrange(i as int, i + 2)[1] == toks@[i + 1]);
                lemma_toks_texts_elems(toks@.subrange(j - 1, j as int));
                assert(toks@.subrange(j - 1, j as int)[0] == toks@[j - 1]);
                assert(decl_texts(d) =~~= toks_texts(toks@.subrange(i as int, j as int)));
            }
            Ok((d, j))
        },
        _ => Err(
            ParseError::new(
                ErrorKind::UnexpectedToken,
                toks[i].1,
                String::from_str("expected a declaration keyword"),
            ),
        ),
    }
}

/// Skips forward to the next token at which a top-level declaration could
/// begin: this is where the parser resynchronizes after an error.
fn skip_to_sync(toks: &Vec<(Token, Span)>, from: usize) -> (j: usize)
    requires
        from <= toks@.len(),
    ensures
        from <= j <= toks@.len(),
        j as int == next_sync(toks@, from as int),
{
    let mut j = from;
    while j < toks.len()
        invariant
            from <= j <= toks@.len(),
            next_sync(toks@, from as int) == next_sync(toks@, j as int),
        decreases toks@.len() - j,
    {
        let stop = match &toks[j].0 {
            Token::Register => true,
            Token::Alias => true,
            Token::Restricted => true,
            Token::Config => true,
            _ => false,
        };
        if stop {
            return j;
        }
        j = j + 1;
    }
    j
}

/// Parses a whole token stream into a declaration list. Parsing does not
/// stop at the first problem: after an error it resynchronizes at the next
/// top-level keyword and goes on, so every independent error of a run is
/// reported. Succeeds exactly on grammatical files, and the declarations
/// then render back to precisely the whole token stream.
#[verifier::rlimit(100)]
pub fn parse_decls(source: &String, toks: &Vec<(Token, Span)>) -> (r: Result<
    Vec<Decl>,
    Vec<ParseError>,
>)
    requires
        tokens_wf(source@, toks@),
    ensures
        match r {
            Ok(ds) => {
                &&& file_ok(toks@)
                &&& decls_wf(source@, ds@)
                &&& decls_texts(ds@) == toks_texts(toks@)
            },
            Err(es) => {
                &&& !file_ok(toks@)
                &&& es@.len() > 0
                &&& errs_match_regions(source@, toks@, error_regions(toks@, 0), es@)
                &&& forall|k: int|
                    0 <= k < es@.len() ==> (#[trigger] es@[k]).span_wf(source@.len())
                        && parse_err_kind(es@[k].kind)
            },
        },
{
    let mut ds: Vec<Decl> = Vec::new();
    let mut errs: Vec<ParseError> = Vec::new();
    let mut i: usize = 0;
    let ghost mut regions_done: Seq<int> = Seq::empty();
    proof {
        assert(toks@.subrange(0, 0) =~= Seq::<(Token, Span)>::empty());
        assert(decls_texts(ds@) =~~= toks_texts(toks@.subrange(0, 0)));
        assert(error_regions(toks@, 0) =~= regions_done + error_regions(toks@, 0));
    }
    while i < toks.len()
        invariant
            tokens_wf(source@, toks@),
            i <= toks@.len(),
            file_ok(toks@) <==> (errs@.len() == 0 && file_ok_from(toks@, i as int)),
            decls_wf(source@, ds@),
            errs@.len() == 0 ==> decls_texts(ds@) == toks_texts(toks@.subrange(0, i as int)),
            error_regions(toks@, 0) == regions_done + error_regions(toks@, i as int),
            errs_match_regions(source@, toks@, regions_done, errs@),
            forall|k: int|
                0 <= k < errs@.len() ==> (#[trigger] errs@[k]).span_wf(source@.len())
                    && parse_err_kind(errs@[k].kind),
        decreases toks@.len() - i,
    {
        let ghost ds0 = ds@;
        let ghost errs0 = errs@;
        match parse_decl(source, toks, i) {
            Ok((d, j)) => {
                ds.push(d);
                proof {
                    lemma_decls_texts_push(ds0, d);
                    lemma_toks_texts_concat(toks@, 0, i as int, j as int);
                    assert(error_regions(toks@, i as int) == error_regions(toks@, j as int));
                }
                i = j;
            },
            Err(pe) => {
                errs.push(pe);
                proof {
                    lemma_next_sync_bounds(toks@, i + 1);
                    assert(error_regions(toks@, i as int) == seq![i as int] + error_regions(
                        toks@,
                        next_sync(toks@, i + 1),
                    ));
                    assert(error_regions(toks@, 0) =~= (regions_done.push(i as int))
                        + error_regions(toks@, next_sync(toks@, i + 1)));
                    assert(errs@ =~= errs0.push(pe));
                    regions_done = regions_done.push(i as int);
                }
                i = skip_to_sync(toks, i + 1);
            },
        }
    }
    if errs.len() == 0 {
        proof {
            assert(toks@.subrange(0, toks@.len() as int) =~= toks@);
        }
        Ok(ds)
    } else {
        proof {
            assert(error_regions(toks@, i as int) =~= Seq::<int>::empty());
            assert(error_regions(toks@, 0) =~= regions_done);
        }
        Err(errs)
    }
}

} // verus!
