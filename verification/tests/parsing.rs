use ral::ast::{BinaryOp, ExprX, FieldValue, RalEntry};
use ral::lexer::lex;
use ral::parse;
use ral::parser::{parse_decls, parse_expr, parse_u32, render_decls, ErrorKind};

const EXAMPLE: &str = "config {\n  base: 4096\n}\nregister ctrl {\n  enable: 1\n  reserved: _\n}\nalias ctrl2: ctrl\nrestricted alias ctrl3: ctrl: readonly\n";

#[test]
fn end_to_end_example() {
    let ral = parse(&EXAMPLE.to_string()).expect("the example must parse");

    assert_eq!(ral.config.x.entries.len(), 1);
    let (key, value) = &ral.config.x.entries[0];
    assert_eq!(key.x, "base");
    assert_eq!(value.x, "4096");

    assert_eq!(ral.registers.len(), 3);
    assert_eq!(ral.registers[0].0, "ctrl");
    match &ral.registers[0].1 {
        RalEntry::RawRegister(r) => {
            assert_eq!(r.x.name.x, "ctrl");
            assert_eq!(r.x.mappings.len(), 2);
            assert_eq!(r.x.mappings[0].0.x, "enable");
            assert_eq!(r.x.mappings[0].1.x, FieldValue::Num(1));
            assert_eq!(r.x.mappings[1].0.x, "reserved");
            assert_eq!(r.x.mappings[1].1.x, FieldValue::Placeholder);
        }
        other => panic!("expected a raw register, got {:?}", other),
    }
    assert_eq!(ral.registers[1].0, "ctrl2");
    match &ral.registers[1].1 {
        RalEntry::Alias(t) => assert_eq!(t.x, "ctrl"),
        other => panic!("expected an alias, got {:?}", other),
    }
    assert_eq!(ral.registers[2].0, "ctrl3");
    match &ral.registers[2].1 {
        RalEntry::RestrictedAlias(t, r) => {
            assert_eq!(t.x, "ctrl");
            assert_eq!(r.x, "readonly");
        }
        other => panic!("expected a restricted alias, got {:?}", other),
    }
}

#[test]
fn spans_recover_the_generating_text() {
    let src = EXAMPLE.to_string();
    let ral = parse(&src).expect("the example must parse");
    let (key, value) = &ral.config.x.entries[0];
    assert_eq!(&src[key.span.start..key.span.end], "base");
    assert_eq!(&src[value.span.start..value.span.end], "4096");
    match &ral.registers[0].1 {
        RalEntry::RawRegister(r) => {
            assert_eq!(&src[r.x.name.span.start..r.x.name.span.end], "ctrl");
            let num = &r.x.mappings[0].1;
            let slice = &src[num.span.start..num.span.end];
            assert_eq!(slice.parse::<u32>().unwrap(), 1);
            let ph = &r.x.mappings[1].1;
            assert_eq!(&src[ph.span.start..ph.span.end], "_");
            assert_eq!(&src[r.span.start..r.span.end], "register ctrl {\n  enable: 1\n  reserved: _\n}");
        }
        other => panic!("expected a raw register, got {:?}", other),
    }
}

#[test]
fn addition_and_subtraction_chain_to_the_left() {
    let src = "1 + 2 - 3".to_string();
    let (toks, errs) = lex(&src);
    assert!(errs.is_empty());
    let (e, end) = parse_expr(&src, &toks, 0).expect("the expression must parse");
    assert_eq!(end, toks.len());
    match &*e.x {
        ExprX::Binary(BinaryOp::Subtract, l, r) => {
            match &*l.x {
                ExprX::Binary(BinaryOp::Add, ll, lr) => {
                    assert!(matches!(&*ll.x, ExprX::Num(1)));
                    assert!(matches!(&*lr.x, ExprX::Num(2)));
                }
                other => panic!("expected the addition on the left, got {:?}", other),
            }
            assert!(matches!(&*r.x, ExprX::Num(3)));
        }
        other => panic!("expected a subtraction at the root, got {:?}", other),
    }
    assert_eq!(&src[e.span.start..e.span.end], "1 + 2 - 3");
}

#[test]
fn variables_parse_in_expressions() {
    let src = "@base + 8".to_string();
    let (toks, errs) = lex(&src);
    assert!(errs.is_empty());
    let (e, _) = parse_expr(&src, &toks, 0).expect("the expression must parse");
    match &*e.x {
        ExprX::Binary(BinaryOp::Add, l, r) => {
            match &*l.x {
                ExprX::Var(name) => assert_eq!(name, "base"),
                other => panic!("expected a variable, got {:?}", other),
            }
            assert!(matches!(&*r.x, ExprX::Num(8)));
        }
        other => panic!("expected an addition, got {:?}", other),
    }
}

#[test]
fn placeholder_value_is_never_zero() {
    let ral = parse(&"register r { a: 0 b: _ }".to_string()).expect("must parse");
    match &ral.registers[0].1 {
        RalEntry::RawRegister(r) => {
            assert_eq!(r.x.mappings[0].1.x, FieldValue::Num(0));
            assert_eq!(r.x.mappings[1].1.x, FieldValue::Placeholder);
            assert_ne!(r.x.mappings[1].1.x, FieldValue::Num(0));
        }
        other => panic!("expected a raw register, got {:?}", other),
    }
}

#[test]
fn placeholder_config_value_is_the_empty_marker() {
    let ral = parse(&"config { a: _ b: 7 }".to_string()).expect("must parse");
    assert_eq!(ral.config.x.entries[0].1.x, "");
    assert_eq!(ral.config.x.entries[1].1.x, "7");
}

#[test]
fn config_expression_value_keeps_its_written_text() {
    let ral = parse(&"config { a: @base + 1 b: word }".to_string()).expect("must parse");
    assert_eq!(ral.config.x.entries[0].1.x, "@base + 1");
    assert_eq!(ral.config.x.entries[1].1.x, "word");
}

#[test]
fn numeric_overflow_is_an_error_not_a_wraparound() {
    let src = "register r { a: 4294967296 }".to_string();
    let errs = parse(&src).expect_err("the literal exceeds the 32-bit range");
    assert!(errs.iter().any(|e| e.kind == ErrorKind::Overflow));
    assert_eq!(parse_u32(&"4294967295".to_string()), Some(u32::MAX));
    assert_eq!(parse_u32(&"4294967296".to_string()), None);
}

#[test]
fn duplicate_register_names_are_rejected() {
    let src = "register a { } register a { }".to_string();
    let errs = parse(&src).expect_err("the duplicate must be rejected");
    assert!(errs.iter().any(|e| e.kind == ErrorKind::DuplicateName));
}

#[test]
fn duplicate_config_keys_are_rejected() {
    let src = "config { k: 1 k: 2 }".to_string();
    let errs = parse(&src).expect_err("the duplicate must be rejected");
    assert!(errs.iter().any(|e| e.kind == ErrorKind::DuplicateKey));
}

#[test]
fn alias_may_not_shadow_a_register() {
    let src = "register a { } alias a: b".to_string();
    let errs = parse(&src).expect_err("the duplicate must be rejected");
    assert_eq!(errs.len(), 1);
    assert_eq!(errs[0].kind, ErrorKind::DuplicateName);
}

#[test]
fn unclosed_block_points_back_at_the_brace() {
    let src = "register r { a: 1".to_string();
    let errs = parse(&src).expect_err("the block is unterminated");
    assert_eq!(errs.len(), 1);
    assert_eq!(errs[0].kind, ErrorKind::UnclosedBrace);
    assert_eq!(&src[errs[0].span.start..errs[0].span.end], "{");
    let (sec_span, _) = errs[0].secondary.as_ref().expect("a note at end of input");
    assert_eq!(sec_span.start, src.len());
}

#[test]
fn register_field_must_be_a_literal_or_placeholder() {
    let src = "register r { a: 1 + 2 }".to_string();
    let errs = parse(&src).expect_err("a computed field value is rejected");
    assert!(errs.iter().any(|e| e.kind == ErrorKind::ExpectedLiteral));
}

#[test]
fn two_independent_errors_give_two_reports() {
    let src = "register 1 { }\nalias x y\nregister ok { a: 2 }".to_string();
    let errs = parse(&src).expect_err("both problems must surface");
    assert_eq!(errs.len(), 2);
    assert!(errs[0].span.start < errs[1].span.start);
    let ral = parse(&"register ok { a: 2 }".to_string()).expect("the good part parses alone");
    assert_eq!(ral.registers.len(), 1);
}

#[test]
fn lexical_and_parse_errors_merge_in_source_order() {
    // The parse error (malformed alias) comes earlier in the text than the
    // lexical error (the stray character): the reported list is merged by
    // source position, not grouped by stage.
    let src = "alias x y\nregister r { a: $ }".to_string();
    let errs = parse(&src).expect_err("both problems must surface");
    assert!(errs.len() >= 2);
    for w in errs.windows(2) {
        assert!(w[0].span.start <= w[1].span.start);
    }
    assert!(errs.iter().any(|e| e.kind == ErrorKind::UnexpectedChar));
    assert!(errs.iter().any(|e| e.kind != ErrorKind::UnexpectedChar));
}

#[test]
fn every_failed_declaration_is_reported() {
    let src = "register 1 { }
alias a b
config x
register ok { }".to_string();
    let errs = parse(&src).expect_err("three regions fail");
    let summary: Vec<_> = errs.iter().map(|e| (e.kind, e.span.start)).collect();
    assert_eq!(errs.len(), 3, "{:?}", summary);
    let ral = parse(&"register ok { }".to_string()).expect("the good part parses alone");
    assert_eq!(ral.registers.len(), 1);
}

#[test]
fn empty_input_parses_to_an_empty_ral() {
    let ral = parse(&"".to_string()).expect("an empty file is a valid file");
    assert_eq!(ral.registers.len(), 0);
    assert_eq!(ral.config.x.entries.len(), 0);
}

#[test]
fn declarations_render_back_to_the_token_stream() {
    let src = EXAMPLE.to_string();
    let (toks, errs) = lex(&src);
    assert!(errs.is_empty());
    let decls = parse_decls(&src, &toks).expect("the example must parse");
    assert_eq!(decls.len(), 4);
    let rendered = render_decls(&src, &decls);
    let expected: Vec<String> = toks.iter().map(|(t, _)| t.render()).collect();
    assert_eq!(rendered, expected);
    assert_eq!(rendered.len(), 27);
}

#[test]
fn rendering_survives_odd_whitespace_and_leading_zeros() {
    let src = "register   r{a:007
 b : _ }".to_string();
    let (toks, errs) = lex(&src);
    assert!(errs.is_empty());
    let decls = parse_decls(&src, &toks).expect("must parse");
    let rendered = render_decls(&src, &decls);
    let expected: Vec<String> = toks.iter().map(|(t, _)| t.render()).collect();
    assert_eq!(rendered, expected);
    assert!(rendered.contains(&"007".to_string()));
}

#[test]
fn config_values_can_be_rewritten_once() {
    let mut ral = parse(&"config { base: @x + 1 }".to_string()).expect("must parse");
    let key = "base".to_string();
    assert!(ral.config.x.set_value(&key, "4097".to_string()));
    let got = ral.config.x.get(&key).expect("the key is present");
    assert_eq!(got.x, "4097");
    assert!(!ral.config.x.set_value(&"absent".to_string(), "1".to_string()));
}

#[test]
fn ral_lookup_finds_entries_by_name() {
    let ral = parse(&EXAMPLE.to_string()).expect("must parse");
    assert!(matches!(
        ral.get(&"ctrl".to_string()),
        Some(RalEntry::RawRegister(_))
    ));
    assert!(matches!(ral.get(&"ctrl2".to_string()), Some(RalEntry::Alias(_))));
    assert!(ral.get(&"missing".to_string()).is_none());
    assert_eq!(ral.len(), 3);
}
