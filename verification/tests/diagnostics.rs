use ral::diag::render_errors;
use ral::parse;

#[test]
fn a_report_shows_the_line_and_the_message() {
    let src = "register r { a: ! }".to_string();
    let errs = parse(&src).expect_err("the bang cannot be lexed");
    let out = render_errors(&src, &errs);
    // The rendered report is a real report, not the message handed back:
    // it quotes the offending line of the source and carries the message.
    assert!(out.contains("register r { a: ! }"));
    assert!(out.contains("unexpected character"));
    assert!(out.len() > errs[0].message.len());
}

#[test]
fn reports_come_in_discovery_order() {
    let src = "alias a b\nregister r {".to_string();
    let errs = parse(&src).expect_err("both problems must surface");
    assert!(errs.len() >= 2);
    let out = render_errors(&src, &errs);
    let first = out.find(&errs[0].message).expect("first message rendered");
    let second = out.find(&errs[1].message).expect("second message rendered");
    assert!(first < second);
}

#[test]
fn an_unclosed_block_report_carries_its_note() {
    let src = "config { a: 1".to_string();
    let errs = parse(&src).expect_err("the block is unterminated");
    let out = render_errors(&src, &errs);
    assert!(out.contains("this block is never closed"));
    assert!(out.contains("expected a closing brace before the end of the input"));
}

#[test]
fn no_errors_render_to_nothing() {
    let src = "register r { }".to_string();
    let out = render_errors(&src, &Vec::new());
    assert_eq!(out, "");
}
