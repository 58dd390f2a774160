//! Front end for a small declarative register-abstraction-layer (RAL)
//! language: a lexer, an expression parser, a declaration parser, and a
//! span-tracking diagnostics substrate. Source text is turned into a fully
//! validated, source-position-annotated syntax tree.

use vstd::prelude::*;

pub mod ast;
pub mod diag;
pub mod lexer;
pub mod parser;
pub mod semantic;

verus! {

/// Interleaves two error lists by the start of their spans, keeping each
/// list's own order, so the rendered reports come out in source order.
fn merge_errors(a: Vec<parser::ParseError>, b: Vec<parser::ParseError>) -> (r: Vec<
    parser::ParseError,
>)
    ensures
        r@ == parser::merge_by_span(a@, b@),
{
    let mut out: Vec<parser::ParseError> = Vec::new();
    let mut aw = a;
    let mut bw = b;
    while aw.len() > 0 || bw.len() > 0
        invariant
            parser::merge_by_span(a@, b@) == out@ + parser::merge_by_span(aw@, bw@),
        decreases aw@.len() + bw@.len(),
    {
        let ghost aw0 = aw@;
        let ghost bw0 = bw@;
        let ghost out0 = out@;
        let take_a = if aw.len() == 0 {
            false
        } else if bw.len() == 0 {
            true
        } else {
            aw[0].span.start <= bw[0].span.start
        };
        if take_a {
            let e = aw.remove(0);
            out.push(e);
            proof {
                assert(aw@ =~= aw0.drop_first());
                if bw0.len() > 0 {
                    assert(parser::merge_by_span(aw0, bw0) == seq![aw0[0]]
                        + parser::merge_by_span(aw0.drop_first(), bw0));
                    assert(out0 + parser::merge_by_span(aw0, bw0) =~= out@ + parser::merge_by_span(
                        aw@,
                        bw@,
                    ));
                } else {
                    assert(out0 + parser::merge_by_span(aw0, bw0) =~= out@ + parser::merge_by_span(
                        aw@,
                        bw@,
                    ));
                }
            }
        } else {
            let e = bw.remove(0);
            out.push(e);
            proof {
                assert(bw@ =~= bw0.drop_first());
                if aw0.len() > 0 {
                    assert(parser::merge_by_span(aw0, bw0) == seq![bw0[0]]
                        + parser::merge_by_span(aw0, bw0.drop_first()));
                    assert(out0 + parser::merge_by_span(aw0, bw0) =~= out@ + parser::merge_by_span(
                        aw@,
                        bw@,
                    ));
                } else {
                    assert(out0 + parser::merge_by_span(aw0, bw0) =~= out@ + parser::merge_by_span(
                        aw@,
                        bw@,
                    ));
                }
            }
        }
    }
    proof {
        assert(out@ + parser::merge_by_span(aw@, bw@) =~= out@);
    }
    out
}

/// Parses a full source text: lexes it, parses the declaration list, and
/// validates it into a `Ral`. A `Ral` comes back exactly when the text
/// lexes without error into a grammatical token stream with no duplicate
/// entry name or configuration key, and it then stands, entry for entry,
/// for the declarations that token stream spells. Otherwise every problem
/// of the run is reported: the lexer's and the parser's errors merged by
/// source position, or the semantic pass's duplicates.
pub fn parse(source: &String) -> (r: Result<ast::Ral, Vec<parser::ParseError>>)
    ensures
        match r {
            Ok(ral) => {
                &&& semantic::ral_wf(source@, ral)
                &&& exists|toks: Seq<(lexer::Token, ast::Span)>, ds: Seq<ast::Decl>|
                    {
                        &&& #[trigger] lexer::lexing_of(source@, toks, Seq::empty())
                        &&& parser::file_ok(toks)
                        &&& #[trigger] parser::decls_wf(source@, ds)
                        &&& parser::decls_texts(ds) == parser::toks_texts(toks)
                        &&& semantic::unique_names(semantic::decls_names(ds))
                        &&& semantic::unique_names(semantic::decls_config_keys(ds))
                        &&& semantic::ral_corresponds(source@, ds, ral)
                    }
            },
            Err(es) => {
                &&& es@.len() > 0
                &&& forall|k: int| 0 <= k < es@.len() ==> (#[trigger] es@[k]).span_wf(source@.len())
                &&& exists|toks: Seq<(lexer::Token, ast::Span)>, lexerrs: Seq<parser::ParseError>|
                    {
                        &&& #[trigger] lexer::lexing_of(source@, toks, lexerrs)
                        &&& if !parser::file_ok(toks) {
                            exists|perrs: Seq<parser::ParseError>|
                                {
                                    &&& perrs.len() > 0
                                    &&& #[trigger] parser::errs_match_regions(
                                        source@,
                                        toks,
                                        parser::error_regions(toks, 0),
                                        perrs,
                                    )
                                    &&& es@ == parser::merge_by_span(lexerrs, perrs)
                                }
                        } else if lexerrs.len() > 0 {
                            es@ == lexerrs
                        } else {
                            exists|ds: Seq<ast::Decl>|
                                {
                                    &&& #[trigger] parser::decls_wf(source@, ds)
                                    &&& parser::decls_texts(ds) == parser::toks_texts(toks)
                                    &&& !(semantic::unique_names(semantic::decls_names(ds))
                                        && semantic::unique_names(
                                        semantic::decls_config_keys(ds),
                                    ))
                                    &&& semantic::dup_errors_ok(source@, es@)
                                }
                        }
                    }
            },
        },
{
    let (toks, lex_errs) = lexer::lex(source);
    let ghost toks_g = toks@;
    let ghost lex_errs_g = lex_errs@;
    proof {
        assert forall|k: int|
            0 <= k < lex_errs@.len() implies (#[trigger] lex_errs@[k]).span_wf(source@.len()) by {
            assert(lexer::genuine_lex_error(source@, lex_errs@[k]));
        }
    }
    match parser::parse_decls(source, &toks) {
        Ok(ds) => {
            let ghost ds_g = ds@;
            if lex_errs.len() > 0 {
                proof {
                    assert(lexer::lexing_of(source@, toks_g, lex_errs_g));
                }
                return Err(lex_errs);
            }
            proof {
                assert(lex_errs_g =~= Seq::<parser::ParseError>::empty());
                assert(lexer::lexing_of(source@, toks_g, Seq::empty()));
            }
            match semantic::ral_of_decls(source, ds) {
                Ok(ral) => Ok(ral),
                Err(es) => {
                    proof {
                        assert(lexer::lexing_of(source@, toks_g, lex_errs_g));
                    }
                    Err(es)
                },
            }
        },
        Err(pes) => {
            let ghost pes_g = pes@;
            proof {
                parser::lemma_merge_by_span_elems(lex_errs_g, pes_g);
            }
            let all = merge_errors(lex_errs, pes);
            proof {
                assert forall|k: int|
                    0 <= k < all@.len() implies (#[trigger] all@[k]).span_wf(source@.len()) by {
                    if lex_errs_g.contains(all@[k]) {
                        let j = choose|j: int|
                            0 <= j < lex_errs_g.len() && lex_errs_g[j] == all@[k];
                        assert(lex_errs_g[j].span_wf(source@.len()));
                    } else {
                        let j = choose|j: int| 0 <= j < pes_g.len() && pes_g[j] == all@[k];
                        assert(pes_g[j].span_wf(source@.len()));
                    }
                }
                assert(lexer::lexing_of(source@, toks_g, lex_errs_g));
            }
            Err(all)
        },
    }
}

} // verus!
