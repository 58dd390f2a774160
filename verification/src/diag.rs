//! The diagnostics reporter: turns accumulated errors into rendered,
//! span-anchored reports. Each report shows the offending line, an
//! underline for the exact range, and the message; a secondary labelled
//! span is added when an error involves two locations. Reports of one run
//! are concatenated in the order the errors were discovered.

use vstd::prelude::*;
use crate::parser::ParseError;

verus! {

/// What one rendered report looks like: a function of the source text,
/// the message, the primary span and the labels alone.
pub uninterp spec fn rendered_report(
    src: Seq<char>,
    msg: Seq<char>,
    start: int,
    end: int,
    labels: Seq<(int, int, Seq<char>)>,
) -> Seq<char>;

pub open spec fn labels_view(ls: Seq<(usize, usize, String)>) -> Seq<(int, int, Seq<char>)> {
    ls.map_values(|p: (usize, usize, String)| (p.0 as int, p.1 as int, p.2@))
}

/// Relies on ariadne's Report::write: with colour switched off, building
/// a report and writing it to a buffer is deterministic in the message,
/// the primary span, the labels and the source text, and label spans are
/// zero-indexed character offsets. The writer always emits the header
/// line first, so the output is never empty. Label::new panics on a
/// backwards span and the writer walks the source's lines, so every span
/// handed over must be ordered and in bounds.
#[verifier::external_body]
fn render_report(
    source: &String,
    msg: &String,
    start: usize,
    end: usize,
    labels: &Vec<(usize, usize, String)>,
) -> (r: String)
    requires
        start <= end <= source@.len(),
        forall|k: int|
            0 <= k < labels@.len() ==> (#[trigger] labels@[k]).0 <= labels@[k].1 <= source@.len(),
    ensures
        r@ == rendered_report(source@, msg@, start as int, end as int, labels_view(labels@)),
        r@.len() > 0,
{
    let mut rb = ariadne::Report::build(ariadne::ReportKind::Error, start..end).with_config(
        ariadne::Config::default().with_color(false),
    ).with_message(msg);
    for (ls, le, lm) in labels.iter() {
        rb = rb.with_label(ariadne::Label::new(*ls..*le).with_message(lm));
    }
    let mut buf: Vec<u8> = Vec::new();
    let _ = rb.finish().write(ariadne::Source::from(source.as_str()), &mut buf);
    String::from_utf8(buf).unwrap_or(String::new())
}

/// The labels one error renders with: its own span and message first,
/// then the secondary labelled span if it carries one.
pub open spec fn labels_of(e: ParseError) -> Seq<(int, int, Seq<char>)> {
    let base = seq![(e.span.start as int, e.span.end as int, e.message@)];
    match e.secondary {
        Some(sec) => base.push((sec.0.start as int, sec.0.end as int, sec.1@)),
        None => base,
    }
}

/// The whole rendered output of a run: one report per error, concatenated
/// in discovery order.
pub open spec fn rendered_all(src: Seq<char>, errs: Seq<ParseError>) -> Seq<char>
    decreases errs.len(),
{
    if errs.len() == 0 {
        Seq::empty()
    } else {
        rendered_all(src, errs.drop_last()) + rendered_report(
            src,
            errs.last().message@,
            errs.last().span.start as int,
            errs.last().span.end as int,
            labels_of(errs.last()),
        )
    }
}

/// Renders every diagnostic of a run against its source, one report after
/// another, in the order the errors were discovered.
pub fn render_errors(source: &String, errs: &Vec<ParseError>) -> (r: String)
    requires
        forall|k: int| 0 <= k < errs@.len() ==> (#[trigger] errs@[k]).span_wf(source@.len()),
    ensures
        r@ == rendered_all(source@, errs@),
        errs@.len() > 0 ==> r@.len() > 0,
{
    let mut out = String::new();
    let mut k: usize = 0;
    proof {
        assert(errs@.subrange(0, 0) =~= Seq::<ParseError>::empty());
    }
    while k < errs.len()
        invariant
            k <= errs@.len(),
            forall|j: int| 0 <= j < errs@.len() ==> (#[trigger] errs@[j]).span_wf(source@.len()),
            out@ == rendered_all(source@, errs@.subrange(0, k as int)),
            k > 0 ==> out@.len() > 0,
        decreases errs@.len() - k,
    {
        let e = &errs[k];
        let mut labels: Vec<(usize, usize, String)> = Vec::new();
        labels.push((e.span.start, e.span.end, e.message.clone()));
        match &e.secondary {
            Some(sec) => {
                labels.push((sec.0.start, sec.0.end, sec.1.clone()));
            },
            None => {},
        }
        proof {
            assert(labels_view(labels@) =~~= labels_of(errs@[k as int]));
        }
        let piece = render_report(source, &e.message, e.span.start, e.span.end, &labels);
        out.append(piece.as_str());
        proof {
            assert(errs@.subrange(0, k + 1).drop_last() =~= errs@.subrange(0, k as int));
            assert(errs@.subrange(0, k + 1).last() == errs@[k as int]);
        }
        k = k + 1;
    }
    proof {
        assert(errs@.subrange(0, errs@.len() as int) =~= errs@);
    }
    out
}

} // verus!
