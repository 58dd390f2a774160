//! The semantic pass: turns a parsed declaration list into the root `Ral`
//! value, rejecting duplicate top-level entry names and duplicate
//! configuration keys. Duplicates are detected after parsing and reported
//! together; an entry is never silently merged or overwritten.

use vstd::prelude::*;
use crate::ast::{Config, ConfigValue, Decl, Ral, RalEntry, Span, Spanned};
use crate::parser::{
    config_value_wf, decl_wf, decls_wf, register_wf, spanned_str_wf, ErrorKind, ParseError,
};

verus! {

/// The name a declaration binds at the top level, if any: a configuration
/// block binds none.
pub open spec fn decl_name(d: Decl) -> Option<Seq<char>> {
    match d {
        Decl::ConfigBlock(_) => None,
        Decl::RegisterBlock(r) => Some(r.x.name.x@),
        Decl::AliasDecl(n, _) => Some(n.x@),
        Decl::RestrictedDecl(n, _, _) => Some(n.x@),
    }
}

/// The top-level names a declaration list binds, in declaration order.
pub open spec fn decls_names(ds: Seq<Decl>) -> Seq<Seq<char>>
    decreases ds.len(),
{
    if ds.len() == 0 {
        Seq::empty()
    } else {
        decls_names(ds.drop_last()) + (match decl_name(ds.last()) {
            Some(n) => seq![n],
            None => Seq::<Seq<char>>::empty(),
        })
    }
}

/// The named declarations themselves, in order.
pub open spec fn named_decls(ds: Seq<Decl>) -> Seq<Decl>
    decreases ds.len(),
{
    if ds.len() == 0 {
        Seq::empty()
    } else {
        named_decls(ds.drop_last()) + (match decl_name(ds.last()) {
            Some(_) => seq![ds.last()],
            None => Seq::<Decl>::empty(),
        })
    }
}

pub open spec fn entry_keys(es: Seq<(Spanned<String>, ConfigValue)>) -> Seq<Seq<char>>
    decreases es.len(),
{
    if es.len() == 0 {
        Seq::empty()
    } else {
        entry_keys(es.drop_last()).push(es.last().0.x@)
    }
}

/// The configuration keys a declaration list carries, in order, across all
/// of its configuration blocks.
pub open spec fn decls_config_keys(ds: Seq<Decl>) -> Seq<Seq<char>>
    decreases ds.len(),
{
    if ds.len() == 0 {
        Seq::empty()
    } else {
        decls_config_keys(ds.drop_last()) + (match ds.last() {
            Decl::ConfigBlock(c) => entry_keys(c.x@),
            _ => Seq::<Seq<char>>::empty(),
        })
    }
}

/// The configuration entries a declaration list carries, flattened in
/// order.
pub open spec fn decls_config_entries(ds: Seq<Decl>) -> Seq<(Spanned<String>, ConfigValue)>
    decreases ds.len(),
{
    if ds.len() == 0 {
        Seq::empty()
    } else {
        decls_config_entries(ds.drop_last()) + (match ds.last() {
            Decl::ConfigBlock(c) => c.x@,
            _ => Seq::<(Spanned<String>, ConfigValue)>::empty(),
        })
    }
}

/// No name occurs twice.
pub open spec fn unique_names(ns: Seq<Seq<char>>) -> bool {
    forall|i: int, j: int| 0 <= i < j < ns.len() ==> ns[i] != ns[j]
}

/// The text a configuration value is stored as: the placeholder becomes
/// the empty marker, a word its own text, an expression the source text
/// its span covers, kept faithfully for a later resolution pass.
pub open spec fn config_value_text(v: ConfigValue) -> Seq<char> {
    match v {
        ConfigValue::Placeholder(_) => Seq::empty(),
        ConfigValue::Word(w) => w.x@,
        ConfigValue::Expression(e) => e.slice(),
    }
}

pub open spec fn config_value_span(v: ConfigValue) -> Span {
    match v {
        ConfigValue::Placeholder(sp) => sp,
        ConfigValue::Word(w) => w.span,
        ConfigValue::Expression(e) => e.span,
    }
}

/// The entry stands for the named declaration: a register block becomes a
/// raw register under its name, an alias its target, a restricted alias
/// its target and restriction.
pub open spec fn entry_of_decl(d: Decl, name: String, e: RalEntry) -> bool {
    match d {
        Decl::ConfigBlock(_) => false,
        Decl::RegisterBlock(r) => name@ == r.x.name.x@ && e == RalEntry::RawRegister(r),
        Decl::AliasDecl(n, t) => name@ == n.x@ && e == RalEntry::Alias(t),
        Decl::RestrictedDecl(n, t, rs) => name@ == n.x@ && e == RalEntry::RestrictedAlias(t, rs),
    }
}

pub open spec fn ral_entry_wf(src: Seq<char>, e: RalEntry) -> bool {
    match e {
        RalEntry::RawRegister(r) => register_wf(src, r),
        RalEntry::Alias(t) => spanned_str_wf(src, t),
        RalEntry::RestrictedAlias(t, rs) => spanned_str_wf(src, t) && spanned_str_wf(src, rs),
    }
}

/// Structural well-formedness of a finished `Ral`: every node is faithful
/// to the source at its span, entry names are unique, and configuration
/// keys are unique.
pub open spec fn ral_wf(src: Seq<char>, ral: Ral) -> bool {
    &&& ral.config.source@ == src
    &&& ral.config.span.wf(src.len())
    &&& forall|k: int|
        0 <= k < ral.config.x.entries@.len() ==> spanned_str_wf(
            src,
            (#[trigger] ral.config.x.entries@[k]).0,
        ) && ral.config.x.entries@[k].1.source@ == src && ral.config.x.entries@[k].1.span.wf(
            src.len(),
        )
    &&& forall|i: int, j: int|
        0 <= i < j < ral.config.x.entries@.len() ==> ral.config.x.entries@[i].0.x@
            != ral.config.x.entries@[j].0.x@
    &&& forall|k: int| 0 <= k < ral.registers@.len() ==> ral_entry_wf(src, (#[trigger] ral.registers@[k]).1)
    &&& forall|i: int, j: int|
        0 <= i < j < ral.registers@.len() ==> ral.registers@[i].0@ != ral.registers@[j].0@
}

/// The finished `Ral` stands for the declaration list, entry for entry:
/// every named declaration becomes the entry under its name, in order,
/// and the flattened configuration entries keep their keys and spans with
/// their values rendered to text.
pub open spec fn ral_corresponds(src: Seq<char>, ds: Seq<Decl>, ral: Ral) -> bool {
    &&& ral.registers@.len() == decls_names(ds).len()
    &&& named_decls(ds).len() == decls_names(ds).len()
    &&& forall|k: int|
        0 <= k < ral.registers@.len() ==> (#[trigger] ral.registers@[k]).0@ == decls_names(ds)[k]
            && entry_of_decl(named_decls(ds)[k], ral.registers@[k].0, ral.registers@[k].1)
    &&& ral.config.x.entries@.len() == decls_config_entries(ds).len()
    &&& forall|k: int|
        0 <= k < ral.config.x.entries@.len() ==> (#[trigger] ral.config.x.entries@[k]).0
            == decls_config_entries(ds)[k].0 && ral.config.x.entries@[k].1.x@ == config_value_text(
            decls_config_entries(ds)[k].1,
        ) && ral.config.x.entries@[k].1.span == config_value_span(decls_config_entries(ds)[k].1)
}

/// What the semantic pass reports on failure: a non-empty list of
/// duplicate-name and duplicate-key errors with valid spans.
pub open spec fn dup_errors_ok(src: Seq<char>, es: Seq<ParseError>) -> bool {
    &&& es.len() > 0
    &&& forall|k: int|
        0 <= k < es.len() ==> (#[trigger] es[k]).span_wf(src.len()) && (es[k].kind
            == ErrorKind::DuplicateName || es[k].kind == ErrorKind::DuplicateKey)
}

proof fn lemma_unique_append_one(ns: Seq<Seq<char>>, x: Seq<char>)
    ensures
        unique_names(ns + seq![x]) <==> (unique_names(ns) && !ns.contains(x)),
{
    let ns1 = ns + seq![x];
    assert(ns1.len() == ns.len() + 1);
    assert(forall|k: int| 0 <= k < ns.len() ==> ns1[k] == #[trigger] ns[k]);
    assert(ns1[ns.len() as int] == x);
    if unique_names(ns1) {
        assert forall|k: int| 0 <= k < ns.len() implies ns[k] != x by {
            assert(ns1[k] != ns1[ns.len() as int]);
        }
        assert(!ns.contains(x));
    }
    if unique_names(ns) && !ns.contains(x) {
        assert forall|i: int, j: int| 0 <= i < j < ns1.len() implies ns1[i] != ns1[j] by {
            if j < ns.len() {
                assert(ns[i] != ns[j]);
            } else {
                assert(!(ns[i] == x));
            }
        }
    }
}

/// Does any entry already carry this name?
fn names_contains(rs: &Vec<(String, RalEntry)>, name: &String) -> (b: bool)
    ensures
        b == exists|k: int| 0 <= k < rs@.len() && (#[trigger] rs@[k]).0@ == name@,
{
    let mut k: usize = 0;
    while k < rs.len()
        invariant
            k <= rs@.len(),
            forall|p: int| 0 <= p < k ==> (#[trigger] rs@[p]).0@ != name@,
        decreases rs@.len() - k,
    {
        if rs[k].0 == *name {
            return true;
        }
        k = k + 1;
    }
    false
}

/// Does any configuration entry already carry this key?
fn keys_contains(es: &Vec<(Spanned<String>, Spanned<String>)>, key: &String) -> (b: bool)
    ensures
        b == exists|k: int| 0 <= k < es@.len() && (#[trigger] es@[k]).0.x@ == key@,
{
    let mut k: usize = 0;
    while k < es.len()
        invariant
            k <= es@.len(),
            forall|p: int| 0 <= p < k ==> (#[trigger] es@[p]).0.x@ != key@,
        decreases es@.len() - k,
    {
        if es[k].0.x == *key {
            return true;
        }
        k = k + 1;
    }
    false
}

proof fn lemma_entry_keys_elems(es: Seq<(Spanned<String>, ConfigValue)>)
    ensures
        entry_keys(es).len() == es.len(),
        forall|k: int| 0 <= k < es.len() ==> #[trigger] entry_keys(es)[k] == es[k].0.x@,
    decreases es.len(),
{
    if es.len() > 0 {
        lemma_entry_keys_elems(es.drop_last());
        assert(forall|k: int| 0 <= k < es.len() - 1 ==> es.drop_last()[k] == #[trigger] es[k]);
    }
}

proof fn lemma_config_seqs_elems(ds: Seq<Decl>)
    ensures
        decls_config_keys(ds).len() == decls_config_entries(ds).len(),
        forall|k: int|
            0 <= k < decls_config_keys(ds).len() ==> #[trigger] decls_config_keys(ds)[k]
                == decls_config_entries(ds)[k].0.x@,
    decreases ds.len(),
{
    if ds.len() > 0 {
        lemma_config_seqs_elems(ds.drop_last());
        match ds.last() {
            Decl::ConfigBlock(c) => {
                lemma_entry_keys_elems(c.x@);
            },
            _ => {},
        }
    }
}

/// The span the stored configuration value keeps: where the value was
/// written.
fn cv_span(v: &ConfigValue) -> (r: Span)
    ensures
        r == config_value_span(*v),
{
    match v {
        ConfigValue::Placeholder(sp) => *sp,
        ConfigValue::Word(w) => w.span,
        ConfigValue::Expression(e) => e.span,
    }
}

/// The text the configuration value is stored as: the placeholder becomes
/// the empty marker, a word its own text, an expression the exact source
/// text its span covers.
fn config_value_string(source: &String, v: &ConfigValue) -> (r: String)
    requires
        config_value_wf(source@, *v),
    ensures
        r@ == config_value_text(*v),
{
    match v {
        ConfigValue::Placeholder(_) => String::new(),
        ConfigValue::Word(w) => w.x.clone(),
        ConfigValue::Expression(e) => source.as_str().substring_char(
            e.span.start,
            e.span.end,
        ).to_owned(),
    }
}

/// Builds the root `Ral` from a declaration list: every named declaration
/// becomes an entry under its name, in declaration order, and every
/// configuration entry is flattened into the one configuration mapping,
/// its value rendered to text. Succeeds exactly when no top-level name
/// and no configuration key is declared twice; otherwise every duplicate
/// is reported, and nothing is silently merged.
#[verifier::loop_isolation(false)]
#[verifier::rlimit(100)]
pub fn ral_of_decls(source: &String, ds: Vec<Decl>) -> (r: Result<Ral, Vec<ParseError>>)
    requires
        decls_wf(source@, ds@),
    ensures
        match r {
            Ok(ral) => {
                &&& unique_names(decls_names(ds@))
                &&& unique_names(decls_config_keys(ds@))
                &&& ral_wf(source@, ral)
                &&& ral_corresponds(source@, ds@, ral)
            },
            Err(es) => {
                &&& !(unique_names(decls_names(ds@)) && unique_names(decls_config_keys(ds@)))
                &&& dup_errors_ok(source@, es@)
            },
        },
{
    let n = ds.len();
    let mut work = ds;
    let ghost dsg = work@;
    let mut regs: Vec<(String, RalEntry)> = Vec::new();
    let mut centries: Vec<(Spanned<String>, Spanned<String>)> = Vec::new();
    let mut errs: Vec<ParseError> = Vec::new();
    let mut cspan: Option<Span> = None;
    let mut d: usize = 0;
    proof {
        assert(dsg.subrange(0, 0) =~= Seq::<Decl>::empty());
        assert(work@ =~= dsg.subrange(0, n as int));
    }
    while d < n
        invariant
            d <= n,
            work@ == dsg.subrange(d as int, n as int),
            errs@.len() == 0 <==> (unique_names(decls_names(dsg.subrange(0, d as int)))
                && unique_names(decls_config_keys(dsg.subrange(0, d as int)))),
            regs@.len() == decls_names(dsg.subrange(0, d as int)).len(),
            named_decls(dsg.subrange(0, d as int)).len() == regs@.len(),
            forall|k: int|
                0 <= k < regs@.len() ==> (#[trigger] regs@[k]).0@ == decls_names(
                    dsg.subrange(0, d as int),
                )[k] && entry_of_decl(
                    named_decls(dsg.subrange(0, d as int))[k],
                    regs@[k].0,
                    regs@[k].1,
                ) && ral_entry_wf(source@, regs@[k].1),
            centries@.len() == decls_config_entries(dsg.subrange(0, d as int)).len(),
            forall|k: int|
                0 <= k < centries@.len() ==> (#[trigger] centries@[k]).0 == decls_config_entries(
                    dsg.subrange(0, d as int),
                )[k].0 && centries@[k].1.x@ == config_value_text(
                    decls_config_entries(dsg.subrange(0, d as int))[k].1,
                ) && centries@[k].1.span == config_value_span(
                    decls_config_entries(dsg.subrange(0, d as int))[k].1,
                ) && centries@[k].1.source@ == source@ && spanned_str_wf(source@, centries@[k].0)
                    && centries@[k].1.span.wf(source@.len()),
            match cspan {
                Some(sp) => sp.wf(source@.len()),
                None => true,
            },
            forall|k: int|
                0 <= k < errs@.len() ==> (#[trigger] errs@[k]).span_wf(source@.len()) && (errs@[
                    k].kind == ErrorKind::DuplicateName || errs@[k].kind == ErrorKind::DuplicateKey),
        decreases n - d,
    {
        let ghost processed = dsg.subrange(0, d as int);
        let ghost processed1 = dsg.subrange(0, d + 1);
        proof {
            assert(processed1.drop_last() =~= processed);
            assert(processed1.last() == dsg[d as int]);
            assert(decl_wf(source@, dsg[d as int]));
            assert(work@[0] == dsg[d as int]);
        }
        let dd = work.remove(0);
        proof {
            assert(work@ =~= dsg.subrange(d + 1, n as int));
        }
        match dd {
            Decl::ConfigBlock(c) => {
                let csp_here = c.span;
                if cspan.is_none() {
                    cspan = Some(csp_here);
                }
                let cx = c.x;
                let ghost cx0 = cx@;
                let m = cx.len();
                let mut cxwork = cx;
                let mut t: usize = 0;
                proof {
                    assert(cxwork@ =~= cx0.subrange(0, m as int));
                    assert(cx0.subrange(0, 0) =~= Seq::<(Spanned<String>, ConfigValue)>::empty());
                    assert(decls_config_keys(processed) + entry_keys(cx0.subrange(0, 0)) =~= decls_config_keys(processed));
                    assert(decls_config_entries(processed) + cx0.subrange(0, 0) =~= decls_config_entries(processed));
                }
                while t < m
                    invariant
                        t <= m,
                        cxwork@ == cx0.subrange(t as int, m as int),
                        errs@.len() == 0 <==> (unique_names(decls_names(processed))
                            && unique_names(
                            decls_config_keys(processed) + entry_keys(cx0.subrange(0, t as int)),
                        )),
                        centries@.len() == decls_config_entries(processed).len() + t,
                        forall|k: int|
                            0 <= k < centries@.len() ==> (#[trigger] centries@[k]).0 == (
                            decls_config_entries(processed) + cx0.subrange(0, t as int))[k].0
                                && centries@[k].1.x@ == config_value_text(
                                (decls_config_entries(processed) + cx0.subrange(0, t as int))[k].1,
                            ) && centries@[k].1.span == config_value_span(
                                (decls_config_entries(processed) + cx0.subrange(0, t as int))[k].1,
                            ) && centries@[k].1.source@ == source@ && spanned_str_wf(
                                source@,
                                centries@[k].0,
                            ) && centries@[k].1.span.wf(source@.len()),
                        forall|k: int|
                            0 <= k < errs@.len() ==> (#[trigger] errs@[k]).span_wf(source@.len())
                                && (errs@[k].kind == ErrorKind::DuplicateName || errs@[k].kind
                                == ErrorKind::DuplicateKey),
                    decreases m - t,
                {
                    let ghost keys_part = decls_config_keys(processed) + entry_keys(
                        cx0.subrange(0, t as int),
                    );
                    let ghost dce_part = decls_config_entries(processed) + cx0.subrange(
                        0,
                        t as int,
                    );
                    proof {
                        assert(cxwork@[0] == cx0[t as int]);
                        assert(cx0.subrange(0, t + 1).drop_last() =~= cx0.subrange(0, t as int));
                        assert(cx0.subrange(0, t + 1).last() == cx0[t as int]);
                    }
                    let en = cxwork.remove(0);
                    proof {
                        assert(cxwork@ =~= cx0.subrange(t + 1, m as int));
                        lemma_entry_keys_elems(cx0.subrange(0, t as int));
                        lemma_config_seqs_elems(processed);
                    }
                    let dup = keys_contains(&centries, &en.0.x);
                    proof {
                        assert(dup == keys_part.contains(en.0.x@)) by {
                            if dup {
                                let k = choose|k: int|
                                    0 <= k < centries@.len() && (#[trigger] centries@[k]).0.x@
                                        == en.0.x@;
                                assert(keys_part[k] == centries@[k].0.x@);
                            }
                            if keys_part.contains(en.0.x@) {
                                let k = choose|k: int|
                                    0 <= k < keys_part.len() && keys_part[k] == en.0.x@;
                                assert(centries@[k].0.x@ == keys_part[k]);
                            }
                        }
                        lemma_unique_append_one(keys_part, en.0.x@);
                        assert(keys_part + seq![en.0.x@] =~= decls_config_keys(processed)
                            + entry_keys(cx0.subrange(0, t + 1)));
                        assert(dce_part + seq![cx0[t as int]] =~= decls_config_entries(processed)
                            + cx0.subrange(0, t + 1));
                    }
                    if dup {
                        errs.push(
                            ParseError::new(
                                ErrorKind::DuplicateKey,
                                en.0.span,
                                String::from_str(
                                    "this configuration key is declared more than once",
                                ),
                            ),
                        );
                    }
                    let vs = config_value_string(source, &en.1);
                    let vsp = cv_span(&en.1);
                    centries.push((en.0, Spanned::new(source, vs, vsp)));
                    t = t + 1;
                }
                proof {
                    assert(cx0.subrange(0, m as int) =~= cx0);
                    assert(decls_names(processed1) =~= decls_names(processed));
                    assert(named_decls(processed1) =~= named_decls(processed));
                    assert(decls_config_keys(processed1) =~= decls_config_keys(processed)
                        + entry_keys(cx0));
                    assert(decls_config_entries(processed1) =~= decls_config_entries(processed)
                        + cx0);
                }
            },
            Decl::RegisterBlock(rr) => {
                let nm = rr.x.name.x.clone();
                let nspan = rr.x.name.span;
                let dup = names_contains(&regs, &nm);
                let ghost names_p = decls_names(processed);
                proof {
                    assert(dup == names_p.contains(nm@)) by {
                        if dup {
                            let k = choose|k: int|
                                0 <= k < regs@.len() && (#[trigger] regs@[k]).0@ == nm@;
                            assert(names_p[k] == regs@[k].0@);
                        }
                        if names_p.contains(nm@) {
                            let k = choose|k: int|
                                0 <= k < names_p.len() && names_p[k] == nm@;
                            assert(regs@[k].0@ == names_p[k]);
                        }
                    }
                    lemma_unique_append_one(names_p, nm@);
                    assert(decls_names(processed1) =~= names_p + seq![nm@]);
                    assert(named_decls(processed1) =~= named_decls(processed) + seq![
                        dsg[d as int],
                    ]);
                    assert(decls_config_keys(processed1) =~= decls_config_keys(processed));
                    assert(decls_config_entries(processed1) =~= decls_config_entries(processed));
                }
                if dup {
                    errs.push(
                        ParseError::new(
                            ErrorKind::DuplicateName,
                            nspan,
                            String::from_str("this name is declared more than once"),
                        ),
                    );
                }
                regs.push((nm, RalEntry::RawRegister(rr)));
            },
            Decl::AliasDecl(anm, atgt) => {
                let nm = anm.x.clone();
                let nspan = anm.span;
                let dup = names_contains(&regs, &nm);
                let ghost names_p = decls_names(processed);
                proof {
                    assert(dup == names_p.contains(nm@)) by {
                        if dup {
                            let k = choose|k: int|
                                0 <= k < regs@.len() && (#[trigger] regs@[k]).0@ == nm@;
                            assert(names_p[k] == regs@[k].0@);
                        }
                        if names_p.contains(nm@) {
                            let k = choose|k: int|
                                0 <= k < names_p.len() && names_p[k] == nm@;
                            assert(regs@[k].0@ == names_p[k]);
                        }
                    }
                    lemma_unique_append_one(names_p, nm@);
                    assert(decls_names(processed1) =~= names_p + seq![nm@]);
                    assert(named_decls(processed1) =~= named_decls(processed) + seq![
                        dsg[d as int],
                    ]);
                    assert(decls_config_keys(processed1) =~= decls_config_keys(processed));
                    assert(decls_config_entries(processed1) =~= decls_config_entries(processed));
                }
                if dup {
                    errs.push(
                        ParseError::new(
                            ErrorKind::DuplicateName,
                            nspan,
                            String::from_str("this name is declared more than once"),
                        ),
                    );
                }
                regs.push((nm, RalEntry::Alias(atgt)));
            },
            Decl::RestrictedDecl(anm, atgt, arst) => {
                let nm = anm.x.clone();
                let nspan = anm.span;
                let dup = names_contains(&regs, &nm);
                let ghost names_p = decls_names(processed);
                proof {
                    assert(dup == names_p.contains(nm@)) by {
                        if dup {
                            let k = choose|k: int|
                                0 <= k < regs@.len() && (#[trigger] regs@[k]).0@ == nm@;
                            assert(names_p[k] == regs@[k].0@);
                        }
                        if names_p.contains(nm@) {
                            let k = choose|k: int|
                                0 <= k < names_p.len() && names_p[k] == nm@;
                            assert(regs@[k].0@ == names_p[k]);
                        }
                    }
                    lemma_unique_append_one(names_p, nm@);
                    assert(decls_names(processed1) =~= names_p + seq![nm@]);
                    assert(named_decls(processed1) =~= named_decls(processed) + seq![
                        dsg[d as int],
                    ]);
                    assert(decls_config_keys(processed1) =~= decls_config_keys(processed));
                    assert(decls_config_entries(processed1) =~= decls_config_entries(processed));
                }
                if dup {
                    errs.push(
                        ParseError::new(
                            ErrorKind::DuplicateName,
                            nspan,
                            String::from_str("this name is declared more than once"),
                        ),
                    );
                }
                regs.push((nm, RalEntry::RestrictedAlias(atgt, arst)));
            },
        }
        d = d + 1;
    }
    proof {
        assert(dsg.subrange(0, n as int) =~= dsg);
    }
    if errs.len() == 0 {
        let csp = match cspan {
            Some(sp) => sp,
            None => Span::new(0, 0),
        };
        proof {
            lemma_config_seqs_elems(dsg);
            assert forall|i: int, j: int|
                0 <= i < j < regs@.len() implies regs@[i].0@ != regs@[j].0@ by {
                assert(regs@[i].0@ == decls_names(dsg)[i]);
                assert(regs@[j].0@ == decls_names(dsg)[j]);
            }
            assert forall|i: int, j: int|
                0 <= i < j < centries@.len() implies centries@[i].0.x@ != centries@[j].0.x@ by {
                assert(centries@[i].0.x@ == decls_config_entries(dsg)[i].0.x@);
                assert(centries@[j].0.x@ == decls_config_entries(dsg)[j].0.x@);
                assert(decls_config_keys(dsg)[i] != decls_config_keys(dsg)[j]);
            }
        }
        let ral = Ral {
            config: Spanned::new(source, Config { entries: centries }, csp),
            registers: regs,
        };
        Ok(ral)
    } else {
        Err(errs)
    }
}

} // verus!
