//! The AST / span model: every node carries the source text it came from
//! together with a half-open range locating it there, so a diagnostic can
//! recover the exact source context of any node.

use vstd::prelude::*;

verus! {

/// A half-open range `[start, end)` of positions into an associated source
/// text. Positions count characters; on ASCII text they coincide with byte
/// offsets. A pure value: it never owns text.
#[derive(Debug, Clone, Copy, PartialEq, Eq, Structural)]
pub struct Span {
    pub start: usize,
    pub end: usize,
}

impl Span {
    pub open spec fn spec_new(start: usize, end: usize) -> Span {
        Span { start, end }
    }

    #[verifier::when_used_as_spec(spec_new)]
    pub fn new(start: usize, end: usize) -> (r: Span)
        ensures
            r == Span::spec_new(start, end),
    {
        Span { start, end }
    }

    /// A span is well formed for a text of length `n` when it is ordered and
    /// stays inside the text.
    pub open spec fn wf(self, n: nat) -> bool {
        self.start <= self.end <= n
    }
}

/// An AST payload together with the full source text it was parsed from and
/// the span locating the payload within that text.
#[derive(Debug, Clone)]
pub struct Spanned<T> {
    pub source: String,
    pub x: T,
    pub span: Span,
}

impl<T> Spanned<T> {
    /// The span indexes validly into the referenced text: no dangling or
    /// out-of-range spans.
    pub open spec fn span_wf(self) -> bool {
        self.span.wf(self.source@.len())
    }

    /// What the span covers of the source: exactly the text that generated
    /// the payload.
    pub open spec fn slice(self) -> Seq<char> {
        self.source@.subrange(self.span.start as int, self.span.end as int)
    }

    pub fn new(source: &String, x: T, span: Span) -> (r: Spanned<T>)
        ensures
            r.source@ == source@,
            r.x == x,
            r.span == span,
    {
        Spanned { source: source.clone(), x, span }
    }
}

/// The two arithmetic operators the expression language offers. They share
/// one precedence level and chain to the left.
#[derive(Debug, Copy, Clone, PartialEq, Eq, Structural)]
pub enum BinaryOp {
    Add,
    Subtract,
}

/// An arithmetic expression: an unsigned 32-bit literal, a reference to a
/// configuration variable, or a binary operation over two spanned
/// subexpressions. Nodes own their children through reference-counted
/// pointers, so subtrees may be shared without copying.
#[derive(Debug, Clone)]
pub enum ExprX {
    Num(u32),
    Var(String),
    Binary(BinaryOp, Spanned<Expr>, Spanned<Expr>),
}

pub type Expr = std::sync::Arc<ExprX>;

/// The value on the right of a register field mapping: either an unsigned
/// 32-bit value or the explicit placeholder written `_`, which marks a field
/// intentionally left unset and is distinct from zero.
#[derive(Debug, Clone, Copy, PartialEq, Eq, Structural)]
pub enum FieldValue {
    Num(u32),
    Placeholder,
}

/// A register definition: a spanned name and an ordered sequence of
/// (spanned field name, spanned value) mappings. Order is preserved because
/// field declaration order may affect downstream bit-layout generation;
/// field names need not be unique at the parser level.
#[derive(Debug, Clone)]
pub struct Register {
    pub name: Spanned<String>,
    pub mappings: Vec<(Spanned<String>, Spanned<FieldValue>)>,
}

/// The value on the right of a configuration entry, as written: the
/// placeholder `_`, a bare word, or an arithmetic expression. A later pass
/// renders it back to text; keeping the form preserves the written tokens.
#[derive(Debug, Clone)]
pub enum ConfigValue {
    Placeholder(Span),
    Word(Spanned<String>),
    Expression(Spanned<Expr>),
}

/// One top-level declaration, in the order and shape it was written.
#[derive(Debug, Clone)]
pub enum Decl {
    ConfigBlock(Spanned<Vec<(Spanned<String>, ConfigValue)>>),
    RegisterBlock(Spanned<Register>),
    AliasDecl(Spanned<String>, Spanned<String>),
    RestrictedDecl(Spanned<String>, Spanned<String>, Spanned<String>),
}

/// The global configuration block: spanned string keys mapped to spanned
/// string values. Keys are unique; insertion order carries no meaning. A
/// later resolution pass may rewrite a value in place, exactly once.
#[derive(Debug, Clone)]
pub struct Config {
    pub entries: Vec<(Spanned<String>, Spanned<String>)>,
}

/// One named top-level entry: a full register definition, an unrestricted
/// alias of another entry, or an alias carrying an access restriction.
#[derive(Debug, Clone)]
pub enum RalEntry {
    RawRegister(Spanned<Register>),
    Alias(Spanned<String>),
    RestrictedAlias(Spanned<String>, Spanned<String>),
}

/// The root of the tree: one spanned configuration block and the named
/// entries, keyed by their unique names, in declaration order.
#[derive(Debug, Clone)]
pub struct Ral {
    pub config: Spanned<Config>,
    pub registers: Vec<(String, RalEntry)>,
}

impl Config {
    /// An empty configuration.
    pub fn new() -> (r: Config)
        ensures
            r.entries@.len() == 0,
    {
        Config { entries: Vec::new() }
    }

    pub fn len(&self) -> (r: usize)
        ensures
            r == self.entries@.len(),
    {
        self.entries.len()
    }

    /// The spanned value stored under the key, if the key is present.
    pub fn get(&self, key: &String) -> (r: Option<&Spanned<String>>)
        ensures
            match r {
                Some(v) => exists|k: int|
                    0 <= k < self.entries@.len() && (#[trigger] self.entries@[k]).0.x@ == key@ && *v
                        == self.entries@[k].1,
                None => forall|k: int|
                    0 <= k < self.entries@.len() ==> (#[trigger] self.entries@[k]).0.x@ != key@,
            },
    {
        let mut k: usize = 0;
        while k < self.entries.len()
            invariant
                k <= self.entries@.len(),
                forall|p: int| 0 <= p < k ==> (#[trigger] self.entries@[p]).0.x@ != key@,
            decreases self.entries@.len() - k,
        {
            if self.entries[k].0.x == *key {
                return Some(&self.entries[k].1);
            }
            k = k + 1;
        }
        None
    }

    /// Rewrites the value stored under the key in place — the single
    /// later mutation the resolution pass performs — keeping the key, the
    /// value's span and source handle, and every other entry unchanged.
    /// Returns whether the key was present.
    pub fn set_value(&mut self, key: &String, value: String) -> (b: bool)
        ensures
            b == exists|k: int|
                0 <= k < old(self).entries@.len() && (#[trigger] old(self).entries@[k]).0.x@
                    == key@,
            b ==> exists|k: int|
                {
                    &&& 0 <= k < old(self).entries@.len()
                    &&& (#[trigger] old(self).entries@[k]).0.x@ == key@
                    &&& final(self).entries@.len() == old(self).entries@.len()
                    &&& final(self).entries@[k].0 == old(self).entries@[k].0
                    &&& final(self).entries@[k].1.x@ == value@
                    &&& final(self).entries@[k].1.span == old(self).entries@[k].1.span
                    &&& final(self).entries@[k].1.source == old(self).entries@[k].1.source
                    &&& forall|j: int|
                        0 <= j < old(self).entries@.len() && j != k
                            ==> final(self).entries@[j] == old(self).entries@[j]
                },
            !b ==> *final(self) == *old(self),
    {
        let mut k: usize = 0;
        while k < self.entries.len()
            invariant
                k <= self.entries@.len(),
                *self == *old(self),
                forall|p: int| 0 <= p < k ==> (#[trigger] self.entries@[p]).0.x@ != key@,
            decreases self.entries@.len() - k,
        {
            if self.entries[k].0.x == *key {
                let mut en = self.entries.remove(k);
                en.1.x = value;
                self.entries.insert(k, en);
                proof {
                    assert forall|j: int|
                        0 <= j < old(self).entries@.len() && j != k implies self.entries@[j]
                        == old(self).entries@[j] by {
                        if j < k {
                            assert(self.entries@[j] == old(self).entries@.remove(k as int).insert(
                                k as int,
                                en,
                            )[j]);
                        }
                    }
                }
                return true;
            }
            k = k + 1;
        }
        false
    }
}

impl Ral {
    pub fn len(&self) -> (r: usize)
        ensures
            r == self.registers@.len(),
    {
        self.registers.len()
    }

    /// The entry declared under the name, if any.
    pub fn get(&self, name: &String) -> (r: Option<&RalEntry>)
        ensures
            match r {
                Some(e) => exists|k: int|
                    0 <= k < self.registers@.len() && (#[trigger] self.registers@[k]).0@ == name@
                        && *e == self.registers@[k].1,
                None => forall|k: int|
                    0 <= k < self.registers@.len() ==> (#[trigger] self.registers@[k]).0@ != name@,
            },
    {
        let mut k: usize = 0;
        while k < self.registers.len()
            invariant
                k <= self.registers@.len(),
                forall|p: int| 0 <= p < k ==> (#[trigger] self.registers@[p]).0@ != name@,
            decreases self.registers@.len() - k,
        {
            if self.registers[k].0 == *name {
                return Some(&self.registers[k].1);
            }
            k = k + 1;
        }
        None
    }
}

/// The target selector a downstream code generator is given along with a
/// validated `Ral`.
#[derive(Debug, Clone, Copy, PartialEq, Eq, Structural)]
pub enum Output {
    C,
    Rust,
}

} // verus!
