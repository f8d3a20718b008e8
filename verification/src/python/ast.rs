//! A Python module as plain values: the statements and expressions that
//! prompt detection reads, with their byte ranges, held in one list in
//! which every node comes after the nodes it holds.
use crate::text::{is_valid_range, utf8, valid_range};
use crate::types::Span;
use vstd::prelude::*;

verus! {

/// A statement or expression of a Python module. Node indices refer to
/// other nodes of the same module.
#[derive(Debug)]
pub enum PyNode {
    /// `targets = value`, with one or more targets.
    Assign { range: Span, targets: Vec<usize>, value: usize },
    /// `target: annotation = value`, the value optional.
    AnnAssign { range: Span, target: usize, value: Option<usize> },
    /// A function definition and the statements nested in it, in order.
    FunctionDef { range: Span, body: Vec<usize> },
    /// A class definition and the statements nested in it, in order.
    ClassDef { range: Span, body: Vec<usize> },
    /// Any other statement, with the statements nested in it, in order.
    OtherStmt { range: Span, body: Vec<usize> },
    /// A string literal, implicitly concatenated parts included, and its value.
    StringLiteral { range: Span, value: String },
    /// An f-string and the ranges of its interpolations, in order.
    FString { range: Span, interpolations: Vec<Span> },
    /// A t-string and the ranges of its interpolations, in order.
    TString { range: Span, interpolations: Vec<Span> },
    /// A name and its identifier.
    Name { range: Span, id: String },
    /// `value.attr`.
    Attribute { range: Span, value: usize, attr: String },
    /// A call of `func` with the positional arguments `args`.
    Call { range: Span, func: usize, args: Vec<usize> },
    /// A binary operation; `add` tells whether the operator is `+`.
    BinOp { range: Span, left: usize, add: bool, right: usize },
    /// A list display.
    List { range: Span, elts: Vec<usize> },
    /// A tuple.
    Tuple { range: Span, elts: Vec<usize> },
    /// A number or boolean literal.
    Primitive { range: Span },
    /// A dict or set display.
    Collection { range: Span },
    /// Any other expression.
    OtherExpr { range: Span },
}

/// A Python module: its nodes and the indices of its top-level statements.
#[derive(Debug)]
pub struct PyModule {
    pub nodes: Vec<PyNode>,
    pub body: Vec<usize>,
}

/// The byte range of a node.
pub open spec fn range_of(n: PyNode) -> Span {
    match n {
        PyNode::Assign { range, .. } => range,
        PyNode::AnnAssign { range, .. } => range,
        PyNode::FunctionDef { range, .. } => range,
        PyNode::ClassDef { range, .. } => range,
        PyNode::OtherStmt { range, .. } => range,
        PyNode::StringLiteral { range, .. } => range,
        PyNode::FString { range, .. } => range,
        PyNode::TString { range, .. } => range,
        PyNode::Name { range, .. } => range,
        PyNode::Attribute { range, .. } => range,
        PyNode::Call { range, .. } => range,
        PyNode::BinOp { range, .. } => range,
        PyNode::List { range, .. } => range,
        PyNode::Tuple { range, .. } => range,
        PyNode::Primitive { range } => range,
        PyNode::Collection { range } => range,
        PyNode::OtherExpr { range } => range,
    }
}

/// Whether every index in `v` is below `i`.
pub open spec fn all_below(v: Seq<usize>, i: int) -> bool {
    forall|j: int| 0 <= j < v.len() ==> #[trigger] v[j] < i
}

/// Whether every node that node `n`, at index `i`, holds comes before it.
pub open spec fn refs_precede(n: PyNode, i: int) -> bool {
    match n {
        PyNode::Assign { targets, value, .. } => value < i && all_below(targets@, i),
        PyNode::AnnAssign { target, value, .. } => target < i && (value matches Some(v) ==> v < i),
        PyNode::FunctionDef { body, .. } => all_below(body@, i),
        PyNode::ClassDef { body, .. } => all_below(body@, i),
        PyNode::OtherStmt { body, .. } => all_below(body@, i),
        PyNode::Attribute { value, .. } => value < i,
        PyNode::Call { func, args, .. } => func < i && all_below(args@, i),
        PyNode::BinOp { left, right, .. } => left < i && right < i,
        PyNode::List { elts, .. } => all_below(elts@, i),
        PyNode::Tuple { elts, .. } => all_below(elts@, i),
        _ => true,
    }
}

/// Whether every range in `v` covers whole characters of `b`.
pub open spec fn ranges_in(v: Seq<Span>, b: Seq<u8>) -> bool {
    forall|j: int| 0 <= j < v.len() ==> valid_range(b, #[trigger] v[j].start as int, v[j].end as int)
}

/// Whether node `n`'s ranges cover whole characters of `b`, and a string
/// literal's value is no longer, in bytes, than its range.
pub open spec fn ranges_ok(n: PyNode, b: Seq<u8>) -> bool {
    &&& valid_range(b, range_of(n).start as int, range_of(n).end as int)
    &&& match n {
        PyNode::FString { interpolations, .. } => ranges_in(interpolations@, b),
        PyNode::TString { interpolations, .. } => ranges_in(interpolations@, b),
        PyNode::StringLiteral { range, value } => utf8(value@).len() <= range.end - range.start,
        _ => true,
    }
}

impl PyModule {
    /// Well-formedness over the source bytes `b`: the source fits in `u32`
    /// offsets, every node comes after the nodes it holds, the ranges cover
    /// whole characters, and the top-level statements are nodes.
    pub open spec fn wf(&self, b: Seq<u8>) -> bool {
        &&& b.len() < u32::MAX
        &&& forall|i: int| 0 <= i < self.nodes@.len() ==> refs_precede(#[trigger] self.nodes@[i], i) && ranges_ok(self.nodes@[i], b)
        &&& all_below(self.body@, self.nodes@.len() as int)
    }
}

/// Whether every index in `v` is below `i`.
fn check_below(v: &Vec<usize>, i: usize) -> (r: bool)
    ensures
        r == all_below(v@, i as int),
{
    let mut j: usize = 0;
    while j < v.len()
        invariant
            j <= v@.len(),
            forall|q: int| 0 <= q < j ==> #[trigger] v@[q] < i,
        decreases v@.len() - j,
    {
        if v[j] >= i {
            return false;
        }
        j = j + 1;
    }
    true
}

/// Whether every range in `v` covers whole characters of `source`.
fn check_ranges(v: &Vec<Span>, source: &str) -> (r: bool)
    ensures
        r == ranges_in(v@, utf8(source@)),
{
    let mut j: usize = 0;
    while j < v.len()
        invariant
            j <= v@.len(),
            forall|q: int| 0 <= q < j ==> valid_range(utf8(source@), #[trigger] v@[q].start as int, v@[q].end as int),
        decreases v@.len() - j,
    {
        if !is_valid_range(source, v[j].start as usize, v[j].end as usize) {
            return false;
        }
        j = j + 1;
    }
    true
}

/// The byte range of a node.
pub fn node_range(n: &PyNode) -> (r: Span)
    ensures
        r == range_of(*n),
{
    match n {
        PyNode::Assign { range, .. } => *range,
        PyNode::AnnAssign { range, .. } => *range,
        PyNode::FunctionDef { range, .. } => *range,
        PyNode::ClassDef { range, .. } => *range,
        PyNode::OtherStmt { range, .. } => *range,
        PyNode::StringLiteral { range, .. } => *range,
        PyNode::FString { range, .. } => *range,
        PyNode::TString { range, .. } => *range,
        PyNode::Name { range, .. } => *range,
        PyNode::Attribute { range, .. } => *range,
        PyNode::Call { range, .. } => *range,
        PyNode::BinOp { range, .. } => *range,
        PyNode::List { range, .. } => *range,
        PyNode::Tuple { range, .. } => *range,
        PyNode::Primitive { range } => *range,
        PyNode::Collection { range } => *range,
        PyNode::OtherExpr { range } => *range,
    }
}

impl PyModule {
    /// Whether the module is well formed over `source`.
    pub fn check(&self, source: &str) -> (r: bool)
        ensures
            r == self.wf(utf8(source@)),
    {
        let ghost b = utf8(source@);
        if source.as_bytes().len() >= 4294967295usize {
            return false;
        }
        let n = self.nodes.len();
        let mut i: usize = 0;
        while i < n
            invariant
                b == utf8(source@),
                n == self.nodes@.len(),
                i <= n,
                forall|q: int| 0 <= q < i ==> refs_precede(#[trigger] self.nodes@[q], q) && ranges_ok(self.nodes@[q], b),
            decreases n - i,
        {
            let node = &self.nodes[i];
            let range = node_range(node);
            if !is_valid_range(source, range.start as usize, range.end as usize) {
                return false;
            }
            let ok = match node {
                PyNode::Assign { targets, value, .. } => *value < i && check_below(targets, i),
                PyNode::AnnAssign { target, value, .. } => *target < i && match value {
                    Some(v) => *v < i,
                    None => true,
                },
                PyNode::FunctionDef { body, .. } => check_below(body, i),
                PyNode::ClassDef { body, .. } => check_below(body, i),
                PyNode::OtherStmt { body, .. } => check_below(body, i),
                PyNode::Attribute { value, .. } => *value < i,
                PyNode::Call { func, args, .. } => *func < i && check_below(args, i),
                PyNode::BinOp { left, right, .. } => *left < i && *right < i,
                PyNode::List { elts, .. } => check_below(elts, i),
                PyNode::Tuple { elts, .. } => check_below(elts, i),
                PyNode::FString { interpolations, .. } => check_ranges(interpolations, source),
                PyNode::TString { interpolations, .. } => check_ranges(interpolations, source),
                PyNode::StringLiteral { range, value } => value.as_str().as_bytes().len() as u64 <= range.end as u64 - range.start as u64,
                _ => true,
            };
            if !ok {
                return false;
            }
            i = i + 1;
        }
        check_below(&self.body, n)
    }
}

} // verus!
