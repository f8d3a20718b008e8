//! A syntax tree held as plain values, built from a tree-sitter parse.
//!
//! Nodes are stored in post-order: every child has a smaller index than its
//! parent and the root comes last, so a walk from the root always descends
//! to smaller indices.
use crate::text::{range_string, range_text, text_eq, utf8, valid_range};
use vstd::prelude::*;

verus! {

/// A node of a syntax tree: its grammar kind, byte range, flags and children.
#[derive(Debug)]
pub struct SyntaxNode {
    pub kind: String,
    pub start: usize,
    pub end: usize,
    pub named: bool,
    pub error: bool,
    pub missing: bool,
    pub has_error: bool,
    pub row: usize,
    pub column: usize,
    /// The field name under which the parent holds this node, if any.
    pub field: Option<String>,
    /// Indices of the children, in source order.
    pub children: Vec<usize>,
}

/// A syntax tree over a source text.
#[derive(Debug)]
pub struct SyntaxTree {
    pub nodes: Vec<SyntaxNode>,
    pub root: usize,
}

/// Whether node `i` of `t` is well formed over the source bytes `src`: its
/// range covers whole characters, and its children precede it.
pub open spec fn node_wf(t: Seq<SyntaxNode>, i: int, src: Seq<u8>) -> bool {
    &&& valid_range(src, t[i].start as int, t[i].end as int)
    &&& forall|j: int| 0 <= j < t[i].children@.len() ==> #[trigger] t[i].children@[j] < i
}

impl SyntaxTree {
    /// Well-formedness over the source bytes `src`.
    pub open spec fn wf(&self, src: Seq<u8>) -> bool {
        &&& src.len() < u32::MAX
        &&& self.root < self.nodes@.len()
        &&& forall|i: int| 0 <= i < self.nodes@.len() ==> node_wf(self.nodes@, i, src)
    }
}

/// Whether every child precedes its parent.
pub open spec fn children_precede(t: Seq<SyntaxNode>) -> bool {
    forall|q: int, r: int| 0 <= q < t.len() && 0 <= r < t[q].children@.len() ==> #[trigger] t[q].children@[r] < q
}

/// A well-formed tree has every child before its parent.
pub proof fn lemma_wf_children_precede(tree: &SyntaxTree, src: Seq<u8>)
    requires
        tree.wf(src),
    ensures
        children_precede(tree.nodes@),
{
    assert forall|q: int, r: int| 0 <= q < tree.nodes@.len() && 0 <= r < tree.nodes@[q].children@.len() implies #[trigger] tree.nodes@[q].children@[r] < q by {
        assert(node_wf(tree.nodes@, q, src));
    }
}

/// The indices of the subtree rooted at `i`, in pre-order.
pub open spec fn preorder(t: Seq<SyntaxNode>, i: int) -> Seq<int>
    decreases i, t[i].children@.len() + 1,
{
    if 0 <= i < t.len() {
        seq![i] + preorder_children(t, i, 0)
    } else {
        seq![]
    }
}

/// The pre-order indices of the subtrees of the children of `i`, from the `j`-th on.
pub open spec fn preorder_children(t: Seq<SyntaxNode>, i: int, j: int) -> Seq<int>
    decreases i, t[i].children@.len() - j,
{
    if 0 <= i < t.len() && 0 <= j < t[i].children@.len() {
        let c = t[i].children@[j] as int;
        if c < i {
            preorder(t, c) + preorder_children(t, i, j + 1)
        } else {
            preorder_children(t, i, j + 1)
        }
    } else {
        seq![]
    }
}

/// Whether `t2` keeps the first `t.len()` nodes of `t` unchanged.
pub open spec fn extends(t2: Seq<SyntaxNode>, t: Seq<SyntaxNode>) -> bool {
    t2.len() >= t.len() && forall|k: int| 0 <= k < t.len() ==> #[trigger] t2[k] == t[k]
}

/// Appending nodes leaves the pre-order of an existing node unchanged.
pub proof fn lemma_preorder_extend(t: Seq<SyntaxNode>, t2: Seq<SyntaxNode>, i: int)
    requires
        extends(t2, t),
        0 <= i < t.len(),
    ensures
        preorder(t2, i) == preorder(t, i),
    decreases i, t[i].children@.len() + 1,
{
    assert(t2[i] == t[i]);
    lemma_preorder_children_extend(t, t2, i, 0);
}

/// Appending nodes leaves the pre-order of the children of an existing node unchanged.
pub proof fn lemma_preorder_children_extend(t: Seq<SyntaxNode>, t2: Seq<SyntaxNode>, i: int, j: int)
    requires
        extends(t2, t),
        0 <= i < t.len(),
    ensures
        preorder_children(t2, i, j) == preorder_children(t, i, j),
    decreases i, t[i].children@.len() - j,
{
    assert(t2[i] == t[i]);
    if 0 <= j < t[i].children@.len() {
        let c = t[i].children@[j] as int;
        lemma_preorder_children_extend(t, t2, i, j + 1);
        if c < i {
            lemma_preorder_extend(t, t2, c);
        }
    }
}

/// The total pre-order size of the nodes `cs[j..]`.
pub open spec fn subtree_sizes(t: Seq<SyntaxNode>, cs: Seq<usize>, j: int) -> nat
    decreases cs.len() - j,
{
    if 0 <= j < cs.len() {
        preorder(t, cs[j] as int).len() + subtree_sizes(t, cs, j + 1)
    } else {
        0
    }
}

/// Adding a node at the end of `cs` adds its pre-order size.
pub proof fn lemma_subtree_sizes_push(t: Seq<SyntaxNode>, cs: Seq<usize>, x: usize, j: int)
    requires
        0 <= j <= cs.len(),
    ensures
        subtree_sizes(t, cs.push(x), j) == subtree_sizes(t, cs, j) + preorder(t, x as int).len(),
    decreases cs.len() - j,
{
    if j < cs.len() {
        assert(cs.push(x)[j] == cs[j]);
        lemma_subtree_sizes_push(t, cs, x, j + 1);
    } else {
        assert(cs.push(x)[j] == x);
        assert(subtree_sizes(t, cs.push(x), j + 1) == 0);
    }
}

/// Appending nodes leaves the sizes of existing subtrees unchanged.
pub proof fn lemma_subtree_sizes_extend(t: Seq<SyntaxNode>, t2: Seq<SyntaxNode>, cs: Seq<usize>, j: int)
    requires
        extends(t2, t),
        forall|m: int| 0 <= m < cs.len() ==> #[trigger] cs[m] < t.len(),
        0 <= j,
    ensures
        subtree_sizes(t2, cs, j) == subtree_sizes(t, cs, j),
    decreases cs.len() - j,
{
    if j < cs.len() {
        lemma_preorder_extend(t, t2, cs[j] as int);
        lemma_subtree_sizes_extend(t, t2, cs, j + 1);
    }
}

/// The pre-order of the children of `i` from the `j`-th on is as long as
/// their subtrees together.
pub proof fn lemma_preorder_children_len(t: Seq<SyntaxNode>, i: int, j: int)
    requires
        0 <= i < t.len(),
        0 <= j,
        forall|q: int| 0 <= q < t[i].children@.len() ==> #[trigger] t[i].children@[q] < i,
    ensures
        preorder_children(t, i, j).len() == subtree_sizes(t, t[i].children@, j),
    decreases t[i].children@.len() - j,
{
    if j < t[i].children@.len() {
        lemma_preorder_children_len(t, i, j + 1);
    }
}

/// The first child of node `i`, from its `j`-th on, of kind `kind`.
pub open spec fn kind_child_from(t: Seq<SyntaxNode>, i: int, kind: Seq<char>, j: int) -> Option<int>
    decreases t[i].children@.len() - j,
{
    if 0 <= i < t.len() && 0 <= j < t[i].children@.len() {
        let c = t[i].children@[j] as int;
        if 0 <= c < t.len() && t[c].kind@ == kind {
            Some(c)
        } else {
            kind_child_from(t, i, kind, j + 1)
        }
    } else {
        None
    }
}

/// The first child of node `i`, from its `j`-th on, that its parent holds
/// under the field `name`.
pub open spec fn field_child_from(t: Seq<SyntaxNode>, i: int, name: Seq<char>, j: int) -> Option<int>
    decreases t[i].children@.len() - j,
{
    if 0 <= i < t.len() && 0 <= j < t[i].children@.len() {
        let c = t[i].children@[j] as int;
        if 0 <= c < t.len() && (t[c].field matches Some(f) && f@ == name) {
            Some(c)
        } else {
            field_child_from(t, i, name, j + 1)
        }
    } else {
        None
    }
}

/// The first child of node `i` held under the field `name`.
pub open spec fn field_child(t: Seq<SyntaxNode>, i: int, name: Seq<char>) -> Option<int> {
    field_child_from(t, i, name, 0)
}

/// The characters of node `k` in the source bytes `b`.
pub open spec fn node_text(t: Seq<SyntaxNode>, k: int, b: Seq<u8>) -> Seq<char> {
    range_text(b, t[k].start as int, t[k].end as int)
}

proof fn lemma_field_child_from(t: Seq<SyntaxNode>, i: int, name: Seq<char>, j: int)
    requires
        0 <= i < t.len(),
        forall|q: int| 0 <= q < t[i].children@.len() ==> #[trigger] t[i].children@[q] < i,
    ensures
        field_child_from(t, i, name, j) matches Some(c) ==> 0 <= c < i,
    decreases t[i].children@.len() - j,
{
    if 0 <= j < t[i].children@.len() {
        lemma_field_child_from(t, i, name, j + 1);
    }
}

impl SyntaxTree {
    /// The first child of node `i` that is held under the field `name`.
    pub fn child_by_field_name(&self, i: usize, name: &str) -> (r: Option<usize>)
        requires
            i < self.nodes@.len(),
            forall|q: int| 0 <= q < self.nodes@[i as int].children@.len() ==> #[trigger] self.nodes@[i as int].children@[q] < i,
        ensures
            r matches Some(c) ==> field_child(self.nodes@, i as int, name@) == Some(c as int) && c < i,
            r is None ==> field_child(self.nodes@, i as int, name@) is None,
    {
        let ghost t = self.nodes@;
        proof {
            lemma_field_child_from(t, i as int, name@, 0);
        }
        let n = self.nodes[i].children.len();
        let mut j: usize = 0;
        while j < n
            invariant
                t == self.nodes@,
                i < t.len(),
                n == t[i as int].children@.len(),
                j <= n,
                forall|q: int| 0 <= q < n ==> #[trigger] t[i as int].children@[q] < i,
                field_child(t, i as int, name@) == field_child_from(t, i as int, name@, j as int),
            decreases n - j,
        {
            let c = self.nodes[i].children[j];
            assert(c < i);
            match &self.nodes[c].field {
                Some(f) => {
                    if text_eq(f.as_str(), name) {
                        return Some(c);
                    }
                },
                None => {},
            }
            j = j + 1;
        }
        None
    }

    /// Whether node `i` has kind `kind`.
    pub fn kind_is(&self, i: usize, kind: &str) -> (r: bool)
        requires
            i < self.nodes@.len(),
        ensures
            r == (self.nodes@[i as int].kind@ == kind@),
    {
        text_eq(self.nodes[i].kind.as_str(), kind)
    }

    /// The text of node `i`.
    pub fn text_of(&self, i: usize, source: &str) -> (r: String)
        requires
            self.wf(utf8(source@)),
            i < self.nodes@.len(),
        ensures
            r@ == node_text(self.nodes@, i as int, utf8(source@)),
    {
        proof {
            assert(node_wf(self.nodes@, i as int, utf8(source@)));
        }
        range_string(source, self.nodes[i].start, self.nodes[i].end)
    }
}

/// The first child of node `node` of kind `kind`.
pub fn kind_child(tree: &SyntaxTree, node: usize, kind: &str) -> (r: Option<usize>)
    requires
        node < tree.nodes@.len(),
        forall|q: int| 0 <= q < tree.nodes@[node as int].children@.len() ==> #[trigger] tree.nodes@[node as int].children@[q] < node,
    ensures
        r matches Some(c) ==> kind_child_from(tree.nodes@, node as int, kind@, 0) == Some(c as int) && c < node,
        r is None ==> kind_child_from(tree.nodes@, node as int, kind@, 0) is None,
{
    let ghost t = tree.nodes@;
    let n = tree.nodes[node].children.len();
    let mut j: usize = 0;
    while j < n
        invariant
            t == tree.nodes@,
            node < t.len(),
            n == t[node as int].children@.len(),
            j <= n,
            forall|q: int| 0 <= q < n ==> #[trigger] t[node as int].children@[q] < node,
            kind_child_from(t, node as int, kind@, 0) == kind_child_from(t, node as int, kind@, j as int),
        decreases n - j,
    {
        let c = tree.nodes[node].children[j];
        assert(t[node as int].children@[j as int] < node);
        if text_eq(tree.nodes[c].kind.as_str(), kind) {
            return Some(c);
        }
        j = j + 1;
    }
    None
}

} // verus!
