//! Building a `SyntaxTree` from a tree-sitter parse.
//!
//! The calls into tree-sitter stand behind the trusted items of `tshandle`,
//! which name what a parse gives over the grammar, the text and a node's
//! path. What the library keeps of the tree is copied into plain values;
//! `conv_node` states the copy over those names, and the conversion checks
//! the shape it relies on.
use crate::syntax::{
    extends, lemma_preorder_children_len, lemma_subtree_sizes_extend, lemma_subtree_sizes_push, node_wf, preorder,
    subtree_sizes, SyntaxNode, SyntaxTree,
};
use crate::text::{is_valid_range, utf8, valid_range};
use crate::tshandle::{
    csharp_language, go_language, java_language, node_child, node_child_count, node_end, node_field_name_for_child,
    node_has_error, node_is_error, node_is_missing, node_is_named, node_kind, node_start, node_start_position,
    parser_new, parser_parse, parser_set_language, php_language, python_language, ruby_language, tree_root,
    ts_child_count, ts_end, ts_error, ts_field_name, ts_has_child, ts_has_error, ts_kind, ts_missing, ts_named,
    ts_position, ts_set_language, ts_start, typescript_language, TsLanguage, TsNode,
};
use vstd::prelude::*;

verus! {

/// The grammars the library parses with.
#[derive(Clone, Copy, Debug, PartialEq, Eq, Structural)]
pub enum Grammar {
    Python,
    Go,
    Java,
    CSharp,
    Php,
    Ruby,
    TypeScript,
}

/// The value of a syntax node: its kind, range, flags, row and column,
/// field name and children.
pub struct NodeModel {
    pub kind: Seq<char>,
    pub start: usize,
    pub end: usize,
    pub named: bool,
    pub error: bool,
    pub missing: bool,
    pub has_error: bool,
    pub row: usize,
    pub column: usize,
    pub field: Option<Seq<char>>,
    pub children: Seq<usize>,
}

/// The characters of an optional string.
pub open spec fn opt_text(f: Option<String>) -> Option<Seq<char>> {
    match f {
        Some(s) => Some(s@),
        None => None,
    }
}

/// The value of a syntax node.
pub open spec fn node_model(n: SyntaxNode) -> NodeModel {
    NodeModel {
        kind: n.kind@,
        start: n.start,
        end: n.end,
        named: n.named,
        error: n.error,
        missing: n.missing,
        has_error: n.has_error,
        row: n.row,
        column: n.column,
        field: opt_text(n.field),
        children: n.children@,
    }
}

/// The values of a sequence of syntax nodes.
pub open spec fn node_models(s: Seq<SyntaxNode>) -> Seq<NodeModel> {
    s.map_values(|n: SyntaxNode| node_model(n))
}

/// The nodes `ns` followed by the copy, in post-order, of the subtree at
/// `path` of the parse of `text` with `g`, held under the field `field`:
/// `None` when the nesting is deeper than `depth` or a node's range does
/// not cover whole characters of the text.
pub open spec fn conv_node(
    g: Grammar,
    text: Seq<char>,
    path: Seq<u32>,
    field: Option<Seq<char>>,
    depth: nat,
    ns: Seq<NodeModel>,
) -> Option<Seq<NodeModel>>
    decreases depth, 1int, 0int,
{
    if depth == 0 {
        None
    } else if !valid_range(utf8(text), ts_start(g, text, path) as int, ts_end(g, text, path) as int) {
        None
    } else {
        match conv_children(g, text, path, 0, depth, ns, seq![]) {
            None => None,
            Some((ns2, ch)) => {
                let pos = ts_position(g, text, path);
                Some(
                    ns2.push(
                        NodeModel {
                            kind: ts_kind(g, text, path),
                            start: ts_start(g, text, path),
                            end: ts_end(g, text, path),
                            named: ts_named(g, text, path),
                            error: ts_error(g, text, path),
                            missing: ts_missing(g, text, path),
                            has_error: ts_has_error(g, text, path),
                            row: pos.0,
                            column: pos.1,
                            field,
                            children: ch,
                        },
                    ),
                )
            },
        }
    }
}

/// The copies of the children of the node at `path` from the `i`-th on,
/// appended to `ns`, with their root indices appended to `ch`.
pub open spec fn conv_children(
    g: Grammar,
    text: Seq<char>,
    path: Seq<u32>,
    i: int,
    depth: nat,
    ns: Seq<NodeModel>,
    ch: Seq<usize>,
) -> Option<(Seq<NodeModel>, Seq<usize>)>
    decreases depth, 0int, ts_child_count(g, text, path) - i,
{
    if depth == 0 || i < 0 || i >= ts_child_count(g, text, path) {
        Some((ns, ch))
    } else if !ts_has_child(g, text, path, i as u32) {
        conv_children(g, text, path, i + 1, depth, ns, ch)
    } else {
        match conv_node(g, text, path.push(i as u32), ts_field_name(g, text, path, i as u32), (depth - 1) as nat, ns) {
            None => None,
            Some(ns2) => conv_children(g, text, path, i + 1, depth, ns2, ch.push((ns2.len() - 1) as usize)),
        }
    }
}

/// The nodes of the copy of the parse of `text` with `g`, root last; `None`
/// when the language is refused, the text is longer than `u32::MAX - 1`
/// bytes or the tree cannot be copied.
pub open spec fn parsed_models(g: Grammar, text: Seq<char>) -> Option<Seq<NodeModel>> {
    if utf8(text).len() >= u32::MAX || ts_set_language(g) is Err {
        None
    } else {
        conv_node(g, text, seq![], None, MAX_DEPTH as nat, seq![])
    }
}

/// The nesting the conversion follows: as deep as a `usize` counts, so that
/// no tree is refused for its depth; it is the measure that ends the
/// recursion.
pub const MAX_DEPTH: usize = usize::MAX;

/// Copies the subtree of `node` into `nodes` in post-order and returns the
/// index of its root; `None` when a node's range does not cover whole
/// characters of `source` or the nesting is deeper than `depth`. The copy
/// is the one `conv_node` describes.
fn convert_node(
    node: &TsNode,
    field: Option<String>,
    source: &str,
    nodes: &mut Vec<SyntaxNode>,
    depth: usize,
) -> (r: Option<usize>)
    requires
        node@.1 == source@,
        forall|i: int| 0 <= i < old(nodes)@.len() ==> node_wf(old(nodes)@, i, utf8(source@)),
    ensures
        final(nodes)@.len() >= old(nodes)@.len(),
        forall|i: int| 0 <= i < old(nodes)@.len() ==> final(nodes)@[i] == old(nodes)@[i],
        forall|i: int| 0 <= i < final(nodes)@.len() ==> node_wf(final(nodes)@, i, utf8(source@)),
        r matches Some(k) ==> k + 1 == final(nodes)@.len() && preorder(final(nodes)@, k as int).len()
            == final(nodes)@.len() - old(nodes)@.len(),
        r matches Some(k) ==> final(nodes)@[k as int].field == field,
        depth == 0 ==> r is None && final(nodes)@ == old(nodes)@,
        r is Some ==> conv_node(node@.0, node@.1, node@.2, opt_text(field), depth as nat, node_models(old(nodes)@))
            == Some(node_models(final(nodes)@)),
        r is None ==> conv_node(node@.0, node@.1, node@.2, opt_text(field), depth as nat, node_models(old(nodes)@)) is None,
    decreases depth,
{
    let ghost g = node@.0;
    let ghost text = node@.1;
    let ghost path = node@.2;
    if depth == 0 {
        return None;
    }
    let start = node_start(node);
    let end = node_end(node);
    if !is_valid_range(source, start, end) {
        return None;
    }
    let count = node_child_count(node);
    let mut children: Vec<usize> = Vec::new();
    let mut i: u32 = 0;
    while i < count
        invariant
            node@ == (g, text, path),
            text == source@,
            count == ts_child_count(g, text, path),
            nodes@.len() >= old(nodes)@.len(),
            forall|k: int| 0 <= k < old(nodes)@.len() ==> nodes@[k] == old(nodes)@[k],
            forall|k: int| 0 <= k < nodes@.len() ==> node_wf(nodes@, k, utf8(source@)),
            forall|k: int| 0 <= k < children@.len() ==> children@[k] < nodes@.len(),
            subtree_sizes(nodes@, children@, 0) == nodes@.len() - old(nodes)@.len(),
            depth > 0,
            conv_children(g, text, path, i as int, depth as nat, node_models(nodes@), children@) == conv_children(
                g,
                text,
                path,
                0,
                depth as nat,
                node_models(old(nodes)@),
                seq![],
            ),
        decreases count - i,
    {
        match node_child(node, i) {
            Some(child) => {
                let name = node_field_name_for_child(node, i);
                assert(opt_text(name) == ts_field_name(g, text, path, i));
                let ghost before = nodes@;
                match convert_node(&child, name, source, nodes, depth - 1) {
                    Some(ci) => {
                        proof {
                            assert(extends(nodes@, before));
                            assert forall|m: int| 0 <= m < children@.len() implies #[trigger] children@[m] < before.len() by {}
                            lemma_subtree_sizes_extend(before, nodes@, children@, 0);
                            lemma_subtree_sizes_push(nodes@, children@, ci, 0);
                            assert(node_models(nodes@).len() == nodes@.len());
                        }
                        children.push(ci);
                    },
                    None => {
                        return None;
                    },
                }
            },
            None => {},
        }
        i = i + 1;
    }
    let (row, column) = node_start_position(node);
    let sn = SyntaxNode {
        kind: node_kind(node),
        start,
        end,
        named: node_is_named(node),
        error: node_is_error(node),
        missing: node_is_missing(node),
        has_error: node_has_error(node),
        row,
        column,
        field,
        children,
    };
    let ghost before = nodes@;
    nodes.push(sn);
    proof {
        let k = before.len() as int;
        assert(extends(nodes@, before));
        assert forall|m: int| 0 <= m < children@.len() implies #[trigger] children@[m] < before.len() by {}
        lemma_subtree_sizes_extend(before, nodes@, sn.children@, 0);
        assert(nodes@[k] == sn);
        assert forall|q: int| 0 <= q < nodes@[k].children@.len() implies #[trigger] nodes@[k].children@[q] < k by {}
        lemma_preorder_children_len(nodes@, k, 0);
        assert forall|k: int| 0 <= k < nodes@.len() implies node_wf(nodes@, k, utf8(source@)) by {
            if k < before.len() {
                assert(node_wf(before, k, utf8(source@)));
                assert(nodes@[k] == before[k]);
            } else {
                assert(nodes@[k] == sn);
                assert(valid_range(utf8(source@), start as int, end as int));
                assert(forall|j: int| 0 <= j < sn.children@.len() ==> #[trigger] sn.children@[j] < k);
            }
        }
        assert(node_models(nodes@) =~= node_models(before).push(node_model(sn)));
    }
    Some(nodes.len() - 1)
}

/// The tree-sitter language of a grammar.
fn language_of(grammar: Grammar) -> (r: TsLanguage)
    ensures
        r@ == grammar,
{
    match grammar {
        Grammar::Python => python_language(),
        Grammar::Go => go_language(),
        Grammar::Java => java_language(),
        Grammar::CSharp => csharp_language(),
        Grammar::Php => php_language(),
        Grammar::Ruby => ruby_language(),
        Grammar::TypeScript => typescript_language(),
    }
}

/// Why no syntax tree came out of a parse.
#[derive(Debug, PartialEq, Eq)]
pub enum TreeError {
    /// tree-sitter rejected the grammar; the `Debug` text of its error.
    LanguageRejected(String),
    /// tree-sitter returned no tree.
    NoTree,
    /// The text is longer than `u32::MAX - 1` bytes, or a node's range does
    /// not cover whole characters.
    Unconvertible,
}

/// Parses `source` with the grammar and copies the tree: the copy's nodes
/// are those `parsed_models` names, root last. A text of `u32::MAX` bytes
/// or more, or a tree that cannot be copied, gives `Unconvertible`; a
/// language that tree-sitter refuses gives the text of its error.
pub fn parse_syntax_tree(grammar: Grammar, source: &str) -> (r: Result<SyntaxTree, TreeError>)
    ensures
        r matches Ok(t) ==> t.wf(utf8(source@)) && preorder(t.nodes@, t.root as int).len() == t.nodes@.len(),
        r matches Ok(t) ==> t.root + 1 == t.nodes@.len() && t.nodes@[t.root as int].field is None,
        utf8(source@).len() >= u32::MAX ==> r matches Err(TreeError::Unconvertible),
        utf8(source@).len() < u32::MAX ==> match ts_set_language(grammar) {
            Err(d) => r matches Err(TreeError::LanguageRejected(e)) && e@ == d,
            Ok(_) => match parsed_models(grammar, source@) {
                None => r matches Err(TreeError::Unconvertible),
                Some(ns) => r matches Ok(t) && node_models(t.nodes@) == ns,
            },
        },
{
    if source.as_bytes().len() >= 4294967295 {
        return Err(TreeError::Unconvertible);
    }
    let mut parser = parser_new();
    let language = language_of(grammar);
    match parser_set_language(&mut parser, &language) {
        None => {},
        Some(d) => {
            return Err(TreeError::LanguageRejected(d));
        },
    }
    let tree = match parser_parse(&mut parser, source) {
        Some(t) => t,
        None => {
            return Err(TreeError::NoTree);
        },
    };
    let root = tree_root(&tree);
    let mut nodes: Vec<SyntaxNode> = Vec::new();
    proof {
        assert(node_models(nodes@) =~= Seq::<NodeModel>::empty());
    }
    match convert_node(&root, None, source, &mut nodes, MAX_DEPTH) {
        Some(r) => Ok(SyntaxTree { nodes, root: r }),
        None => Err(TreeError::Unconvertible),
    }
}

/// Parses `source` with the grammar and copies the tree; `None` wherever
/// `parse_syntax_tree` gives an error, that is where `parsed_models` gives
/// none.
pub fn parse_tree(grammar: Grammar, source: &str) -> (r: Option<SyntaxTree>)
    ensures
        r matches Some(t) ==> t.wf(utf8(source@)) && preorder(t.nodes@, t.root as int).len() == t.nodes@.len(),
        r matches Some(t) ==> t.root + 1 == t.nodes@.len() && t.nodes@[t.root as int].field is None,
        utf8(source@).len() >= u32::MAX ==> r is None,
        match parsed_models(grammar, source@) {
            None => r is None,
            Some(ns) => r matches Some(t) && node_models(t.nodes@) == ns,
        },
{
    match parse_syntax_tree(grammar, source) {
        Ok(t) => Some(t),
        Err(_) => None,
    }
}

} // verus!
