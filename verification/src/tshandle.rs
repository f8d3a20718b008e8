//! The calls into tree-sitter, each behind a trusted item.
//!
//! A tree-sitter parse depends on the grammar and the text alone, so what
//! it gives is named over plain values: the node reached from the root by
//! the child indices `path` is described by `ts_kind(grammar, text, path)`
//! and the other names below. The handles carry the grammar, the text and
//! the path of what they hold as their view; only the trusted items of this
//! module make them.
use crate::treesitter::Grammar;
use tree_sitter::{Language, Node, Parser, Tree};
use vstd::prelude::*;

verus! {

#[verifier::external_type_specification]
#[verifier::external_body]
pub struct ExParser(Parser);

#[verifier::external_type_specification]
#[verifier::external_body]
pub struct ExTree(Tree);

#[verifier::external_type_specification]
#[verifier::external_body]
pub struct ExLanguage(Language);

#[verifier::external_type_specification]
#[verifier::external_body]
pub struct ExNode<'tree>(Node<'tree>);

/// What `Parser::set_language` gives for the grammar's language: `Ok`, or
/// the `Debug` text of its `LanguageError`.
pub uninterp spec fn ts_set_language(g: Grammar) -> Result<(), Seq<char>>;

/// `Node::kind` of the node at `path` in the parse of `text` with `g`.
pub uninterp spec fn ts_kind(g: Grammar, text: Seq<char>, path: Seq<u32>) -> Seq<char>;

/// `Node::start_byte` of the node at `path`.
pub uninterp spec fn ts_start(g: Grammar, text: Seq<char>, path: Seq<u32>) -> usize;

/// `Node::end_byte` of the node at `path`.
pub uninterp spec fn ts_end(g: Grammar, text: Seq<char>, path: Seq<u32>) -> usize;

/// `Node::is_named` of the node at `path`.
pub uninterp spec fn ts_named(g: Grammar, text: Seq<char>, path: Seq<u32>) -> bool;

/// `Node::is_error` of the node at `path`.
pub uninterp spec fn ts_error(g: Grammar, text: Seq<char>, path: Seq<u32>) -> bool;

/// `Node::is_missing` of the node at `path`.
pub uninterp spec fn ts_missing(g: Grammar, text: Seq<char>, path: Seq<u32>) -> bool;

/// `Node::has_error` of the node at `path`.
pub uninterp spec fn ts_has_error(g: Grammar, text: Seq<char>, path: Seq<u32>) -> bool;

/// `Node::start_position` of the node at `path`, as its row and column.
pub uninterp spec fn ts_position(g: Grammar, text: Seq<char>, path: Seq<u32>) -> (usize, usize);

/// `Node::child_count` of the node at `path`.
pub uninterp spec fn ts_child_count(g: Grammar, text: Seq<char>, path: Seq<u32>) -> u32;

/// Whether `Node::child(i)` of the node at `path` gives a node.
pub uninterp spec fn ts_has_child(g: Grammar, text: Seq<char>, path: Seq<u32>, i: u32) -> bool;

/// `Node::field_name_for_child(i)` of the node at `path`.
pub uninterp spec fn ts_field_name(g: Grammar, text: Seq<char>, path: Seq<u32>, i: u32) -> Option<Seq<char>>;

/// A tree-sitter language with the grammar it is for.
pub struct TsLanguage {
    lang: Language,
    grammar: Grammar,
}

impl View for TsLanguage {
    type V = Grammar;

    closed spec fn view(&self) -> Grammar {
        self.grammar
    }
}

/// A tree-sitter parser with the grammar its language was set to, if any.
pub struct TsParser {
    parser: Parser,
    grammar: Option<Grammar>,
}

impl View for TsParser {
    type V = Option<Grammar>;

    closed spec fn view(&self) -> Option<Grammar> {
        self.grammar
    }
}

/// A tree-sitter tree with the grammar and text it was parsed from.
pub struct TsTree<'s> {
    tree: Tree,
    grammar: Grammar,
    source: &'s str,
}

impl<'s> View for TsTree<'s> {
    type V = (Grammar, Seq<char>);

    closed spec fn view(&self) -> (Grammar, Seq<char>) {
        (self.grammar, self.source@)
    }
}

/// A node of a tree-sitter tree with the grammar and text of its tree and
/// the child indices that lead to it from the root.
pub struct TsNode<'t, 's> {
    node: Node<'t>,
    grammar: Grammar,
    source: &'s str,
    path: Vec<u32>,
}

impl<'t, 's> View for TsNode<'t, 's> {
    type V = (Grammar, Seq<char>, Seq<u32>);

    closed spec fn view(&self) -> (Grammar, Seq<char>, Seq<u32>) {
        (self.grammar, self.source@, self.path@)
    }
}

/// `tree_sitter_python::LANGUAGE`, as the language of `Grammar::Python`.
#[verifier::external_body]
pub(crate) fn python_language() -> (r: TsLanguage)
    ensures
        r@ == Grammar::Python,
{
    TsLanguage { lang: tree_sitter_python::LANGUAGE.into(), grammar: Grammar::Python }
}

/// `tree_sitter_go::LANGUAGE`, as the language of `Grammar::Go`.
#[verifier::external_body]
pub(crate) fn go_language() -> (r: TsLanguage)
    ensures
        r@ == Grammar::Go,
{
    TsLanguage { lang: tree_sitter_go::LANGUAGE.into(), grammar: Grammar::Go }
}

/// `tree_sitter_java::LANGUAGE`, as the language of `Grammar::Java`.
#[verifier::external_body]
pub(crate) fn java_language() -> (r: TsLanguage)
    ensures
        r@ == Grammar::Java,
{
    TsLanguage { lang: tree_sitter_java::LANGUAGE.into(), grammar: Grammar::Java }
}

/// `tree_sitter_c_sharp::LANGUAGE`, as the language of `Grammar::CSharp`.
#[verifier::external_body]
pub(crate) fn csharp_language() -> (r: TsLanguage)
    ensures
        r@ == Grammar::CSharp,
{
    TsLanguage { lang: tree_sitter_c_sharp::LANGUAGE.into(), grammar: Grammar::CSharp }
}

/// `tree_sitter_php::LANGUAGE_PHP`, as the language of `Grammar::Php`.
#[verifier::external_body]
pub(crate) fn php_language() -> (r: TsLanguage)
    ensures
        r@ == Grammar::Php,
{
    TsLanguage { lang: tree_sitter_php::LANGUAGE_PHP.into(), grammar: Grammar::Php }
}

/// `tree_sitter_ruby::LANGUAGE`, as the language of `Grammar::Ruby`.
#[verifier::external_body]
pub(crate) fn ruby_language() -> (r: TsLanguage)
    ensures
        r@ == Grammar::Ruby,
{
    TsLanguage { lang: tree_sitter_ruby::LANGUAGE.into(), grammar: Grammar::Ruby }
}

/// `tree_sitter_typescript::LANGUAGE_TYPESCRIPT`, as the language of
/// `Grammar::TypeScript`.
#[verifier::external_body]
pub(crate) fn typescript_language() -> (r: TsLanguage)
    ensures
        r@ == Grammar::TypeScript,
{
    TsLanguage { lang: tree_sitter_typescript::LANGUAGE_TYPESCRIPT.into(), grammar: Grammar::TypeScript }
}

/// `Parser::new`: a parser with no language set.
#[verifier::external_body]
pub(crate) fn parser_new() -> (r: TsParser)
    ensures
        r@ is None,
{
    TsParser { parser: Parser::new(), grammar: None }
}

/// `Parser::set_language`: `None` and the parser set to the grammar when
/// the language is accepted, else the `Debug` text of the `LanguageError`
/// and the parser unchanged; which one is named by `ts_set_language`.
#[verifier::external_body]
pub(crate) fn parser_set_language(parser: &mut TsParser, language: &TsLanguage) -> (r: Option<String>)
    ensures
        r is None == ts_set_language(language@) is Ok,
        r matches Some(e) ==> (ts_set_language(language@) matches Err(d) && d == e@),
        r is None ==> final(parser)@ == Some(language@),
        r is Some ==> final(parser)@ == old(parser)@,
{
    match parser.parser.set_language(&language.lang) {
        Ok(()) => {
            parser.grammar = Some(language.grammar);
            None
        },
        Err(e) => Some(format!("{:?}", e)),
    }
}

/// `Parser::parse` on the text, with no earlier tree. Its documentation
/// gives `None` only for a parser with no language, so a parser with one
/// gives a tree of the text with the parser's grammar.
#[verifier::external_body]
pub(crate) fn parser_parse<'s>(parser: &mut TsParser, source: &'s str) -> (r: Option<TsTree<'s>>)
    requires
        old(parser)@ is Some,
    ensures
        final(parser)@ == old(parser)@,
        r matches Some(t) && t@ == (old(parser)@.unwrap(), source@),
{
    match parser.parser.parse(source, None) {
        Some(tree) => Some(TsTree { tree, grammar: parser.grammar.unwrap(), source }),
        None => None,
    }
}

/// `Tree::root_node`: the node at the empty path.
#[verifier::external_body]
pub(crate) fn tree_root<'t, 's>(tree: &'t TsTree<'s>) -> (r: TsNode<'t, 's>)
    ensures
        r@ == (tree@.0, tree@.1, Seq::<u32>::empty()),
{
    TsNode { node: tree.tree.root_node(), grammar: tree.grammar, source: tree.source, path: Vec::new() }
}

/// `Node::child`: the node one step further along `i`, when there is one.
#[verifier::external_body]
pub(crate) fn node_child<'t, 's>(node: &TsNode<'t, 's>, i: u32) -> (r: Option<TsNode<'t, 's>>)
    ensures
        r is Some == ts_has_child(node@.0, node@.1, node@.2, i),
        r matches Some(c) ==> c@ == (node@.0, node@.1, node@.2.push(i)),
{
    match node.node.child(i) {
        Some(c) => {
            let mut path = node.path.clone();
            path.push(i);
            Some(TsNode { node: c, grammar: node.grammar, source: node.source, path })
        },
        None => None,
    }
}

/// `Node::kind`, copied into a `String`.
#[verifier::external_body]
pub(crate) fn node_kind(node: &TsNode) -> (r: String)
    ensures
        r@ == ts_kind(node@.0, node@.1, node@.2),
{
    node.node.kind().to_string()
}

/// `Node::start_byte`.
#[verifier::external_body]
pub(crate) fn node_start(node: &TsNode) -> (r: usize)
    ensures
        r == ts_start(node@.0, node@.1, node@.2),
{
    node.node.start_byte()
}

/// `Node::end_byte`.
#[verifier::external_body]
pub(crate) fn node_end(node: &TsNode) -> (r: usize)
    ensures
        r == ts_end(node@.0, node@.1, node@.2),
{
    node.node.end_byte()
}

/// `Node::is_named`.
#[verifier::external_body]
pub(crate) fn node_is_named(node: &TsNode) -> (r: bool)
    ensures
        r == ts_named(node@.0, node@.1, node@.2),
{
    node.node.is_named()
}

/// `Node::is_error`.
#[verifier::external_body]
pub(crate) fn node_is_error(node: &TsNode) -> (r: bool)
    ensures
        r == ts_error(node@.0, node@.1, node@.2),
{
    node.node.is_error()
}

/// `Node::is_missing`.
#[verifier::external_body]
pub(crate) fn node_is_missing(node: &TsNode) -> (r: bool)
    ensures
        r == ts_missing(node@.0, node@.1, node@.2),
{
    node.node.is_missing()
}

/// `Node::has_error`.
#[verifier::external_body]
pub(crate) fn node_has_error(node: &TsNode) -> (r: bool)
    ensures
        r == ts_has_error(node@.0, node@.1, node@.2),
{
    node.node.has_error()
}

/// `Node::start_position`, as its row and column.
#[verifier::external_body]
pub(crate) fn node_start_position(node: &TsNode) -> (r: (usize, usize))
    ensures
        r == ts_position(node@.0, node@.1, node@.2),
{
    let p = node.node.start_position();
    (p.row, p.column)
}

/// `Node::child_count`.
#[verifier::external_body]
pub(crate) fn node_child_count(node: &TsNode) -> (r: u32)
    ensures
        r == ts_child_count(node@.0, node@.1, node@.2),
{
    node.node.child_count()
}

/// `Node::field_name_for_child`, copied into a `String`.
#[verifier::external_body]
pub(crate) fn node_field_name_for_child(node: &TsNode, i: u32) -> (r: Option<String>)
    ensures
        r matches Some(s) ==> ts_field_name(node@.0, node@.1, node@.2, i) == Some(s@),
        r is None ==> ts_field_name(node@.0, node@.1, node@.2, i) is None,
{
    match node.node.field_name_for_child(i) {
        Some(s) => Some(s.to_string()),
        None => None,
    }
}

} // verus!
