use volumen::csharp::spans as cs;
use volumen::ruby::spans as rb;
use volumen::syntax::SyntaxTree;
use volumen::treesitter::{parse_tree, Grammar};
use volumen::types::Span;

fn span_of(source: &str, needle: &str) -> (u32, u32) {
    let s = source.find(needle).unwrap();
    (s as u32, (s + needle.len()) as u32)
}

fn find_kind(tree: &SyntaxTree, kind: &str) -> usize {
    tree.nodes.iter().position(|n| n.kind == kind).unwrap()
}

#[test]
fn csharp_interpolated_string() {
    let source = "class A { void F() { var s = $\"Hello {name}!\"; } }";
    let tree = parse_tree(Grammar::CSharp, source).unwrap();
    let k = find_kind(&tree, "interpolated_string_expression");
    let shape = cs::span_shape_string_like(&tree, k, source);
    let (s, e) = span_of(source, "$\"Hello {name}!\"");
    assert_eq!(shape.outer, Span { start: s, end: e });
    assert_eq!(shape.inner, Span { start: s + 2, end: e - 1 });
    let vars = cs::extract_interpolation_vars(&tree, k, source);
    assert_eq!(vars.len(), 1);
    assert_eq!(vars[0].exp, "{name}");
    let (bs, be) = span_of(source, "{name}");
    assert_eq!(vars[0].span.outer, Span { start: bs, end: be });
    assert_eq!(vars[0].span.inner, Span { start: bs + 1, end: be - 1 });
}

#[test]
fn csharp_verbatim_and_plain_strings() {
    let source = "class A { string a = @\"x\\y\"; string b = \"z\"; }";
    let tree = parse_tree(Grammar::CSharp, source).unwrap();
    let k = find_kind(&tree, "verbatim_string_literal");
    let shape = cs::span_shape_string_like(&tree, k, source);
    let (s, e) = span_of(source, "@\"x\\y\"");
    assert_eq!(shape.inner, Span { start: s + 2, end: e - 1 });
    let k2 = find_kind(&tree, "string_literal");
    let shape2 = cs::span_shape_string_like(&tree, k2, source);
    let (s2, e2) = span_of(source, "\"z\"");
    assert_eq!(shape2.inner, Span { start: s2 + 1, end: e2 - 1 });
    assert!(cs::extract_interpolation_vars(&tree, k2, source).is_empty());
}

#[test]
fn ruby_interpolation() {
    let source = "x = \"Hello #{name}!\"\n";
    let tree = parse_tree(Grammar::Ruby, source).unwrap();
    let k = find_kind(&tree, "string");
    assert!(rb::is_string_like(&tree, k));
    assert!(rb::is_interpolated_string(&tree, k));
    let shape = rb::span_shape_string_like(&tree, k, source);
    let (s, e) = span_of(source, "\"Hello #{name}!\"");
    assert_eq!(shape.inner, Span { start: s + 1, end: e - 1 });
    let vars = rb::extract_interpolation_vars(&tree, k, source);
    assert_eq!(vars.len(), 1);
    assert_eq!(vars[0].exp, "#{name}");
    let (bs, be) = span_of(source, "#{name}");
    assert_eq!(vars[0].span.inner, Span { start: bs + 2, end: be - 1 });
}

#[test]
fn ruby_plain_string_is_not_interpolated() {
    let source = "x = 'plain'\n";
    let tree = parse_tree(Grammar::Ruby, source).unwrap();
    let k = find_kind(&tree, "string");
    assert!(!rb::is_interpolated_string(&tree, k));
    assert!(rb::extract_interpolation_vars(&tree, k, source).is_empty());
}

#[test]
fn ruby_percent_string() {
    let source = "x = %q(hello)\n";
    let tree = parse_tree(Grammar::Ruby, source).unwrap();
    let k = find_kind(&tree, "string");
    let shape = rb::span_shape_string_like(&tree, k, source);
    let (s, e) = span_of(source, "%q(hello)");
    assert_eq!(shape.outer, Span { start: s, end: e });
    assert_eq!(shape.inner, Span { start: s + 3, end: e - 1 });
}

#[test]
fn ruby_heredoc_beginning() {
    let source = "x = <<~EOS\n  hello\nEOS\n";
    let tree = parse_tree(Grammar::Ruby, source).unwrap();
    let k = find_kind(&tree, "heredoc_beginning");
    let shape = rb::span_shape_string_like(&tree, k, source);
    let (s, _) = span_of(source, "<<~EOS");
    let body_start = source.find("  hello").unwrap() as u32;
    let closing = source.find("EOS\n").unwrap();
    let closing = source[closing + 1..].find("EOS").unwrap() + closing + 1;
    assert_eq!(shape.outer, Span { start: s, end: closing as u32 });
    assert_eq!(shape.inner, Span { start: body_start, end: closing as u32 });
}
