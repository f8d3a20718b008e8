use volumen::benchmarks::{count_tokens, count_tree_nodes, extract_code_sample};
use volumen::expr::parse_printf_placeholders;
use volumen::treesitter::{parse_tree, Grammar};

#[test]
fn count_tokens_python_assignment() {
    assert_eq!(count_tokens("x = 1", "python"), Ok(6));
}

#[test]
fn count_tokens_unknown_language() {
    assert_eq!(count_tokens("x", "cobol"), Err("Unknown language: cobol".to_string()));
}

#[test]
fn count_tree_nodes_matches_tree_size() {
    let source = "package main\n\nfunc main() {}\n";
    let tree = parse_tree(Grammar::Go, source).unwrap();
    assert_eq!(count_tree_nodes(&tree, tree.root), tree.nodes.len() as u64);
    assert_eq!(count_tokens(source, "go"), Ok(tree.nodes.len() as u64));
}

#[test]
fn extract_code_sample_finds_constant() {
    let content = "const OTHER: &str = r#\"no\"#;\nconst SMALL_GO: &str = r#\"package main\"#;\n";
    assert_eq!(extract_code_sample(content, "SMALL_GO"), Some("package main".to_string()));
    assert_eq!(extract_code_sample(content, "MISSING"), None);
    assert_eq!(extract_code_sample("const X: &str = r#\"open", "X"), None);
}

#[test]
fn printf_placeholders() {
    let ph = parse_printf_placeholders("Hello %s, %5.2f%% done %d");
    assert_eq!(ph, vec![(6, 8), (10, 15), (23, 25)]);
    assert!(parse_printf_placeholders("100%").is_empty());
    assert_eq!(parse_printf_placeholders("é%v"), vec![(1, 3)]);
}

#[test]
fn parse_tree_uses_the_grammar_asked_for() {
    let go = volumen::treesitter::parse_tree(volumen::treesitter::Grammar::Go, "package main\n").unwrap();
    assert_eq!(go.nodes[go.root].kind, "source_file");
    assert_eq!(go.root + 1, go.nodes.len());
    let py = volumen::treesitter::parse_tree(volumen::treesitter::Grammar::Python, "x = 1\n").unwrap();
    assert_eq!(py.nodes[py.root].kind, "module");
    let java = volumen::treesitter::parse_tree(volumen::treesitter::Grammar::Java, "class A {}\n").unwrap();
    assert_eq!(java.nodes[java.root].kind, "program");
}

#[test]
fn code_sample_of_constant() {
    assert_eq!(extract_code_sample("const SMALL_GO: &str = r#\"x := 1\"#;", "SMALL_GO"), Some("x := 1".to_string()));
    assert_eq!(extract_code_sample("fn main() {}", "SMALL_GO"), None);
    assert_eq!(extract_code_sample("const A: &str = r#\"say \"hi\"#\"#;", "A"), Some("say \"hi\"#".to_string()));
}
