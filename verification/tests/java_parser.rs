use volumen::java::parser::ParserJava;
use volumen::java::spans::{get_text_block_info, span_shape_string_like};
use volumen::syntax::SyntaxTree;
use volumen::treesitter::{parse_tree, Grammar};
use volumen::types::{ParseResult, Prompt, PromptContentToken, Span};

fn prompts_of(result: ParseResult) -> Vec<Prompt> {
    match result {
        ParseResult::ParseResultSuccess { prompts } => prompts,
        ParseResult::ParseResultError { error } => panic!("Parsing failed: {}", error),
    }
}

fn span_of(source: &str, needle: &str) -> (u32, u32) {
    let s = source.find(needle).unwrap();
    (s as u32, (s + needle.len()) as u32)
}

fn find_kind(tree: &SyntaxTree, kind: &str) -> usize {
    tree.nodes.iter().position(|n| n.kind == kind).unwrap()
}

#[test]
fn java_detects_prompt_named_string() {
    let source = "class A {\n    void f() {\n        String userPrompt = \"Hello\";\n    }\n}\n";
    let prompts = prompts_of(ParserJava::parse(source, "A.java"));
    assert_eq!(prompts.len(), 1);
    let (s, e) = span_of(source, "\"Hello\"");
    let p = &prompts[0];
    assert_eq!(p.span.outer, Span { start: s, end: e });
    assert_eq!(p.content, vec![PromptContentToken::Str { span: Span { start: s + 1, end: e - 1 } }]);
    let (ds, de) = span_of(source, "String userPrompt = \"Hello\";");
    assert_eq!(p.enclosure, Span { start: ds, end: de });
}

#[test]
fn java_field_with_comment_annotation() {
    let source = "class A {\n    // @prompt\n    String greeting = \"Hello\";\n}\n";
    let prompts = prompts_of(ParserJava::parse(source, "A.java"));
    assert_eq!(prompts.len(), 1);
    assert_eq!(prompts[0].annotations.len(), 1);
    assert_eq!(prompts[0].annotations[0].exp, "// @prompt");
    let (cs, _) = span_of(source, "// @prompt");
    assert_eq!(prompts[0].enclosure.start, cs);
}

#[test]
fn java_ignores_plain_variable() {
    let source = "class A {\n    String greeting = \"Hello\";\n}\n";
    assert!(prompts_of(ParserJava::parse(source, "A.java")).is_empty());
}

#[test]
fn java_concatenation() {
    let source = "class A {\n    void f() {\n        String userPrompt = \"Hello \" + name;\n    }\n}\n";
    let prompts = prompts_of(ParserJava::parse(source, "A.java"));
    assert_eq!(prompts.len(), 1);
    let p = &prompts[0];
    assert_eq!(p.vars.len(), 1);
    assert_eq!(p.vars[0].exp, "name");
    let (ns, ne) = span_of(source, "name;");
    assert_eq!(p.vars[0].span.outer, Span { start: ns - 3, end: ne - 1 });
    assert_eq!(p.content.len(), 2);
}

#[test]
fn java_string_format() {
    let source = "class A {\n    void f() {\n        String userPrompt = String.format(\"Hi %s\", name);\n    }\n}\n";
    let prompts = prompts_of(ParserJava::parse(source, "A.java"));
    assert_eq!(prompts.len(), 1);
    let p = &prompts[0];
    let (fs, fe) = span_of(source, "\"Hi %s\"");
    assert_eq!(p.span.inner, Span { start: fs + 1, end: fe - 1 });
    assert_eq!(
        p.content,
        vec![
            PromptContentToken::Str { span: Span { start: fs + 1, end: fs + 4 } },
            PromptContentToken::Var { span: Span { start: fs + 4, end: fs + 6 }, index: 0 },
        ]
    );
    assert_eq!(p.vars[0].exp, "name");
}

#[test]
fn java_text_block() {
    let source = "class A {\n    String userPrompt = \"\"\"\n        Hello\n          World\n        \"\"\";\n}\n";
    let prompts = prompts_of(ParserJava::parse(source, "A.java"));
    assert_eq!(prompts.len(), 1);
    let p = &prompts[0];
    let hello = source.find("Hello").unwrap() as u32;
    let world_line = source.find("          World").unwrap() as u32;
    let world = source.find("World").unwrap() as u32;
    assert_eq!(
        p.content,
        vec![
            PromptContentToken::Str { span: Span { start: hello, end: world_line } },
            PromptContentToken::Str { span: Span { start: world - 2, end: world + 6 } },
        ]
    );
}

#[test]
fn java_text_block_info() {
    let source = "class A {\n    String s = \"\"\"\n        Hello\n        \"\"\";\n}\n";
    let tree = parse_tree(Grammar::Java, source).unwrap();
    let k = tree.nodes.iter().position(|n| n.kind == "string_literal" || n.kind == "text_block").unwrap();
    let info = get_text_block_info(&tree, k, source).unwrap();
    let body_start = source.find("        Hello").unwrap() as u32;
    let body_end = source.find("        \"\"\";").unwrap() as u32;
    assert_eq!(info.body_start, body_start);
    assert_eq!(info.body_end, body_end);
    let shape = span_shape_string_like(&tree, k, source);
    let s = source.find("\"\"\"").unwrap() as u32;
    assert_eq!(shape.inner.start, s + 3);
}

#[test]
fn java_plain_string_shape() {
    let source = "class A { String s = \"ab\"; }";
    let tree = parse_tree(Grammar::Java, source).unwrap();
    let k = find_kind(&tree, "string_literal");
    let shape = span_shape_string_like(&tree, k, source);
    let (s, e) = span_of(source, "\"ab\"");
    assert_eq!(shape.outer, Span { start: s, end: e });
    assert_eq!(shape.inner, Span { start: s + 1, end: e - 1 });
    assert!(get_text_block_info(&tree, k, source).is_none());
}

#[test]
fn java_invalid_syntax() {
    let source = "class A { void f( }";
    match ParserJava::parse(source, "A.java") {
        ParseResult::ParseResultError { error } => assert!(error.starts_with("Parse error")),
        ParseResult::ParseResultSuccess { .. } => panic!("expected an error"),
    }
}
