use volumen::php::parser::ParserPhp;
use volumen::php::spans::{extract_interpolation_vars, get_heredoc_info, is_interpolated_string, is_string_like, span_shape_string_like};
use volumen::syntax::SyntaxTree;
use volumen::treesitter::{parse_tree, Grammar};
use volumen::types::{ParseResult, Prompt, PromptContentToken, Span};

fn prompts_of(result: ParseResult) -> Vec<Prompt> {
    match result {
        ParseResult::ParseResultSuccess { prompts } => prompts,
        ParseResult::ParseResultError { error } => panic!("Parsing failed: {}", error),
    }
}

fn span_of(source: &str, needle: &str) -> (u32, u32) {
    let s = source.find(needle).unwrap();
    (s as u32, (s + needle.len()) as u32)
}

fn find_kind(tree: &SyntaxTree, kind: &str) -> usize {
    tree.nodes.iter().position(|n| n.kind == kind).unwrap()
}

#[test]
fn php_detects_prompt_named_string() {
    let source = "<?php\n$userPrompt = 'Hello, world!';\n";
    let prompts = prompts_of(ParserPhp::parse(source, "a.php"));
    assert_eq!(prompts.len(), 1);
    let (s, e) = span_of(source, "'Hello, world!'");
    let p = &prompts[0];
    assert_eq!(p.span.outer, Span { start: s, end: e });
    assert_eq!(p.span.inner, Span { start: s + 1, end: e - 1 });
    assert_eq!(p.content, vec![PromptContentToken::Str { span: Span { start: s + 1, end: e - 1 } }]);
}

#[test]
fn php_ignores_plain_variable() {
    let source = "<?php\n$greeting = 'Hello';\n";
    let prompts = prompts_of(ParserPhp::parse(source, "a.php"));
    assert!(prompts.is_empty());
}

#[test]
fn php_annotated_variable() {
    let source = "<?php\n// @prompt\n$greeting = 'Hello';\n";
    let prompts = prompts_of(ParserPhp::parse(source, "a.php"));
    assert_eq!(prompts.len(), 1);
    assert_eq!(prompts[0].annotations.len(), 1);
    assert_eq!(prompts[0].annotations[0].exp, "// @prompt");
}

#[test]
fn php_interpolated_string() {
    let source = "<?php\n$userPrompt = \"Hello {$name}!\";\n";
    let prompts = prompts_of(ParserPhp::parse(source, "a.php"));
    assert_eq!(prompts.len(), 1);
    let p = &prompts[0];
    assert_eq!(p.vars.len(), 1);
    assert_eq!(p.vars[0].exp, "{$name}");
    let (bs, be) = span_of(source, "{$name}");
    assert_eq!(p.vars[0].span.outer, Span { start: bs, end: be });
    assert_eq!(p.vars[0].span.inner, Span { start: bs + 1, end: be - 1 });
    let (s, e) = span_of(source, "\"Hello {$name}!\"");
    assert_eq!(
        p.content,
        vec![
            PromptContentToken::Str { span: Span { start: s + 1, end: bs } },
            PromptContentToken::Var { span: Span { start: bs, end: be }, index: 0 },
            PromptContentToken::Str { span: Span { start: be, end: e - 1 } },
        ]
    );
}

#[test]
fn php_concatenation() {
    let source = "<?php\n$userPrompt = 'Hello ' . $name . '!';\n";
    let prompts = prompts_of(ParserPhp::parse(source, "a.php"));
    assert_eq!(prompts.len(), 1);
    let p = &prompts[0];
    assert_eq!(p.vars.len(), 1);
    assert_eq!(p.vars[0].exp, "$name");
    let (ns, ne) = span_of(source, "$name");
    assert_eq!(p.vars[0].span.outer, Span { start: ns - 3, end: ne + 3 });
    assert_eq!(p.content.len(), 3);
}

#[test]
fn php_sprintf() {
    let source = "<?php\n$userPrompt = sprintf('Hello %s', $name);\n";
    let prompts = prompts_of(ParserPhp::parse(source, "a.php"));
    assert_eq!(prompts.len(), 1);
    let p = &prompts[0];
    let (fs, fe) = span_of(source, "'Hello %s'");
    assert_eq!(p.span.inner, Span { start: fs + 1, end: fe - 1 });
    assert_eq!(p.vars.len(), 1);
    assert_eq!(p.vars[0].exp, "$name");
    assert_eq!(
        p.content,
        vec![
            PromptContentToken::Str { span: Span { start: fs + 1, end: fs + 7 } },
            PromptContentToken::Var { span: Span { start: fs + 7, end: fs + 9 }, index: 0 },
        ]
    );
}

#[test]
fn php_implode() {
    let source = "<?php\n$userPrompt = implode(', ', ['Hello', $name]);\n";
    let prompts = prompts_of(ParserPhp::parse(source, "a.php"));
    assert_eq!(prompts.len(), 1);
    let p = &prompts[0];
    let (js, je) = span_of(source, "', '");
    assert_eq!(p.joint.outer, Span { start: js, end: je });
    let (hs, he) = span_of(source, "'Hello'");
    let (ns, ne) = span_of(source, "$name");
    assert_eq!(
        p.content,
        vec![
            PromptContentToken::Str { span: Span { start: hs + 1, end: he - 1 } },
            PromptContentToken::Joint,
            PromptContentToken::Var { span: Span { start: ns, end: ne }, index: 0 },
        ]
    );
}

#[test]
fn php_array() {
    let source = "<?php\n$userPrompt = ['Hello', $name];\n";
    let prompts = prompts_of(ParserPhp::parse(source, "a.php"));
    assert_eq!(prompts.len(), 1);
    let p = &prompts[0];
    let (as_, ae) = span_of(source, "['Hello', $name]");
    assert_eq!(p.span.inner, Span { start: as_ + 1, end: ae - 1 });
    assert_eq!(p.vars.len(), 1);
}

#[test]
fn php_invalid_syntax() {
    let source = "<?php\n$x = ;\n";
    match ParserPhp::parse(source, "a.php") {
        ParseResult::ParseResultError { error } => assert!(error.starts_with("Parse error")),
        ParseResult::ParseResultSuccess { .. } => panic!("expected an error"),
    }
}

#[test]
fn php_heredoc_span_and_info() {
    let source = "<?php\n$x = <<<EOT\n    Hello\n    EOT;\n";
    let tree = parse_tree(Grammar::Php, source).unwrap();
    let k = find_kind(&tree, "heredoc");
    assert!(is_string_like(&tree, k));
    let shape = span_shape_string_like(&tree, k, source);
    let body_start = source.find("    Hello").unwrap() as u32;
    let closing = source.find("    EOT;").unwrap() as u32;
    // The span looks for a closing line equal to the label once trimmed at
    // the end only, so the indented `    EOT;` does not close it.
    assert_eq!(shape.inner, Span { start: body_start, end: closing + 7 });
    let info = get_heredoc_info(&tree, k, source).unwrap();
    assert!(info.strips_whitespace);
    assert_eq!(info.body_start, body_start);
    assert_eq!(info.body_end, closing);
}

#[test]
fn php_interpolation_helpers() {
    let source = "<?php\n$x = \"a $name b\";\n";
    let tree = parse_tree(Grammar::Php, source).unwrap();
    let k = find_kind(&tree, "encapsed_string");
    assert!(is_interpolated_string(&tree, k));
    let vars = extract_interpolation_vars(&tree, k, source);
    assert_eq!(vars.len(), 1);
    assert_eq!(vars[0].exp, "$name");
}

#[test]
fn php_chained_assignment_one_prompt_per_variable() {
    let source = "<?php\n// @prompt\n$a = $b = $c = \"Hi\";\n";
    let prompts = prompts_of(ParserPhp::parse(source, "a.php"));
    assert_eq!(prompts.len(), 3);
    let (s, e) = span_of(source, "\"Hi\"");
    for p in &prompts {
        assert_eq!(p.span.outer, Span { start: s, end: e });
        assert_eq!(p.annotations.len(), 1);
    }
    let two = "<?php\n// @prompt\n$a = $b = \"Hi\";\n";
    assert_eq!(prompts_of(ParserPhp::parse(two, "a.php")).len(), 2);
}
