use volumen::go::parser::ParserGo;
use volumen::go::spans::span_shape_string_like;
use volumen::syntax::SyntaxTree;
use volumen::treesitter::{parse_tree, Grammar};
use volumen::types::{ParseResult, Prompt, PromptContentToken, Span};

fn prompts_of(result: ParseResult) -> Vec<Prompt> {
    match result {
        ParseResult::ParseResultSuccess { prompts } => prompts,
        ParseResult::ParseResultError { error } => panic!("Parsing failed: {}", error),
    }
}

fn span_of(source: &str, needle: &str) -> (u32, u32) {
    let s = source.find(needle).unwrap();
    (s as u32, (s + needle.len()) as u32)
}

fn find_kind(tree: &SyntaxTree, kind: &str) -> usize {
    tree.nodes.iter().position(|n| n.kind == kind).unwrap()
}

#[test]
fn go_detects_prompt_named_string() {
    let source = "package main\n\nfunc main() {\n\tuserPrompt := \"Hello, world!\"\n}\n";
    let prompts = prompts_of(ParserGo::parse(source, "main.go"));
    assert_eq!(prompts.len(), 1);
    let (s, e) = span_of(source, "\"Hello, world!\"");
    let p = &prompts[0];
    assert_eq!(p.file, "main.go");
    assert_eq!(p.span.outer, Span { start: s, end: e });
    assert_eq!(p.span.inner, Span { start: s + 1, end: e - 1 });
    assert!(p.vars.is_empty());
    assert_eq!(p.content, vec![PromptContentToken::Str { span: Span { start: s + 1, end: e - 1 } }]);
    let (ss, se) = span_of(source, "userPrompt := \"Hello, world!\"");
    assert_eq!(p.enclosure, Span { start: ss, end: se });
    assert!(p.annotations.is_empty());
}

#[test]
fn go_ignores_plain_variable() {
    let source = "package main\n\nfunc main() {\n\tgreeting := \"Hello\"\n}\n";
    let prompts = prompts_of(ParserGo::parse(source, "main.go"));
    assert!(prompts.is_empty());
}

#[test]
fn go_annotated_variable() {
    let source = "package main\n\nfunc main() {\n\t// @prompt\n\tgreeting := \"Hello\"\n}\n";
    let prompts = prompts_of(ParserGo::parse(source, "main.go"));
    assert_eq!(prompts.len(), 1);
    let p = &prompts[0];
    assert_eq!(p.annotations.len(), 1);
    assert_eq!(p.annotations[0].exp, "// @prompt");
    let (cs, _) = span_of(source, "// @prompt");
    assert_eq!(p.enclosure.start, cs);
}

#[test]
fn go_reassignment_of_prompt_variable() {
    let source = "package main\n\nfunc main() {\n\tuserPrompt := \"a\"\n\tuserPrompt = \"b\"\n}\n";
    let prompts = prompts_of(ParserGo::parse(source, "main.go"));
    assert_eq!(prompts.len(), 2);
    let (s, _) = span_of(source, "\"b\"");
    assert_eq!(prompts[1].span.outer.start, s);
}

#[test]
fn go_concatenation() {
    let source = "package main\n\nfunc main() {\n\tuserPrompt := \"Hello \" + name + \"!\"\n}\n";
    let prompts = prompts_of(ParserGo::parse(source, "main.go"));
    assert_eq!(prompts.len(), 1);
    let p = &prompts[0];
    assert_eq!(p.vars.len(), 1);
    assert_eq!(p.vars[0].exp, "name");
    let (ns, ne) = span_of(source, "name");
    assert_eq!(p.vars[0].span.inner, Span { start: ns, end: ne });
    assert_eq!(p.vars[0].span.outer, Span { start: ns - 3, end: ne + 3 });
    let (hs, he) = span_of(source, "\"Hello \"");
    let (bs, be) = span_of(source, "\"!\"");
    assert_eq!(p.span.inner, Span { start: hs + 1, end: be - 1 });
    assert_eq!(
        p.content,
        vec![
            PromptContentToken::Str { span: Span { start: hs + 1, end: he - 1 } },
            PromptContentToken::Var { span: Span { start: ns, end: ne }, index: 0 },
            PromptContentToken::Str { span: Span { start: bs + 1, end: be - 1 } },
        ]
    );
}

#[test]
fn go_sprintf() {
    let source = "package main\n\nfunc main() {\n\tuserPrompt := fmt.Sprintf(\"Hello %s!\", name)\n}\n";
    let prompts = prompts_of(ParserGo::parse(source, "main.go"));
    assert_eq!(prompts.len(), 1);
    let p = &prompts[0];
    let (fs, fe) = span_of(source, "\"Hello %s!\"");
    let (cs, ce) = span_of(source, "fmt.Sprintf(\"Hello %s!\", name)");
    assert_eq!(p.span.outer, Span { start: cs, end: ce });
    assert_eq!(p.span.inner, Span { start: fs + 1, end: fe - 1 });
    assert_eq!(p.vars.len(), 1);
    assert_eq!(p.vars[0].exp, "name");
    let i = fs + 1;
    assert_eq!(
        p.content,
        vec![
            PromptContentToken::Str { span: Span { start: i, end: i + 6 } },
            PromptContentToken::Var { span: Span { start: i + 6, end: i + 8 }, index: 0 },
            PromptContentToken::Str { span: Span { start: i + 8, end: fe - 1 } },
        ]
    );
}

#[test]
fn go_strings_join() {
    let source = "package main\n\nfunc main() {\n\tuserPrompt := strings.Join([]string{\"Hello\", name}, \" \")\n}\n";
    let prompts = prompts_of(ParserGo::parse(source, "main.go"));
    assert_eq!(prompts.len(), 1);
    let p = &prompts[0];
    let (js, je) = span_of(source, "\" \"");
    assert_eq!(p.joint.outer, Span { start: js, end: je });
    let (hs, he) = span_of(source, "\"Hello\"");
    let (ns, ne) = span_of(source, "name}");
    assert_eq!(
        p.content,
        vec![
            PromptContentToken::Str { span: Span { start: hs + 1, end: he - 1 } },
            PromptContentToken::Joint,
            PromptContentToken::Var { span: Span { start: ns, end: ne - 1 }, index: 0 },
        ]
    );
    let (ls, le) = span_of(source, "{\"Hello\", name}");
    assert_eq!(p.span.inner, Span { start: ls + 1, end: le - 1 });
}

#[test]
fn go_slice_literal() {
    let source = "package main\n\nfunc main() {\n\tuserPrompt := []string{\"Hello\", name}\n}\n";
    let prompts = prompts_of(ParserGo::parse(source, "main.go"));
    assert_eq!(prompts.len(), 1);
    let p = &prompts[0];
    assert_eq!(p.vars.len(), 1);
    assert_eq!(p.vars[0].exp, "name");
    assert_eq!(p.content.len(), 2);
}

#[test]
fn go_invalid_syntax() {
    let source = "package main\n\nfunc main( {\n";
    match ParserGo::parse(source, "main.go") {
        ParseResult::ParseResultError { error } => assert!(error.starts_with("Parse error")),
        ParseResult::ParseResultSuccess { .. } => panic!("expected an error"),
    }
}

#[test]
fn go_span_shape_raw_string() {
    let source = "package main\n\nvar x = `raw`\n";
    let tree = parse_tree(Grammar::Go, source).unwrap();
    let k = find_kind(&tree, "raw_string_literal");
    let shape = span_shape_string_like(&tree, k, source);
    let (s, e) = span_of(source, "`raw`");
    assert_eq!(shape.outer, Span { start: s, end: e });
    assert_eq!(shape.inner, Span { start: s + 1, end: e - 1 });
}

#[test]
fn go_sprintf_numbers_variables_and_keeps_text() {
    let source = "package main\n\nfunc main() {\n\tuserPrompt := fmt.Sprintf(\"%s and %d\", a, b)\n}\n";
    let prompts = prompts_of(ParserGo::parse(source, "main.go"));
    assert_eq!(prompts.len(), 1);
    let p = &prompts[0];
    assert_eq!(p.exp, "fmt.Sprintf(\"%s and %d\", a, b)");
    let indices: Vec<u32> = p
        .content
        .iter()
        .filter_map(|t| match t {
            PromptContentToken::Var { index, .. } => Some(*index),
            _ => None,
        })
        .collect();
    assert_eq!(indices, vec![0, 1]);
}

#[test]
fn go_prompt_exp_is_outer_text() {
    let source = "package main\n\nfunc main() {\n\tuserPrompt := \"Hi é\"\n}\n";
    let prompts = prompts_of(ParserGo::parse(source, "main.go"));
    assert_eq!(prompts.len(), 1);
    let p = &prompts[0];
    assert_eq!(p.exp, "\"Hi é\"");
    assert_eq!(&source[p.span.outer.start as usize..p.span.outer.end as usize], p.exp);
}
