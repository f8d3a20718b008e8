use volumen::ruby::parser::{calculate_min_heredoc_indent, ParserRb};
use volumen::ruby::spans::get_heredoc_info;
use volumen::syntax::SyntaxTree;
use volumen::treesitter::{parse_tree, Grammar};
use volumen::types::{ParseResult, Prompt, PromptContentToken, Span};

fn prompts_of(result: ParseResult) -> Vec<Prompt> {
    match result {
        ParseResult::ParseResultSuccess { prompts } => prompts,
        ParseResult::ParseResultError { error } => panic!("Parsing failed: {}", error),
    }
}

fn span_of(source: &str, needle: &str) -> (u32, u32) {
    let s = source.find(needle).unwrap();
    (s as u32, (s + needle.len()) as u32)
}

fn find_kind(tree: &SyntaxTree, kind: &str) -> usize {
    tree.nodes.iter().position(|n| n.kind == kind).unwrap()
}

#[test]
fn ruby_detects_prompt_named_string() {
    let source = "user_prompt = \"Hello, world!\"\n";
    let prompts = prompts_of(ParserRb::parse(source, "a.rb"));
    assert_eq!(prompts.len(), 1);
    let (s, e) = span_of(source, "\"Hello, world!\"");
    let p = &prompts[0];
    assert_eq!(p.file, "a.rb");
    assert_eq!(p.span.outer, Span { start: s, end: e });
    assert_eq!(p.span.inner, Span { start: s + 1, end: e - 1 });
    assert_eq!(p.enclosure, Span { start: 0, end: e });
    assert_eq!(p.content, vec![PromptContentToken::Str { span: Span { start: s + 1, end: e - 1 } }]);
}

#[test]
fn ruby_ignores_plain_variable() {
    let source = "greeting = \"Hello\"\n";
    let prompts = prompts_of(ParserRb::parse(source, "a.rb"));
    assert!(prompts.is_empty());
}

#[test]
fn ruby_annotated_variable() {
    let source = "# @prompt\ngreeting = \"Hello\"\n";
    let prompts = prompts_of(ParserRb::parse(source, "a.rb"));
    assert_eq!(prompts.len(), 1);
    assert_eq!(prompts[0].annotations.len(), 1);
    assert_eq!(prompts[0].annotations[0].exp, "# @prompt");
    assert_eq!(prompts[0].enclosure, Span { start: 0, end: (source.len() - 1) as u32 });
}

#[test]
fn ruby_interpolated_string() {
    let source = "user_prompt = \"Hello #{name}!\"\n";
    let prompts = prompts_of(ParserRb::parse(source, "a.rb"));
    assert_eq!(prompts.len(), 1);
    let p = &prompts[0];
    assert_eq!(p.vars.len(), 1);
    assert_eq!(p.vars[0].exp, "#{name}");
    let (bs, be) = span_of(source, "#{name}");
    assert_eq!(p.vars[0].span.outer, Span { start: bs, end: be });
    assert_eq!(p.vars[0].span.inner, Span { start: bs + 2, end: be - 1 });
    let (s, e) = span_of(source, "\"Hello #{name}!\"");
    assert_eq!(
        p.content,
        vec![
            PromptContentToken::Str { span: Span { start: s + 1, end: bs } },
            PromptContentToken::Var { span: Span { start: bs, end: be }, index: 0 },
            PromptContentToken::Str { span: Span { start: be, end: e - 1 } },
        ]
    );
}

#[test]
fn ruby_concatenation() {
    let source = "user_prompt = \"Hello \" + name + \"!\"\n";
    let prompts = prompts_of(ParserRb::parse(source, "a.rb"));
    assert_eq!(prompts.len(), 1);
    let p = &prompts[0];
    let (s1, e1) = span_of(source, "\"Hello \"");
    let (s2, e2) = span_of(source, "\"!\"");
    let (ns, ne) = span_of(source, "name");
    assert_eq!(p.span.outer, Span { start: s1, end: e2 });
    assert_eq!(p.span.inner, Span { start: s1 + 1, end: e2 - 1 });
    assert_eq!(p.vars.len(), 1);
    assert_eq!(p.vars[0].exp, "name");
    assert_eq!(p.vars[0].span.inner, Span { start: ns, end: ne });
    assert_eq!(p.vars[0].span.outer, Span { start: ns - 3, end: ne + 3 });
    assert_eq!(
        p.content,
        vec![
            PromptContentToken::Str { span: Span { start: s1 + 1, end: e1 - 1 } },
            PromptContentToken::Var { span: Span { start: ns, end: ne }, index: 0 },
            PromptContentToken::Str { span: Span { start: s2 + 1, end: e2 - 1 } },
        ]
    );
}

#[test]
fn ruby_concatenation_with_array_is_rejected() {
    let source = "user_prompt = \"Hello \" + [1]\n";
    let prompts = prompts_of(ParserRb::parse(source, "a.rb"));
    assert!(prompts.is_empty());
}

#[test]
fn ruby_concatenation_without_string_is_rejected() {
    let source = "user_prompt = a + b\n";
    let prompts = prompts_of(ParserRb::parse(source, "a.rb"));
    assert!(prompts.is_empty());
}

#[test]
fn ruby_chained_assignment() {
    let source = "a = user_prompt = \"Hi\"\n";
    let prompts = prompts_of(ParserRb::parse(source, "a.rb"));
    assert_eq!(prompts.len(), 1);
    let (s, e) = span_of(source, "\"Hi\"");
    assert_eq!(prompts[0].span.outer, Span { start: s, end: e });
    assert_eq!(prompts[0].enclosure, Span { start: 0, end: e });
}

#[test]
fn ruby_chained_assignment_annotated() {
    let source = "# @prompt\na = b = \"Hi\"\n";
    let prompts = prompts_of(ParserRb::parse(source, "a.rb"));
    assert_eq!(prompts.len(), 2);
}

#[test]
fn ruby_multi_assignment() {
    let source = "hello_prompt, other = \"Hello\", \"Bye\"\n";
    let prompts = prompts_of(ParserRb::parse(source, "a.rb"));
    assert_eq!(prompts.len(), 1);
    let (s, e) = span_of(source, "\"Hello\"");
    assert_eq!(prompts[0].span.outer, Span { start: s, end: e });
    assert_eq!(prompts[0].span.inner, Span { start: s + 1, end: e - 1 });
    assert!(prompts[0].vars.is_empty());
}

#[test]
fn ruby_annotated_identifier_marks_later_assignment() {
    let source = "# @prompt\ngreeting\ngreeting = \"Hello\"\n";
    let prompts = prompts_of(ParserRb::parse(source, "a.rb"));
    assert_eq!(prompts.len(), 1);
    assert_eq!(prompts[0].annotations.len(), 1);
    assert_eq!(prompts[0].annotations[0].exp, "# @prompt");
}

#[test]
fn ruby_method_scope_forgets_marks() {
    let source = "def f\n  # @prompt\n  greeting = \"Hi\"\nend\ngreeting = \"Bye\"\n";
    let prompts = prompts_of(ParserRb::parse(source, "a.rb"));
    assert_eq!(prompts.len(), 1);
    let (s, e) = span_of(source, "\"Hi\"");
    assert_eq!(prompts[0].span.outer, Span { start: s, end: e });
}

#[test]
fn ruby_squiggly_heredoc_tokens() {
    let source = "user_prompt = <<~EOS\n  Hello\n    there\nEOS\n";
    let prompts = prompts_of(ParserRb::parse(source, "a.rb"));
    assert_eq!(prompts.len(), 1);
    let p = &prompts[0];
    let (os, _) = span_of(source, "<<~EOS");
    let body_start = source.find("  Hello").unwrap() as u32;
    let body_end = source.rfind("EOS").unwrap() as u32;
    assert_eq!(p.span.outer, Span { start: os, end: body_end });
    assert_eq!(p.span.inner, Span { start: body_start, end: body_end });
    let l2 = source.find("    there").unwrap() as u32;
    assert_eq!(
        p.content,
        vec![
            PromptContentToken::Str { span: Span { start: body_start + 2, end: l2 } },
            PromptContentToken::Str { span: Span { start: l2 + 2, end: body_end } },
        ]
    );
}

#[test]
fn ruby_plain_heredoc_keeps_indentation() {
    let source = "user_prompt = <<-EOS\n  Hello\n  EOS\n";
    let prompts = prompts_of(ParserRb::parse(source, "a.rb"));
    assert_eq!(prompts.len(), 1);
    let p = &prompts[0];
    let body_start = source.find("  Hello").unwrap() as u32;
    let body_end = source.rfind("  EOS").unwrap() as u32;
    assert_eq!(p.span.inner, Span { start: body_start, end: body_end });
    assert_eq!(p.content, vec![PromptContentToken::Str { span: Span { start: body_start, end: body_end } }]);
}

#[test]
fn ruby_heredoc_info_of_opener() {
    let source = "x = <<~EOS\n  a\nEOS\n";
    let tree = parse_tree(Grammar::Ruby, source).unwrap();
    let k = find_kind(&tree, "heredoc_beginning");
    let info = get_heredoc_info(&tree, k, source).unwrap();
    assert!(info.strips_whitespace);
    assert_eq!(info.body_start, source.find("  a").unwrap() as u32);
    assert_eq!(info.body_end, source.rfind("EOS").unwrap() as u32);
    let k2 = find_kind(&tree, "identifier");
    assert!(get_heredoc_info(&tree, k2, source).is_none());
}

#[test]
fn ruby_min_heredoc_indent_skips_blank_lines() {
    let source = "    a\n\n  b\n   \n";
    assert_eq!(calculate_min_heredoc_indent(source, 0, source.len()), 2);
    assert_eq!(calculate_min_heredoc_indent(source, 6, 7), 0);
}

#[test]
fn ruby_parse_error_is_reported() {
    let source = "user_prompt = (\n";
    match ParserRb::parse(source, "a.rb") {
        ParseResult::ParseResultError { error } => assert!(error.starts_with("Parse errors:")),
        ParseResult::ParseResultSuccess { .. } => panic!("expected an error"),
    }
}
