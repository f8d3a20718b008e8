use volumen::comments::CommentTracker;
use volumen::python::parser::{detect_prompts, ParserPy};
use volumen::python::scope::ScopeTracker;
use volumen::python::spans::{extract_fstring_vars, span_shape_string_like};
use volumen::syntax::SyntaxTree;
use volumen::treesitter::{parse_tree, Grammar};
use volumen::types::{ParseResult, Prompt, PromptAnnotation, PromptContentToken, Span};

fn parse(source: &str) -> SyntaxTree {
    parse_tree(Grammar::Python, source).unwrap()
}

fn find_node_by_kind(tree: &SyntaxTree, i: usize, kind: &str) -> Option<usize> {
    if tree.nodes[i].kind == kind {
        return Some(i);
    }
    for &c in &tree.nodes[i].children {
        if let Some(found) = find_node_by_kind(tree, c, kind) {
            return Some(found);
        }
    }
    None
}

fn prompts_of(result: ParseResult) -> Vec<Prompt> {
    match result {
        ParseResult::ParseResultSuccess { prompts } => prompts,
        ParseResult::ParseResultError { error } => panic!("Parsing failed: {}", error),
    }
}

#[test]
fn test_extract_comments() {
    let source = "# Comment 1\n# Comment 2\nx = 1";
    let tree = parse(source);
    let tracker = CommentTracker::new(&tree, source);
    assert_eq!(tracker.comments().len(), 2);
    assert_eq!(tracker.comments()[0].text, "# Comment 1");
    assert_eq!(tracker.comments()[1].text, "# Comment 2");
}

#[test]
fn test_collect_adjacent_leading() {
    let source = "# @prompt\n# This is a prompt\nx = \"hello\"";
    let tree = parse(source);
    let tracker = CommentTracker::new(&tree, source);
    let root = tree.root;
    let expr_stmt = tree.nodes[root]
        .children
        .iter()
        .copied()
        .find(|&c| tree.nodes[c].kind == "expression_statement")
        .unwrap();
    let stmt_start = tree.nodes[expr_stmt].start as u32;
    let annotations = tracker.collect_adjacent_leading(stmt_start);
    assert_eq!(annotations.len(), 1);
    assert!(annotations[0].exp.contains("@prompt"));
    assert!(annotations[0].exp.contains("This is a prompt"));
}

#[test]
fn test_collect_inline_prompt() {
    let source = "x = \"hello\"  # @prompt";
    let tree = parse(source);
    let tracker = CommentTracker::new(&tree, source);
    let annotations = tracker.collect_inline_prompt(0, source.len() as u32);
    assert_eq!(annotations.len(), 1);
    assert_eq!(annotations[0].exp, "# @prompt");
}

#[test]
fn test_no_adjacent_with_gap() {
    let source = "# Comment\n\nx = \"hello\"";
    let tree = parse(source);
    let tracker = CommentTracker::new(&tree, source);
    let root = tree.root;
    let assignment = tree.nodes[root].children[0];
    let stmt_start = tree.nodes[assignment].start as u32;
    let annotations = tracker.collect_adjacent_leading(stmt_start);
    assert_eq!(annotations.len(), 0);
}

#[test]
fn leading_block_without_marker_still_encloses() {
    let source = "# plain\n# words\nx = 1";
    let tree = parse(source);
    let tracker = CommentTracker::new(&tree, source);
    let stmt_start = source.find("x =").unwrap() as u32;
    assert_eq!(tracker.collect_adjacent_leading(stmt_start).len(), 0);
    assert_eq!(tracker.get_leading_start(stmt_start), None);
    assert_eq!(tracker.get_any_leading_start(stmt_start), Some(0));
}

#[test]
fn leading_block_merges_contiguous_comments() {
    let source = "# one\n# @prompt two\nx = 1";
    let tree = parse(source);
    let tracker = CommentTracker::new(&tree, source);
    let stmt_start = source.find("x =").unwrap() as u32;
    let ann = tracker.collect_adjacent_leading(stmt_start);
    assert_eq!(ann, vec![PromptAnnotation { span: Span { start: 0, end: 19 }, exp: "# one\n# @prompt two".to_string() }]);
    assert_eq!(tracker.get_leading_start(stmt_start), Some(0));
    assert_eq!(tracker.get_any_leading_start(stmt_start), Some(0));
}

#[test]
fn inline_prompt_outside_range_is_ignored() {
    let source = "x = 1  # @prompt";
    let tree = parse(source);
    let tracker = CommentTracker::new(&tree, source);
    assert_eq!(tracker.collect_inline_prompt(0, 5).len(), 0);
    assert_eq!(tracker.collect_inline_prompt(0, 8).len(), 1);
}

#[test]
fn test_scope_tracking() {
    let mut tracker = ScopeTracker::new();
    tracker.mark_prompt_ident("global_prompt");
    assert!(tracker.is_prompt_ident("global_prompt"));
    tracker.enter_scope();
    tracker.mark_prompt_ident("local_prompt");
    assert!(tracker.is_prompt_ident("global_prompt"));
    assert!(tracker.is_prompt_ident("local_prompt"));
    tracker.exit_scope();
    assert!(tracker.is_prompt_ident("global_prompt"));
    assert!(!tracker.is_prompt_ident("local_prompt"));
}

#[test]
fn test_annotation_storage() {
    let mut tracker = ScopeTracker::new();
    let annotation = PromptAnnotation { span: Span { start: 0, end: 10 }, exp: "# @prompt".to_string() };
    tracker.store_def_annotation("test_var", vec![annotation.clone()]);
    let retrieved = tracker.get_def_annotation("test_var");
    assert!(retrieved.is_some());
    assert_eq!(retrieved.unwrap().len(), 1);
}

#[test]
fn test_annotated_idents() {
    let mut tracker = ScopeTracker::new();
    tracker.mark_annotated("typed_var");
    assert!(tracker.is_annotated("typed_var"));
    assert!(!tracker.is_annotated("untyped_var"));
}

#[test]
fn test_nested_scopes() {
    let mut tracker = ScopeTracker::new();
    tracker.mark_prompt_ident("outer");
    tracker.enter_scope();
    tracker.mark_prompt_ident("middle");
    tracker.enter_scope();
    tracker.mark_prompt_ident("inner");
    assert!(tracker.is_prompt_ident("outer"));
    assert!(tracker.is_prompt_ident("middle"));
    assert!(tracker.is_prompt_ident("inner"));
    tracker.exit_scope();
    assert!(tracker.is_prompt_ident("outer"));
    assert!(tracker.is_prompt_ident("middle"));
    assert!(!tracker.is_prompt_ident("inner"));
    tracker.exit_scope();
    assert!(tracker.is_prompt_ident("outer"));
    assert!(!tracker.is_prompt_ident("middle"));
    assert!(!tracker.is_prompt_ident("inner"));
}

#[test]
fn exit_of_global_scope_keeps_it() {
    let mut tracker = ScopeTracker::default();
    tracker.mark_prompt_ident("kept");
    tracker.exit_scope();
    tracker.exit_scope();
    assert!(tracker.is_prompt_ident("kept"));
}

#[test]
fn def_annotation_of_inner_scope_shadows_outer() {
    let mut tracker = ScopeTracker::new();
    let outer = PromptAnnotation { span: Span { start: 0, end: 1 }, exp: "#o".to_string() };
    let inner = PromptAnnotation { span: Span { start: 5, end: 6 }, exp: "#i".to_string() };
    tracker.store_def_annotation("v", vec![outer.clone()]);
    tracker.enter_scope();
    tracker.store_def_annotation("v", vec![inner.clone()]);
    assert_eq!(tracker.get_def_annotation("v"), Some(vec![inner]));
    tracker.exit_scope();
    assert_eq!(tracker.get_def_annotation("v"), Some(vec![outer]));
    assert_eq!(tracker.get_def_annotation("w"), None);
}

#[test]
fn test_span_shape_string_simple() {
    let source = "\"hello\"";
    let tree = parse(source);
    let string_node = find_node_by_kind(&tree, tree.root, "string").unwrap();
    let span = span_shape_string_like(&tree, string_node, source);
    assert_eq!(span.outer.start, 0);
    assert_eq!(span.outer.end, 7);
    assert_eq!(span.inner.start, 1);
    assert_eq!(span.inner.end, 6);
}

#[test]
fn test_span_shape_fstring() {
    let source = "f\"hello {name}\"";
    let tree = parse(source);
    let string_node = find_node_by_kind(&tree, tree.root, "string").unwrap();
    let span = span_shape_string_like(&tree, string_node, source);
    assert_eq!(span.outer.start, 0);
    assert_eq!(span.outer.end, 15);
    assert_eq!(span.inner.start, 2);
    assert_eq!(span.inner.end, 14);
}

#[test]
fn span_shape_triple_quoted() {
    let source = "'''abc'''";
    let tree = parse(source);
    let string_node = find_node_by_kind(&tree, tree.root, "string").unwrap();
    let span = span_shape_string_like(&tree, string_node, source);
    assert_eq!((span.inner.start, span.inner.end), (3, 6));
}

#[test]
fn test_extract_fstring_vars_single() {
    let source = "f\"Hello {name}\"";
    let tree = parse(source);
    let string_node = find_node_by_kind(&tree, tree.root, "string").unwrap();
    let vars = extract_fstring_vars(&tree, string_node, source);
    assert_eq!(vars.len(), 1);
    assert_eq!(vars[0].exp, "{name}");
    assert_eq!(vars[0].span.outer.start, 8);
    assert_eq!(vars[0].span.outer.end, 14);
    assert_eq!((vars[0].span.inner.start, vars[0].span.inner.end), (9, 13));
}

#[test]
fn test_extract_fstring_vars_multiple() {
    let source = "f\"Hello {first} {last}\"";
    let tree = parse(source);
    let string_node = find_node_by_kind(&tree, tree.root, "string").unwrap();
    let vars = extract_fstring_vars(&tree, string_node, source);
    assert_eq!(vars.len(), 2);
    assert_eq!(vars[0].exp, "{first}");
    assert_eq!(vars[1].exp, "{last}");
}

#[test]
fn fstring_var_inner_drops_braces_only() {
    let source = "f\"{ name }\"";
    let tree = parse(source);
    let string_node = find_node_by_kind(&tree, tree.root, "string").unwrap();
    let vars = extract_fstring_vars(&tree, string_node, source);
    assert_eq!(vars.len(), 1);
    assert_eq!((vars[0].span.outer.start, vars[0].span.outer.end), (2, 10));
    assert_eq!((vars[0].span.inner.start, vars[0].span.inner.end), (3, 9));
}

#[test]
fn ts_detect_var_comment_dirty_str() {
    let src = "# @prompt system\nsystem = \"You are a helpful assistant.\"\n";
    let prompts = prompts_of(ParserPy::parse(src, "prompts.py"));
    assert_eq!(prompts.len(), 1);
    let p = &prompts[0];
    assert_eq!(p.file, "prompts.py");
    assert_eq!((p.span.outer.start, p.span.outer.end), (26, 56));
    assert_eq!((p.span.inner.start, p.span.inner.end), (27, 55));
    assert_eq!((p.enclosure.start, p.enclosure.end), (0, 56));
    assert!(p.vars.is_empty());
    assert_eq!(p.annotations, vec![PromptAnnotation { span: Span { start: 0, end: 16 }, exp: "# @prompt system".to_string() }]);
    assert_eq!(p.content, vec![PromptContentToken::Str { span: Span { start: 27, end: 55 } }]);
}

#[test]
fn ts_detect_var_comment_dirty_fstr() {
    let src = "# @prompt user\ngreeting = f\"Welcome {user}!\"\n";
    let prompts = prompts_of(ParserPy::parse(src, "prompts.py"));
    assert_eq!(prompts.len(), 1);
    let p = &prompts[0];
    assert_eq!((p.span.outer.start, p.span.outer.end), (26, 44));
    assert_eq!((p.span.inner.start, p.span.inner.end), (28, 43));
    assert_eq!((p.enclosure.start, p.enclosure.end), (0, 44));
    assert_eq!(p.vars.len(), 1);
    assert_eq!(p.vars[0].exp, "{user}");
    assert_eq!((p.vars[0].span.outer.start, p.vars[0].span.outer.end), (36, 42));
    assert_eq!((p.vars[0].span.inner.start, p.vars[0].span.inner.end), (37, 41));
    assert_eq!(p.annotations[0].exp, "# @prompt user");
    assert_eq!(
        p.content,
        vec![
            PromptContentToken::Str { span: Span { start: 28, end: 36 } },
            PromptContentToken::Var { span: Span { start: 36, end: 42 }, index: 0 },
            PromptContentToken::Str { span: Span { start: 42, end: 43 } },
        ]
    );
}

#[test]
fn ts_detect_var_comment_spaced() {
    let src = "# @prompt\n\n\nhello = \"Hello, world!\"\n\n# @prompt\nnope()\n\nworld = \"Hello!\"\n";
    let prompts = prompts_of(ParserPy::parse(src, "prompts.py"));
    assert_eq!(prompts.len(), 1);
    let p = &prompts[0];
    assert_eq!((p.span.outer.start, p.span.outer.end), (20, 35));
    assert_eq!((p.span.inner.start, p.span.inner.end), (21, 34));
    assert_eq!((p.enclosure.start, p.enclosure.end), (0, 35));
    assert_eq!(p.annotations[0].exp, "# @prompt");
}

#[test]
fn compare_detect_none() {
    let src = "hello = 42\n";
    assert_eq!(prompts_of(ParserPy::parse(src, "prompts.py")).len(), 0);
}

#[test]
fn compare_detect_var_name_str() {
    let src = "user_prompt = \"You are a helpful assistant.\"\n";
    let prompts = prompts_of(ParserPy::parse(src, "prompts.py"));
    assert_eq!(prompts.len(), 1);
    assert_eq!((prompts[0].span.outer.start, prompts[0].span.outer.end), (14, 44));
    assert_eq!((prompts[0].enclosure.start, prompts[0].enclosure.end), (0, 44));
    assert!(prompts[0].annotations.is_empty());
}

#[test]
fn compare_detect_var_comment_none() {
    let src = "# @prompting\nhello = f\"Hello, world!\"\n";
    assert_eq!(prompts_of(ParserPy::parse(src, "prompts.py")).len(), 0);
}

#[test]
fn compare_detect_var_comment_mixed() {
    let src = "# @prompt\nhello = \"You are a helpful assistant.\"\ngoodbye = \"Goodbye!\"\n";
    let prompts = prompts_of(ParserPy::parse(src, "prompts.py"));
    assert_eq!(prompts.len(), 1);
    assert_eq!(&src[prompts[0].span.outer.start as usize..prompts[0].span.outer.end as usize], "\"You are a helpful assistant.\"");
}

#[test]
fn compare_detect_assign_var_comment() {
    let src = "# @prompt\nhello : str\nhello = f\"Assigned {value}\"\n";
    let prompts = prompts_of(ParserPy::parse(src, "prompts.py"));
    assert_eq!(prompts.len(), 1);
    let p = &prompts[0];
    assert_eq!(&src[p.span.outer.start as usize..p.span.outer.end as usize], "f\"Assigned {value}\"");
    assert_eq!(p.annotations.len(), 1);
    assert_eq!(p.annotations[0].exp, "# @prompt");
    assert_eq!(p.vars.len(), 1);
    assert_eq!(p.vars[0].exp, "{value}");
}

#[test]
fn compare_reassign_with_comment() {
    let src = "# @prompt\nhello : str\nhello = 42\n# @prompt fresh\nhello = f\"Assigned {value}\"\n";
    let prompts = prompts_of(ParserPy::parse(src, "prompts.py"));
    assert_eq!(prompts.len(), 1);
    assert_eq!(prompts[0].annotations.len(), 1);
    assert_eq!(prompts[0].annotations[0].exp, "# @prompt fresh");
}

#[test]
fn compare_detect_chained_assign() {
    let src = "# @prompt\na = b = \"Chained\"\n";
    let prompts = prompts_of(ParserPy::parse(src, "prompts.py"));
    assert_eq!(prompts.len(), 2);
    for p in &prompts {
        assert_eq!(&src[p.span.outer.start as usize..p.span.outer.end as usize], "\"Chained\"");
        assert_eq!((p.enclosure.start, p.enclosure.end), (0, 27));
        assert_eq!(p.annotations.len(), 1);
    }
}

#[test]
fn compare_detect_multi_assign_var_comment() {
    let src = "# @prompt\na, b = [\"Hello\", \"World\"]\n";
    let prompts = prompts_of(ParserPy::parse(src, "prompts.py"));
    assert_eq!(prompts.len(), 2);
    assert_eq!(&src[prompts[0].span.outer.start as usize..prompts[0].span.outer.end as usize], "\"Hello\"");
    assert_eq!(&src[prompts[1].span.outer.start as usize..prompts[1].span.outer.end as usize], "\"World\"");
}

#[test]
fn compare_parse_spans_multiline_str() {
    let src = "user_prompt = \"\"\"\nYou are a helpful assistant.\n\"\"\"\n";
    let prompts = prompts_of(ParserPy::parse(src, "prompts.py"));
    assert_eq!(prompts.len(), 1);
    assert_eq!((prompts[0].span.inner.start, prompts[0].span.inner.end), (17, 47));
}

#[test]
fn compare_detect_var_comment_mixed_nested() {
    let src = "class Hello:\n    def world(self):\n        # @prompt\n        hello = 42\n        # @prompt\n        hi = 42\n        hi = \"Hi!\"\nhello = \"Hello, world!\"\n";
    let prompts = prompts_of(ParserPy::parse(src, "prompts.py"));
    assert_eq!(prompts.len(), 1);
    let p = &prompts[0];
    assert_eq!(text(src, p.span.outer), "\"Hi!\"");
    assert_eq!(text(src, p.enclosure), "hi = \"Hi!\"");
    assert!(p.annotations.is_empty());
}

#[test]
fn compare_parse_nested() {
    let src = "class Agent:\n    def __init__(self):\n        self.user_prompt = \"You are a helpful assistant.\"\n";
    assert!(prompts_of(ParserPy::parse(src, "prompts.py")).is_empty());
}

#[test]
fn compare_handle_invalid_syntax() {
    let src = "user_prompt = \"Unterminated string\n";
    match ParserPy::parse(src, "prompts.py") {
        ParseResult::ParseResultError { error } => assert!(error.starts_with("Syntax error at line 1")),
        ParseResult::ParseResultSuccess { .. } => panic!("expected an error"),
    }
}

#[test]
fn detect_from_tree_matches_parse() {
    let src = "my_prompt = 'x'\n";
    let tree = parse(src);
    assert_eq!(detect_prompts(&tree, src, "a.py"), ParserPy::parse(src, "a.py"));
}

fn text(src: &str, sp: Span) -> &str {
    &src[sp.start as usize..sp.end as usize]
}

fn at(src: &str, needle: &str) -> Span {
    let s = src.find(needle).unwrap();
    Span { start: s as u32, end: (s + needle.len()) as u32 }
}

fn check_fstring_prompt(src: &str, literal: &str, vars: &[&str], enclosure: &str) {
    let prompts = prompts_of(ParserPy::parse(src, "prompts.py"));
    assert_eq!(prompts.len(), 1);
    let p = &prompts[0];
    assert_eq!(p.file, "prompts.py");
    assert_eq!(p.span.outer, at(src, literal));
    assert_eq!(text(src, p.enclosure), enclosure);
    assert_eq!(p.vars.len(), vars.len());
    for (v, exp) in p.vars.iter().zip(vars) {
        let o = at(src, exp);
        assert_eq!(v.exp, *exp);
        assert_eq!(v.span.outer, o);
        assert_eq!(v.span.inner, Span { start: o.start + 1, end: o.end - 1 });
    }
}

#[test]
fn compare_detect_var_name_fstr() {
    let src = "user_prompt = f\"You are a {role}.\"\n";
    check_fstring_prompt(src, "f\"You are a {role}.\"", &["{role}"], "user_prompt = f\"You are a {role}.\"");
    let prompts = prompts_of(ParserPy::parse(src, "prompts.py"));
    assert!(prompts[0].annotations.is_empty());
}

#[test]
fn compare_detect_var_comment_str() {
    let src = "# @prompt\nhello = \"You are a helpful assistant.\"\n";
    let prompts = prompts_of(ParserPy::parse(src, "prompts.py"));
    assert_eq!(prompts.len(), 1);
    let p = &prompts[0];
    assert_eq!(p.span.outer, at(src, "\"You are a helpful assistant.\""));
    assert_eq!(text(src, p.enclosure), "# @prompt\nhello = \"You are a helpful assistant.\"");
    assert!(p.vars.is_empty());
    assert_eq!(p.annotations.len(), 1);
    assert_eq!(p.annotations[0].exp, "# @prompt");
    assert_eq!(p.annotations[0].span, Span { start: 0, end: 9 });
}

#[test]
fn compare_detect_var_comment_fstr() {
    let src = "# @prompt\nhello = f\"You are a {role}.\"\n";
    check_fstring_prompt(src, "f\"You are a {role}.\"", &["{role}"], "# @prompt\nhello = f\"You are a {role}.\"");
    let prompts = prompts_of(ParserPy::parse(src, "prompts.py"));
    assert_eq!(prompts[0].annotations.len(), 1);
    assert_eq!(prompts[0].annotations[0].exp, "# @prompt");
}

#[test]
fn compare_detect_var_comment_dirty_str() {
    let src = "# @prompt this is my special prompt\nhello = \"You are a helpful assistant.\"\n";
    let prompts = prompts_of(ParserPy::parse(src, "prompts.py"));
    assert_eq!(prompts.len(), 1);
    assert_eq!(prompts[0].span.outer, at(src, "\"You are a helpful assistant.\""));
    assert_eq!(prompts[0].enclosure, Span { start: 0, end: (src.len() - 1) as u32 });
    assert_eq!(prompts[0].annotations.len(), 1);
    assert_eq!(prompts[0].annotations[0].exp, "# @prompt this is my special prompt");
}

#[test]
fn compare_detect_var_comment_dirty_fstr() {
    let src = "# @prompt this is my special prompt\nhello = f\"You are a {role}.\"\n";
    check_fstring_prompt(src, "f\"You are a {role}.\"", &["{role}"], &src[..src.len() - 1]);
    let prompts = prompts_of(ParserPy::parse(src, "prompts.py"));
    assert_eq!(prompts[0].annotations[0].exp, "# @prompt this is my special prompt");
}

#[test]
fn compare_detect_var_comment_spaced() {
    let src = "# This is a comment\n# @prompt this is my special prompt\n# This is another comment\nhello = f\"You are a {role}.\"\n";
    check_fstring_prompt(src, "f\"You are a {role}.\"", &["{role}"], &src[..src.len() - 1]);
    let prompts = prompts_of(ParserPy::parse(src, "prompts.py"));
    assert_eq!(prompts[0].annotations.len(), 1);
    assert_eq!(
        prompts[0].annotations[0].exp,
        "# This is a comment\n# @prompt this is my special prompt\n# This is another comment"
    );
}

#[test]
fn compare_detect_reassign_var_comment() {
    let src = "# @prompt\nhello : str\nhello = 42\nhello = f\"Assigned {value}\"\n";
    check_fstring_prompt(src, "f\"Assigned {value}\"", &["{value}"], "hello = f\"Assigned {value}\"");
    let prompts = prompts_of(ParserPy::parse(src, "prompts.py"));
    assert_eq!(prompts[0].annotations.len(), 1);
    assert_eq!(prompts[0].annotations[0].exp, "# @prompt");
}

#[test]
fn compare_reassign_no_comment() {
    let src = "hello: str\n# @prompt def\nhello = 42\nhello = f\"Assigned {value}\"\n";
    check_fstring_prompt(src, "f\"Assigned {value}\"", &["{value}"], "hello = f\"Assigned {value}\"");
    let prompts = prompts_of(ParserPy::parse(src, "prompts.py"));
    assert!(prompts[0].annotations.is_empty());
}

#[test]
fn compare_detect_multi_vars() {
    let src = "user_prompt = \"You are a helpful assistant.\"\nsystem_prompt = \"You are an AI.\"\n";
    let prompts = prompts_of(ParserPy::parse(src, "prompts.py"));
    assert_eq!(prompts.len(), 2);
    assert_eq!(prompts[0].span.outer, at(src, "\"You are a helpful assistant.\""));
    assert_eq!(prompts[1].span.outer, at(src, "\"You are an AI.\""));
    assert_eq!(text(src, prompts[1].enclosure), "system_prompt = \"You are an AI.\"");
}

#[test]
fn compare_detect_multi_assign_variants() {
    let src = "# @prompt\n(c, d) = [\"Tuple\", \"Test\"]\n# @prompt\n[e, f] = [\"List\", \"Test\"]\n";
    let prompts = prompts_of(ParserPy::parse(src, "prompts.py"));
    assert_eq!(prompts.len(), 4);
    let second = src.find("[e, f]").unwrap();
    assert_eq!(text(src, prompts[0].span.outer), "\"Tuple\"");
    assert_eq!(text(src, prompts[1].span.outer), "\"Test\"");
    assert_eq!(text(src, prompts[2].span.outer), "\"List\"");
    assert_eq!(prompts[3].span.outer.start as usize, src.rfind("\"Test\"").unwrap());
    assert_eq!(text(src, prompts[0].enclosure), "# @prompt\n(c, d) = [\"Tuple\", \"Test\"]");
    assert_eq!(prompts[2].enclosure.start as usize, second - 10);
    for p in &prompts {
        assert_eq!(p.annotations.len(), 1);
        assert_eq!(p.annotations[0].exp, "# @prompt");
    }
}

#[test]
fn compare_parse_spans_str() {
    let src = "user_prompt = \"You are a helpful assistant.\"\n";
    let prompts = prompts_of(ParserPy::parse(src, "prompts.py"));
    assert_eq!(prompts.len(), 1);
    assert_eq!(prompts[0].span.outer, Span { start: 14, end: 44 });
    assert_eq!(prompts[0].span.inner, Span { start: 15, end: 43 });
}

#[test]
fn compare_parse_spans_fstr() {
    let src = "user_prompt = f\"You are a {role}.\"\n";
    let prompts = prompts_of(ParserPy::parse(src, "prompts.py"));
    assert_eq!(prompts.len(), 1);
    assert_eq!(prompts[0].span.outer, Span { start: 14, end: 34 });
    assert_eq!(prompts[0].span.inner, Span { start: 16, end: 33 });
}

#[test]
fn compare_parse_spans_multiline_fstr() {
    let src = "user_prompt = f\"\"\"\nYou are a {role}.\n\"\"\"\n";
    let prompts = prompts_of(ParserPy::parse(src, "prompts.py"));
    assert_eq!(prompts.len(), 1);
    let lit = at(src, "f\"\"\"\nYou are a {role}.\n\"\"\"");
    assert_eq!(prompts[0].span.outer, lit);
    assert_eq!(prompts[0].span.inner, Span { start: lit.start + 4, end: lit.end - 3 });
    assert_eq!(prompts[0].vars.len(), 1);
    assert_eq!(prompts[0].vars[0].exp, "{role}");
}

#[test]
fn compare_parse_exp_vars() {
    let src = "user_prompt = f\"You are a {role}.\"\n";
    check_fstring_prompt(src, "f\"You are a {role}.\"", &["{role}"], "user_prompt = f\"You are a {role}.\"");
}

#[test]
fn compare_parse_exp_complex_vars() {
    let src = "user_prompt = f\"Hello {first} {last}!\"\n";
    check_fstring_prompt(src, "f\"Hello {first} {last}!\"", &["{first}", "{last}"], "user_prompt = f\"Hello {first} {last}!\"");
}

#[test]
fn compare_parse_multiline_str() {
    let src = "user_prompt = \"\"\"You are a helpful assistant.\"\"\"\n";
    let prompts = prompts_of(ParserPy::parse(src, "prompts.py"));
    assert_eq!(prompts.len(), 1);
    let lit = at(src, "\"\"\"You are a helpful assistant.\"\"\"");
    assert_eq!(prompts[0].span.outer, lit);
    assert_eq!(prompts[0].span.inner, Span { start: lit.start + 3, end: lit.end - 3 });
}

#[test]
fn compare_parse_multiline_fstr() {
    let src = "user_prompt = f\"\"\"You are a {role}.\"\"\"\n";
    check_fstring_prompt(src, "f\"\"\"You are a {role}.\"\"\"", &["{role}"], "user_prompt = f\"\"\"You are a {role}.\"\"\"");
    let prompts = prompts_of(ParserPy::parse(src, "prompts.py"));
    let lit = at(src, "f\"\"\"You are a {role}.\"\"\"");
    assert_eq!(prompts[0].span.inner, Span { start: lit.start + 4, end: lit.end - 3 });
}

#[test]
fn compare_multiline_annotation() {
    let src = "# This is a comment\n# @prompt\n# Another comment\nhello = \"Hello, world!\"\n";
    let prompts = prompts_of(ParserPy::parse(src, "prompts.py"));
    assert_eq!(prompts.len(), 1);
    assert_eq!(prompts[0].enclosure, Span { start: 0, end: (src.len() - 1) as u32 });
    assert_eq!(prompts[0].annotations.len(), 1);
    assert_eq!(prompts[0].annotations[0].exp, "# This is a comment\n# @prompt\n# Another comment");
}

#[test]
fn compare_multiline_annotation_nested() {
    let src = "def foo():\n    # Comment 1\n    # @prompt\n    # Comment 2\n    bar = \"Hello, world!\"\n";
    let prompts = prompts_of(ParserPy::parse(src, "prompts.py"));
    assert_eq!(prompts.len(), 1);
    let c1 = src.find("# Comment 1").unwrap();
    assert_eq!(prompts[0].enclosure, Span { start: c1 as u32, end: (src.len() - 1) as u32 });
    assert_eq!(prompts[0].annotations.len(), 1);
    assert_eq!(prompts[0].annotations[0].exp, "# Comment 1\n    # @prompt\n    # Comment 2");
}

#[test]
fn scope_exit_restores_outer_state() {
    let mut tracker = ScopeTracker::new();
    tracker.mark_prompt_ident("outer");
    tracker.enter_scope();
    tracker.mark_prompt_ident("inner");
    tracker.store_def_annotation("inner", vec![PromptAnnotation { span: Span { start: 0, end: 9 }, exp: "# @prompt".to_string() }]);
    tracker.enter_scope();
    tracker.mark_prompt_ident("deeper");
    tracker.exit_scope();
    tracker.exit_scope();
    assert!(tracker.is_prompt_ident("outer"));
    assert!(!tracker.is_prompt_ident("inner"));
    assert!(!tracker.is_prompt_ident("deeper"));
    assert!(tracker.get_def_annotation("inner").is_none());
}
