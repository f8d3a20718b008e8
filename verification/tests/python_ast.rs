use volumen::python::ast::{PyModule, PyNode};
use volumen::python::visitor::{parse_format_placeholders, visit_module};
use volumen::types::{Prompt, PromptContentToken, Span};

fn sp(s: usize, e: usize) -> Span {
    Span { start: s as u32, end: e as u32 }
}

fn at(source: &str, needle: &str) -> Span {
    let s = source.find(needle).unwrap();
    sp(s, s + needle.len())
}

fn at_from(source: &str, needle: &str, from: usize) -> Span {
    let s = source[from..].find(needle).unwrap() + from;
    sp(s, s + needle.len())
}

fn name(source: &str, id: &str) -> PyNode {
    PyNode::Name { range: at(source, id), id: id.to_string() }
}

fn string(range: Span, value: &str) -> PyNode {
    PyNode::StringLiteral { range, value: value.to_string() }
}

fn run(module: &PyModule, comments: &Vec<Span>, source: &str) -> Vec<Prompt> {
    visit_module(module, comments, source, "a.py").unwrap()
}

#[test]
fn py_ast_prompt_named_string() {
    let source = "user_prompt = \"Hello\"";
    let lit = at(source, "\"Hello\"");
    let module = PyModule {
        nodes: vec![
            name(source, "user_prompt"),
            string(lit, "Hello"),
            PyNode::Assign { range: sp(0, source.len()), targets: vec![0], value: 1 },
        ],
        body: vec![2],
    };
    let prompts = run(&module, &vec![], source);
    assert_eq!(prompts.len(), 1);
    let p = &prompts[0];
    assert_eq!(p.file, "a.py");
    assert_eq!(p.span.outer, lit);
    assert_eq!(p.span.inner, sp(lit.start as usize + 1, lit.end as usize - 1));
    assert_eq!(p.enclosure, sp(0, source.len()));
    assert_eq!(p.content, vec![PromptContentToken::Str { span: p.span.inner }]);
}

#[test]
fn py_ast_plain_name_is_ignored() {
    let source = "greeting = \"Hello\"";
    let module = PyModule {
        nodes: vec![
            name(source, "greeting"),
            string(at(source, "\"Hello\""), "Hello"),
            PyNode::Assign { range: sp(0, source.len()), targets: vec![0], value: 1 },
        ],
        body: vec![2],
    };
    assert!(run(&module, &vec![], source).is_empty());
}

#[test]
fn py_ast_leading_annotation() {
    let source = "# @prompt\nx = 'Hi'";
    let stmt_start = source.find("x =").unwrap();
    let module = PyModule {
        nodes: vec![
            PyNode::Name { range: sp(stmt_start, stmt_start + 1), id: "x".to_string() },
            string(at(source, "'Hi'"), "Hi"),
            PyNode::Assign { range: sp(stmt_start, source.len()), targets: vec![0], value: 1 },
        ],
        body: vec![2],
    };
    let prompts = run(&module, &vec![sp(0, 9)], source);
    assert_eq!(prompts.len(), 1);
    assert_eq!(prompts[0].annotations.len(), 1);
    assert_eq!(prompts[0].annotations[0].exp, "# @prompt");
    assert_eq!(prompts[0].annotations[0].span, sp(0, 9));
    assert_eq!(prompts[0].enclosure, sp(0, source.len()));
}

#[test]
fn py_ast_fstring_variables() {
    let source = "user_prompt = f\"Hello {name}!\"";
    let lit = at(source, "f\"Hello {name}!\"");
    let interp = at(source, "{name}");
    let module = PyModule {
        nodes: vec![
            name(source, "user_prompt"),
            PyNode::FString { range: lit, interpolations: vec![interp] },
            PyNode::Assign { range: sp(0, source.len()), targets: vec![0], value: 1 },
        ],
        body: vec![2],
    };
    let prompts = run(&module, &vec![], source);
    assert_eq!(prompts.len(), 1);
    let p = &prompts[0];
    assert_eq!(p.span.inner, sp(lit.start as usize + 2, lit.end as usize - 1));
    assert_eq!(p.vars.len(), 1);
    assert_eq!(p.vars[0].exp, "{name}");
    assert_eq!(p.vars[0].span.outer, interp);
    assert_eq!(p.vars[0].span.inner, sp(interp.start as usize + 1, interp.end as usize - 1));
    assert_eq!(
        p.content,
        vec![
            PromptContentToken::Str { span: sp(lit.start as usize + 2, interp.start as usize) },
            PromptContentToken::Var { span: interp, index: 0 },
            PromptContentToken::Str { span: sp(interp.end as usize, lit.end as usize - 1) },
        ]
    );
}

#[test]
fn py_ast_concatenation() {
    let source = "user_prompt = \"Hello \" + name + \"!\"";
    let s1 = at(source, "\"Hello \"");
    let s2 = at(source, "\"!\"");
    let n = at_from(source, "name", 14);
    let inner_op = sp(s1.start as usize, n.end as usize);
    let whole = sp(s1.start as usize, s2.end as usize);
    let module = PyModule {
        nodes: vec![
            name(source, "user_prompt"),
            string(s1, "Hello "),
            PyNode::Name { range: n, id: "name".to_string() },
            PyNode::BinOp { range: inner_op, left: 1, add: true, right: 2 },
            string(s2, "!"),
            PyNode::BinOp { range: whole, left: 3, add: true, right: 4 },
            PyNode::Assign { range: sp(0, source.len()), targets: vec![0], value: 5 },
        ],
        body: vec![6],
    };
    let prompts = run(&module, &vec![], source);
    assert_eq!(prompts.len(), 1);
    let p = &prompts[0];
    assert_eq!(p.span.outer, whole);
    assert_eq!(p.span.inner, sp(s1.start as usize + 1, s2.end as usize - 1));
    assert_eq!(p.vars.len(), 1);
    assert_eq!(p.vars[0].exp, "name");
    assert_eq!(p.vars[0].span.inner, n);
    assert_eq!(p.vars[0].span.outer, sp(n.start as usize - 3, n.end as usize + 3));
    assert_eq!(
        p.content,
        vec![
            PromptContentToken::Str { span: sp(s1.start as usize + 1, s1.end as usize - 1) },
            PromptContentToken::Var { span: n, index: 0 },
            PromptContentToken::Str { span: sp(s2.start as usize + 1, s2.end as usize - 1) },
        ]
    );
}

#[test]
fn py_ast_concatenation_with_list_is_rejected() {
    let source = "user_prompt = \"Hello \" + [1]";
    let s1 = at(source, "\"Hello \"");
    let l = at(source, "[1]");
    let module = PyModule {
        nodes: vec![
            name(source, "user_prompt"),
            string(s1, "Hello "),
            PyNode::List { range: l, elts: vec![] },
            PyNode::BinOp { range: sp(s1.start as usize, l.end as usize), left: 1, add: true, right: 2 },
            PyNode::Assign { range: sp(0, source.len()), targets: vec![0], value: 3 },
        ],
        body: vec![4],
    };
    assert!(run(&module, &vec![], source).is_empty());
}

#[test]
fn py_ast_format_call() {
    let source = "user_prompt = \"Hello {}!\".format(name)";
    let lit = at(source, "\"Hello {}!\"");
    let attr = sp(lit.start as usize, source.find("(name)").unwrap());
    let n = at(source, "(name)");
    let n = sp(n.start as usize + 1, n.end as usize - 1);
    let call = sp(lit.start as usize, source.len());
    let module = PyModule {
        nodes: vec![
            name(source, "user_prompt"),
            string(lit, "Hello {}!"),
            PyNode::Attribute { range: attr, value: 1, attr: "format".to_string() },
            PyNode::Name { range: n, id: "name".to_string() },
            PyNode::Call { range: call, func: 2, args: vec![3] },
            PyNode::Assign { range: sp(0, source.len()), targets: vec![0], value: 4 },
        ],
        body: vec![5],
    };
    let prompts = run(&module, &vec![], source);
    assert_eq!(prompts.len(), 1);
    let p = &prompts[0];
    let fis = lit.start as usize + 1;
    assert_eq!(p.span.outer, call);
    assert_eq!(p.span.inner, sp(fis, lit.end as usize - 1));
    assert_eq!(p.vars.len(), 1);
    assert_eq!(p.vars[0].exp, "name");
    assert_eq!(
        p.content,
        vec![
            PromptContentToken::Str { span: sp(fis, fis + 6) },
            PromptContentToken::Var { span: sp(fis + 6, fis + 8), index: 0 },
            PromptContentToken::Str { span: sp(fis + 8, lit.end as usize - 1) },
        ]
    );
}

#[test]
fn py_ast_join_call() {
    let source = "user_prompt = \"-\".join([\"Hello\", name])";
    let sep = at(source, "\"-\"");
    let attr = sp(sep.start as usize, source.find("(").unwrap());
    let list = at(source, "[\"Hello\", name]");
    let hello = at(source, "\"Hello\"");
    let n = at_from(source, "name", list.start as usize);
    let call = sp(sep.start as usize, source.len());
    let module = PyModule {
        nodes: vec![
            name(source, "user_prompt"),
            string(sep, "-"),
            PyNode::Attribute { range: attr, value: 1, attr: "join".to_string() },
            string(hello, "Hello"),
            PyNode::Name { range: n, id: "name".to_string() },
            PyNode::List { range: list, elts: vec![3, 4] },
            PyNode::Call { range: call, func: 2, args: vec![5] },
            PyNode::Assign { range: sp(0, source.len()), targets: vec![0], value: 6 },
        ],
        body: vec![7],
    };
    let prompts = run(&module, &vec![], source);
    assert_eq!(prompts.len(), 1);
    let p = &prompts[0];
    assert_eq!(p.span.outer, call);
    assert_eq!(p.span.inner, sp(list.start as usize + 1, list.end as usize - 1));
    assert_eq!(p.joint.outer, sep);
    assert_eq!(p.joint.inner, sp(sep.start as usize + 1, sep.end as usize - 1));
    assert_eq!(
        p.content,
        vec![
            PromptContentToken::Str { span: sp(hello.start as usize + 1, hello.end as usize - 1) },
            PromptContentToken::Joint,
            PromptContentToken::Var { span: n, index: 0 },
        ]
    );
}

#[test]
fn py_ast_array() {
    let source = "user_prompt = [\"Hello \", name]";
    let list = at(source, "[\"Hello \", name]");
    let hello = at(source, "\"Hello \"");
    let n = at_from(source, "name", list.start as usize);
    let module = PyModule {
        nodes: vec![
            name(source, "user_prompt"),
            string(hello, "Hello "),
            PyNode::Name { range: n, id: "name".to_string() },
            PyNode::List { range: list, elts: vec![1, 2] },
            PyNode::Assign { range: sp(0, source.len()), targets: vec![0], value: 3 },
        ],
        body: vec![4],
    };
    let prompts = run(&module, &vec![], source);
    assert_eq!(prompts.len(), 1);
    let p = &prompts[0];
    assert_eq!(p.span.inner, sp(list.start as usize + 1, list.end as usize - 1));
    assert_eq!(p.vars.len(), 1);
    assert_eq!(
        p.content,
        vec![
            PromptContentToken::Str { span: sp(hello.start as usize + 1, hello.end as usize - 1) },
            PromptContentToken::Var { span: n, index: 0 },
        ]
    );
}

#[test]
fn py_ast_tuple_assignment() {
    let source = "a_prompt, b = \"x\", \"y\"";
    let x = at(source, "\"x\"");
    let y = at(source, "\"y\"");
    let module = PyModule {
        nodes: vec![
            name(source, "a_prompt"),
            PyNode::Name { range: sp(10, 11), id: "b".to_string() },
            PyNode::Tuple { range: sp(0, 11), elts: vec![0, 1] },
            string(x, "x"),
            string(y, "y"),
            PyNode::Tuple { range: sp(x.start as usize, y.end as usize), elts: vec![3, 4] },
            PyNode::Assign { range: sp(0, source.len()), targets: vec![2], value: 5 },
        ],
        body: vec![6],
    };
    let prompts = run(&module, &vec![], source);
    assert_eq!(prompts.len(), 1);
    assert_eq!(prompts[0].span.outer, x);
}

#[test]
fn py_ast_function_scope() {
    let source = "def f():\n    # @prompt\n    x = \"a\"\nx = \"b\"";
    let inner_start = source.find("x = \"a\"").unwrap();
    let outer_start = source.rfind("x = ").unwrap();
    let comment = at(source, "# @prompt");
    let a = at(source, "\"a\"");
    let b = at(source, "\"b\"");
    let module = PyModule {
        nodes: vec![
            PyNode::Name { range: sp(inner_start, inner_start + 1), id: "x".to_string() },
            string(a, "a"),
            PyNode::Assign { range: sp(inner_start, a.end as usize), targets: vec![0], value: 1 },
            PyNode::FunctionDef { range: sp(0, a.end as usize), body: vec![2] },
            PyNode::Name { range: sp(outer_start, outer_start + 1), id: "x".to_string() },
            string(b, "b"),
            PyNode::Assign { range: sp(outer_start, source.len()), targets: vec![4], value: 5 },
        ],
        body: vec![3, 6],
    };
    let prompts = run(&module, &vec![comment], source);
    assert_eq!(prompts.len(), 1);
    assert_eq!(prompts[0].span.outer, a);
}

#[test]
fn py_ast_annotated_definition_keeps_annotations() {
    let source = "# @prompt\nx: str = \"a\"\nx = \"b\"";
    let first = source.find("x: str").unwrap();
    let second = source.rfind("x = ").unwrap();
    let a = at(source, "\"a\"");
    let b = at(source, "\"b\"");
    let module = PyModule {
        nodes: vec![
            PyNode::Name { range: sp(first, first + 1), id: "x".to_string() },
            string(a, "a"),
            PyNode::AnnAssign { range: sp(first, a.end as usize), target: 0, value: Some(1) },
            PyNode::Name { range: sp(second, second + 1), id: "x".to_string() },
            string(b, "b"),
            PyNode::Assign { range: sp(second, source.len()), targets: vec![3], value: 4 },
        ],
        body: vec![2, 5],
    };
    let prompts = run(&module, &vec![sp(0, 9)], source);
    assert_eq!(prompts.len(), 2);
    assert_eq!(prompts[1].span.outer, b);
    assert_eq!(prompts[1].annotations.len(), 1);
    assert_eq!(prompts[1].annotations[0].exp, "# @prompt");
    assert_eq!(prompts[1].enclosure, sp(second, source.len()));
}

#[test]
fn py_ast_rejects_ill_formed_module() {
    let source = "x = 'a'";
    let module = PyModule {
        nodes: vec![PyNode::Assign { range: sp(0, 7), targets: vec![1], value: 0 }, string(sp(4, 7), "a")],
        body: vec![0],
    };
    assert!(visit_module(&module, &vec![], source, "a.py").is_none());
    let ok = PyModule { nodes: vec![], body: vec![] };
    assert!(visit_module(&ok, &vec![sp(3, 1)], source, "a.py").is_none());
}

#[test]
fn py_ast_format_placeholders() {
    assert_eq!(parse_format_placeholders("Hello {} and {name}!"), vec![(6, 8), (13, 19)]);
    assert_eq!(parse_format_placeholders("{{literal}} {0}"), vec![(12, 15)]);
    assert_eq!(parse_format_placeholders("open { never closed"), vec![]);
}
