use volumen::python::ast::{PyModule, PyNode};
use volumen::python::visitor::visit_module;
use volumen::types::{Prompt, Span};

fn sp(s: usize, e: usize) -> Span {
    Span { start: s as u32, end: e as u32 }
}

/// The ranges of the `#` comments of a source without `#` in its strings.
fn comments(src: &str) -> Vec<Span> {
    let mut out = Vec::new();
    let mut line_start = 0;
    for line in src.split('\n') {
        if let Some(h) = line.find('#') {
            out.push(sp(line_start + h, line_start + line.len()));
        }
        line_start += line.len() + 1;
    }
    out
}

/// The text of a string literal between its quotes.
fn literal_value(lit: &str) -> String {
    let body = lit.trim_start_matches(|c: char| c.is_ascii_alphabetic());
    let q = if body.starts_with("\"\"\"") || body.starts_with("'''") { 3 } else { 1 };
    body[q..body.len() - q].to_string()
}

/// A module under construction over a source, nodes found by their text.
struct Builder<'a> {
    src: &'a str,
    nodes: Vec<PyNode>,
}

impl<'a> Builder<'a> {
    fn new(src: &'a str) -> Self {
        Builder { src, nodes: Vec::new() }
    }

    fn at(&self, text: &str, from: usize) -> Span {
        let s = self.src[from..].find(text).unwrap() + from;
        sp(s, s + text.len())
    }

    fn push(&mut self, n: PyNode) -> usize {
        self.nodes.push(n);
        self.nodes.len() - 1
    }

    fn name(&mut self, id: &str, from: usize) -> usize {
        let range = self.at(id, from);
        self.push(PyNode::Name { range, id: id.to_string() })
    }

    fn string(&mut self, lit: &str, from: usize) -> usize {
        let range = self.at(lit, from);
        self.push(PyNode::StringLiteral { range, value: literal_value(lit) })
    }

    fn fstring(&mut self, lit: &str, from: usize, interps: &[&str]) -> usize {
        let range = self.at(lit, from);
        let mut interpolations = Vec::new();
        let mut cursor = range.start as usize;
        for i in interps {
            let r = self.at(i, cursor);
            cursor = r.end as usize;
            interpolations.push(r);
        }
        self.push(PyNode::FString { range, interpolations })
    }

    /// `targets = value` over the text from `text`'s first occurrence after `from`.
    fn assign(&mut self, text: &str, from: usize, targets: Vec<usize>, value: usize) -> usize {
        let range = self.at(text, from);
        self.push(PyNode::Assign { range, targets, value })
    }

    fn module(self, body: Vec<usize>) -> PyModule {
        PyModule { nodes: self.nodes, body }
    }
}

fn run(module: &PyModule, src: &str) -> Vec<Prompt> {
    visit_module(module, &comments(src), src, "prompts.py").unwrap()
}

fn outer_text<'a>(src: &'a str, p: &Prompt) -> &'a str {
    let text = &src[p.span.outer.start as usize..p.span.outer.end as usize];
    assert_eq!(p.exp, text);
    text
}

/// `name = "literal"` at the start of `from`, as one statement.
fn simple_assign(b: &mut Builder, name: &str, lit: &str, from: usize) -> usize {
    let n = b.name(name, from);
    let v = b.string(lit, from);
    let text = format!("{} = {}", name, lit);
    b.assign(&text, from, vec![n], v)
}

#[test]
fn detect_var_comment_dirty_str() {
    let src = "# @prompt system\nsystem = \"You are a helpful assistant.\"\n";
    let mut b = Builder::new(src);
    let s = simple_assign(&mut b, "system", "\"You are a helpful assistant.\"", 17);
    let prompts = run(&b.module(vec![s]), src);
    assert_eq!(prompts.len(), 1);
    let p = &prompts[0];
    assert_eq!(p.file, "prompts.py");
    assert_eq!(p.span.outer, sp(26, 56));
    assert_eq!(p.span.inner, sp(27, 55));
    assert_eq!(p.enclosure, sp(0, 56));
    assert_eq!(outer_text(src, p), "\"You are a helpful assistant.\"");
    assert!(p.vars.is_empty());
    assert_eq!(p.annotations.len(), 1);
    assert_eq!(p.annotations[0].span, sp(0, 16));
    assert_eq!(p.annotations[0].exp, "# @prompt system");
}

#[test]
fn detect_var_comment_dirty_fstr() {
    let src = "# @prompt user\ngreeting = f\"Welcome {user}!\"\n";
    let mut b = Builder::new(src);
    let n = b.name("greeting", 15);
    let v = b.fstring("f\"Welcome {user}!\"", 15, &["{user}"]);
    let s = b.assign("greeting = f\"Welcome {user}!\"", 15, vec![n], v);
    let prompts = run(&b.module(vec![s]), src);
    assert_eq!(prompts.len(), 1);
    let p = &prompts[0];
    assert_eq!(p.span.outer, sp(26, 44));
    assert_eq!(p.span.inner, sp(28, 43));
    assert_eq!(p.enclosure, sp(0, 44));
    assert_eq!(outer_text(src, p), "f\"Welcome {user}!\"");
    assert_eq!(p.vars.len(), 1);
    assert_eq!(p.vars[0].exp, "{user}");
    assert_eq!(p.vars[0].span.outer, sp(36, 42));
    assert_eq!(p.vars[0].span.inner, sp(37, 41));
    assert_eq!(p.annotations.len(), 1);
    assert_eq!(p.annotations[0].span, sp(0, 14));
    assert_eq!(p.annotations[0].exp, "# @prompt user");
}

#[test]
fn detect_var_comment_spaced() {
    let src = "# @prompt\n\n\nhello = \"Hello, world!\"\n\n# @prompt\nnope()\n\nworld = \"Hello!\"\n";
    let mut b = Builder::new(src);
    let first = simple_assign(&mut b, "hello", "\"Hello, world!\"", 0);
    let call = b.at("nope()", 0);
    let other = b.push(PyNode::OtherStmt { range: call, body: vec![] });
    let from = call.end as usize;
    let last = simple_assign(&mut b, "world", "\"Hello!\"", from);
    let prompts = run(&b.module(vec![first, other, last]), src);
    assert_eq!(prompts.len(), 1);
    let p = &prompts[0];
    assert_eq!(p.span.outer, sp(20, 35));
    assert_eq!(p.span.inner, sp(21, 34));
    assert_eq!(p.enclosure, sp(0, 35));
    assert_eq!(outer_text(src, p), "\"Hello, world!\"");
    assert!(p.vars.is_empty());
    assert_eq!(p.annotations.len(), 1);
    assert_eq!(p.annotations[0].span, sp(0, 9));
    assert_eq!(p.annotations[0].exp, "# @prompt");
}

#[test]
fn detect_multi_assign_var_comment() {
    let src = "# @prompt\nhello, world = \"Hello\", \"World\"\n";
    let mut b = Builder::new(src);
    let h = b.name("hello", 10);
    let w = b.name("world", 10);
    let targets = b.at("hello, world", 10);
    let t = b.push(PyNode::Tuple { range: targets, elts: vec![h, w] });
    let x = b.string("\"Hello\"", 10);
    let y = b.string("\"World\"", 10);
    let values = b.at("\"Hello\", \"World\"", 10);
    let v = b.push(PyNode::Tuple { range: values, elts: vec![x, y] });
    let s = b.assign("hello, world = \"Hello\", \"World\"", 10, vec![t], v);
    let prompts = run(&b.module(vec![s]), src);
    assert_eq!(prompts.len(), 2);
}

/// One line `targets = values` of the variants, with the target and value
/// sequences as tuples or lists as their brackets say.
fn variant_line(b: &mut Builder, line: &str, from: usize, i: usize) -> usize {
    let from = b.at(line, from).start as usize;
    let h = b.name(&format!("hello{}", i), from);
    let w = b.name(&format!("world{}", i), from);
    let eq = b.at(" = ", from).start as usize;
    let target_text = &line[..eq - from];
    let target_range = sp(from, eq);
    let t = if target_text.starts_with('[') {
        b.push(PyNode::List { range: target_range, elts: vec![h, w] })
    } else {
        b.push(PyNode::Tuple { range: target_range, elts: vec![h, w] })
    };
    let x = b.string("\"Hello\"", eq);
    let y = b.string("\"World\"", eq);
    let value_range = sp(eq + 3, from + line.len());
    let v = if line[eq - from + 3..].starts_with('[') {
        b.push(PyNode::List { range: value_range, elts: vec![x, y] })
    } else {
        b.push(PyNode::Tuple { range: value_range, elts: vec![x, y] })
    };
    b.assign(line, from, vec![t], v)
}

#[test]
fn detect_multi_assign_variants() {
    let lines = [
        "hello1, world1 = (\"Hello\", \"World\")",
        "[hello2, world2] = (\"Hello\", \"World\")",
        "(hello3, world3) = (\"Hello\", \"World\")",
        "hello4, world4 = [\"Hello\", \"World\"]",
        "[hello5, world5] = [\"Hello\", \"World\"]",
        "(hello6, world6) = [\"Hello\", \"World\"]",
    ];
    let mut src = String::new();
    for l in lines.iter() {
        src.push_str("# @prompt\n");
        src.push_str(l);
        src.push('\n');
    }
    let mut b = Builder::new(&src);
    let mut body = Vec::new();
    let mut from = 0;
    for (i, l) in lines.iter().enumerate() {
        let s = variant_line(&mut b, l, from, i + 1);
        from = b.at(l, from).end as usize;
        body.push(s);
    }
    let prompts = run(&b.module(body), &src);
    assert_eq!(prompts.len(), 12);
}

#[test]
fn detect_chained_assign() {
    let src = "# @prompt\nhello = world = \"Hi\"\n";
    let mut b = Builder::new(src);
    let h = b.name("hello", 10);
    let w = b.name("world", 10);
    let v = b.string("\"Hi\"", 10);
    let s = b.assign("hello = world = \"Hi\"", 10, vec![h, w], v);
    let prompts = run(&b.module(vec![s]), src);
    assert_eq!(prompts.len(), 2);
}

#[test]
fn detect_multi_vars() {
    let src = "user_prompt = f\"Hello, {name}! How is the weather today in {city}?\"";
    let mut b = Builder::new(src);
    let n = b.name("user_prompt", 0);
    let lit = "f\"Hello, {name}! How is the weather today in {city}?\"";
    let v = b.fstring(lit, 0, &["{name}", "{city}"]);
    let s = b.assign(src, 0, vec![n], v);
    let prompts = run(&b.module(vec![s]), src);
    assert_eq!(prompts.len(), 1);
    let p = &prompts[0];
    assert_eq!(p.span.outer, sp(14, 67));
    assert_eq!(p.span.inner, sp(16, 66));
    assert_eq!(p.enclosure, sp(0, 67));
    assert_eq!(outer_text(src, p), lit);
    assert_eq!(p.vars.len(), 2);
    assert_eq!(p.vars[0].exp, "{name}");
    assert_eq!(p.vars[0].span.outer, sp(23, 29));
    assert_eq!(p.vars[0].span.inner, sp(24, 28));
    assert_eq!(p.vars[1].exp, "{city}");
    assert_eq!(p.vars[1].span.outer, sp(59, 65));
    assert_eq!(p.vars[1].span.inner, sp(60, 64));
    assert!(p.annotations.is_empty());
}

const MULTILINE_STR: &str = "\"\"\"You are a helpful assistant.\nYou will answer the user's questions to the best of your ability.\nIf you don't know the answer, just say that you don't know, don't try to make it up.\"\"\"";

#[test]
fn parse_multiline_str() {
    let src = format!("# @prompt\nsystem = {}\n", MULTILINE_STR);
    let mut b = Builder::new(&src);
    let s = simple_assign(&mut b, "system", MULTILINE_STR, 10);
    let prompts = run(&b.module(vec![s]), &src);
    assert_eq!(prompts.len(), 1);
    let p = &prompts[0];
    assert_eq!(p.span.outer, sp(19, 204));
    assert_eq!(p.span.inner, sp(22, 201));
    assert_eq!(p.enclosure, sp(0, 204));
    assert_eq!(outer_text(&src, p), MULTILINE_STR);
    assert!(p.vars.is_empty());
    assert_eq!(p.annotations.len(), 1);
    assert_eq!(p.annotations[0].span, sp(0, 9));
    assert_eq!(p.annotations[0].exp, "# @prompt");
}

const MULTILINE_FSTR: &str = "f\"\"\"Hello, {name}!\nHow is the weather today in {city}?\n\"\"\"";

#[test]
fn parse_multiline_fstr() {
    let src = format!("# @prompt\nuser = {}\n", MULTILINE_FSTR);
    let mut b = Builder::new(&src);
    let n = b.name("user", 10);
    let v = b.fstring(MULTILINE_FSTR, 10, &["{name}", "{city}"]);
    let s = b.assign(&format!("user = {}", MULTILINE_FSTR), 10, vec![n], v);
    let prompts = run(&b.module(vec![s]), &src);
    assert_eq!(prompts.len(), 1);
    let p = &prompts[0];
    assert_eq!(p.span.outer, sp(17, 75));
    assert_eq!(p.span.inner, sp(21, 72));
    assert_eq!(p.enclosure, sp(0, 75));
    assert_eq!(outer_text(&src, p), MULTILINE_FSTR);
    assert_eq!(p.vars.len(), 2);
    assert_eq!(p.vars[0].exp, "{name}");
    assert_eq!(p.vars[0].span.outer, sp(28, 34));
    assert_eq!(p.vars[0].span.inner, sp(29, 33));
    assert_eq!(p.vars[1].exp, "{city}");
    assert_eq!(p.vars[1].span.outer, sp(64, 70));
    assert_eq!(p.vars[1].span.inner, sp(65, 69));
    assert_eq!(p.annotations.len(), 1);
    assert_eq!(p.annotations[0].span, sp(0, 9));
    assert_eq!(p.annotations[0].exp, "# @prompt");
}

/// `# @prompt` above `prompt = <fstring>` with one interpolation.
fn one_var_prompt(lit: &str, var: &str) -> (String, Vec<Prompt>) {
    let src = format!("# @prompt\nprompt = {}\n", lit);
    let mut b = Builder::new(&src);
    let n = b.name("prompt", 10);
    let v = b.fstring(lit, 10, &[var]);
    let s = b.assign(&format!("prompt = {}", lit), 10, vec![n], v);
    let prompts = run(&b.module(vec![s]), &src);
    (src, prompts)
}

#[test]
fn parse_exp_vars() {
    let lit = "f\"Given that price is {price + (price * tax):.2f}...\"";
    let (src, prompts) = one_var_prompt(lit, "{price + (price * tax):.2f}");
    assert_eq!(prompts.len(), 1);
    let p = &prompts[0];
    assert_eq!(p.span.outer, sp(19, 72));
    assert_eq!(p.span.inner, sp(21, 71));
    assert_eq!(p.enclosure, sp(0, 72));
    assert_eq!(outer_text(&src, p), lit);
    assert_eq!(p.vars.len(), 1);
    assert_eq!(p.vars[0].exp, "{price + (price * tax):.2f}");
    assert_eq!(p.vars[0].span.outer, sp(41, 68));
    assert_eq!(p.vars[0].span.inner, sp(42, 67));
    assert_eq!(p.annotations.len(), 1);
    assert_eq!(p.annotations[0].span, sp(0, 9));
    assert_eq!(p.annotations[0].exp, "# @prompt");
}

#[test]
fn parse_exp_complex_vars() {
    let lit = "f\"This item is {('expensive' if price > 100 else 'cheap')}...\"";
    let (src, prompts) = one_var_prompt(lit, "{('expensive' if price > 100 else 'cheap')}");
    assert_eq!(prompts.len(), 1);
    let p = &prompts[0];
    assert_eq!(p.span.outer, sp(19, 81));
    assert_eq!(p.span.inner, sp(21, 80));
    assert_eq!(p.enclosure, sp(0, 81));
    assert_eq!(outer_text(&src, p), lit);
    assert_eq!(p.vars.len(), 1);
    assert_eq!(p.vars[0].exp, "{('expensive' if price > 100 else 'cheap')}");
    assert_eq!(p.vars[0].span.outer, sp(34, 77));
    assert_eq!(p.vars[0].span.inner, sp(35, 76));
    assert_eq!(p.annotations.len(), 1);
    assert_eq!(p.annotations[0].span, sp(0, 9));
}

/// Each prompt's outer span holds the literal, each variable's its text.
fn check_spans(src: &str, prompts: &[Prompt], lit: &str, vars: &[&str]) {
    assert!(!prompts.is_empty());
    for p in prompts {
        assert_eq!(outer_text(src, p), lit);
        assert_eq!(p.vars.len(), vars.len());
        for (v, text) in p.vars.iter().zip(vars.iter()) {
            assert_eq!(&src[v.span.outer.start as usize..v.span.outer.end as usize], v.exp);
            assert_eq!(v.exp, *text);
        }
    }
}

fn prompt_assign(lit: &str, vars: &[&str]) -> (String, Vec<Prompt>) {
    let src = format!("{}_prompt = {}\n", if vars.is_empty() { "system" } else { "user" }, lit);
    let mut b = Builder::new(&src);
    let name = if vars.is_empty() { "system_prompt" } else { "user_prompt" };
    let n = b.name(name, 0);
    let v = if vars.is_empty() { b.string(lit, 0) } else { b.fstring(lit, 0, vars) };
    let s = b.assign(&src[..src.len() - 1], 0, vec![n], v);
    let prompts = run(&b.module(vec![s]), &src);
    (src, prompts)
}

#[test]
fn parse_spans_str() {
    let lit = "\"You are a helpful assistant.\"";
    let (src, prompts) = prompt_assign(lit, &[]);
    check_spans(&src, &prompts, lit, &[]);
}

#[test]
fn parse_spans_fstr() {
    let lit = "f\"Hello, {name}! How is the weather today in {city}?\"";
    let (src, prompts) = prompt_assign(lit, &["{name}", "{city}"]);
    check_spans(&src, &prompts, lit, &["{name}", "{city}"]);
}

#[test]
fn parse_spans_multiline_str() {
    let (src, prompts) = prompt_assign(MULTILINE_STR, &[]);
    check_spans(&src, &prompts, MULTILINE_STR, &[]);
}

#[test]
fn parse_spans_multiline_fstr() {
    let (src, prompts) = prompt_assign(MULTILINE_FSTR, &["{name}", "{city}"]);
    check_spans(&src, &prompts, MULTILINE_FSTR, &["{name}", "{city}"]);
}

#[test]
fn parse_nested() {
    let src = "class Hello:\n    def world(self):\n        def fn():\n            hello_prompt = f\"Hello, {name}!\"\n\n            # @prompt\n            also_prmpt = \"Hi!\"\n        return fn\n";
    let mut b = Builder::new(src);
    let n1 = b.name("hello_prompt", 0);
    let v1 = b.fstring("f\"Hello, {name}!\"", 0, &["{name}"]);
    let a1 = b.assign("hello_prompt = f\"Hello, {name}!\"", 0, vec![n1], v1);
    let a2 = simple_assign(&mut b, "also_prmpt", "\"Hi!\"", 0);
    let fn_start = b.at("def fn()", 0).start as usize;
    let a2_end = b.at("\"Hi!\"", 0).end as usize;
    let inner_def = b.push(PyNode::FunctionDef { range: sp(fn_start, a2_end), body: vec![a1, a2] });
    let ret = b.at("return fn", 0);
    let ret_stmt = b.push(PyNode::OtherStmt { range: ret, body: vec![] });
    let world_start = b.at("def world", 0).start as usize;
    let world = b.push(PyNode::FunctionDef { range: sp(world_start, ret.end as usize), body: vec![inner_def, ret_stmt] });
    let class = b.push(PyNode::ClassDef { range: sp(0, ret.end as usize), body: vec![world] });
    let prompts = run(&b.module(vec![class]), src);
    assert_eq!(prompts.len(), 2);
    let p = &prompts[0];
    assert_eq!(p.span.outer, sp(79, 96));
    assert_eq!(p.span.inner, sp(81, 95));
    assert_eq!(p.enclosure, sp(64, 96));
    assert_eq!(outer_text(src, p), "f\"Hello, {name}!\"");
    assert_eq!(p.vars.len(), 1);
    assert_eq!(p.vars[0].exp, "{name}");
    assert_eq!(p.vars[0].span.outer, sp(88, 94));
    assert_eq!(p.vars[0].span.inner, sp(89, 93));
    assert!(p.annotations.is_empty());
    let q = &prompts[1];
    assert_eq!(q.span.outer, sp(145, 150));
    assert_eq!(q.span.inner, sp(146, 149));
    assert_eq!(q.enclosure, sp(110, 150));
    assert_eq!(outer_text(src, q), "\"Hi!\"");
    assert!(q.vars.is_empty());
    assert_eq!(q.annotations.len(), 1);
    assert_eq!(q.annotations[0].span, sp(110, 119));
    assert_eq!(q.annotations[0].exp, "# @prompt");
}

#[test]
fn multiline_annotation() {
    let src = "# Hello\n# @prompt\n# world\nmsg = \"Hello\"\n";
    let mut b = Builder::new(src);
    let s = simple_assign(&mut b, "msg", "\"Hello\"", 0);
    let prompts = run(&b.module(vec![s]), src);
    assert_eq!(prompts.len(), 1);
    let p = &prompts[0];
    assert_eq!(p.span.outer, sp(32, 39));
    assert_eq!(p.span.inner, sp(33, 38));
    assert_eq!(p.enclosure, sp(0, 39));
    assert_eq!(outer_text(src, p), "\"Hello\"");
    assert_eq!(p.annotations.len(), 1);
    assert_eq!(p.annotations[0].span, sp(0, 25));
    assert_eq!(p.annotations[0].exp, "# Hello\n# @prompt\n# world");
}

#[test]
fn multiline_annotation_nested() {
    let src = "def fn():\n    # Hello\n    # @prompt\n    # world\n    msg = \"Hello\"\n";
    let mut b = Builder::new(src);
    let s = simple_assign(&mut b, "msg", "\"Hello\"", 0);
    let end = b.at("\"Hello\"", 0).end as usize;
    let def = b.push(PyNode::FunctionDef { range: sp(0, end), body: vec![s] });
    let prompts = run(&b.module(vec![def]), src);
    assert_eq!(prompts.len(), 1);
    let p = &prompts[0];
    assert_eq!(p.span.outer, sp(58, 65));
    assert_eq!(p.span.inner, sp(59, 64));
    assert_eq!(p.enclosure, sp(14, 65));
    assert_eq!(outer_text(src, p), "\"Hello\"");
    assert_eq!(p.annotations.len(), 1);
    assert_eq!(p.annotations[0].span, sp(14, 47));
    assert_eq!(p.annotations[0].exp, "# Hello\n    # @prompt\n    # world");
}

/// `hello: str` after the source's first line, as a statement without value.
fn declaration(b: &mut Builder) -> usize {
    let from = b.at("hello: str", 0);
    let t = b.name("hello", from.start as usize);
    b.push(PyNode::AnnAssign { range: from, target: t, value: None })
}

#[test]
fn reassign_no_comment() {
    let src = "# @prompt def\nhello: str\nhello = f\"Hi {name}\"\n";
    let mut b = Builder::new(src);
    let d = declaration(&mut b);
    let from = b.at("hello = ", 0).start as usize;
    let n = b.name("hello", from);
    let v = b.fstring("f\"Hi {name}\"", from, &["{name}"]);
    let s = b.assign("hello = f\"Hi {name}\"", from, vec![n], v);
    let prompts = run(&b.module(vec![d, s]), src);
    assert_eq!(prompts.len(), 1);
    let p = &prompts[0];
    assert_eq!(p.span.outer, sp(33, 45));
    assert_eq!(p.span.inner, sp(35, 44));
    assert_eq!(p.enclosure, sp(25, 45));
    assert_eq!(outer_text(src, p), "f\"Hi {name}\"");
    assert_eq!(p.vars.len(), 1);
    assert_eq!(p.vars[0].exp, "{name}");
    assert_eq!(p.vars[0].span.outer, sp(38, 44));
    assert_eq!(p.vars[0].span.inner, sp(39, 43));
    assert_eq!(p.annotations.len(), 1);
    assert_eq!(p.annotations[0].span, sp(0, 13));
    assert_eq!(p.annotations[0].exp, "# @prompt def");
}

#[test]
fn reassign_with_comment() {
    let src = "# @prompt def\nhello: str\n# @prompt fresh\nhello = \"Hi\"\n";
    let mut b = Builder::new(src);
    let d = declaration(&mut b);
    let from = b.at("hello = ", 0).start as usize;
    let s = simple_assign(&mut b, "hello", "\"Hi\"", from);
    let prompts = run(&b.module(vec![d, s]), src);
    assert_eq!(prompts.len(), 1);
    let p = &prompts[0];
    assert_eq!(p.span.outer, sp(49, 53));
    assert_eq!(p.span.inner, sp(50, 52));
    assert_eq!(p.enclosure, sp(25, 53));
    assert_eq!(outer_text(src, p), "\"Hi\"");
    assert!(p.vars.is_empty());
    assert_eq!(p.annotations.len(), 1);
    assert_eq!(p.annotations[0].span, sp(25, 40));
    assert_eq!(p.annotations[0].exp, "# @prompt fresh");
}

#[test]
fn visit_rejects_reference_to_later_node() {
    let src = "x = 'a'";
    let module = PyModule {
        nodes: vec![
            PyNode::Assign { range: sp(0, 7), targets: vec![1], value: 2 },
            PyNode::Name { range: sp(0, 1), id: "x".to_string() },
            PyNode::StringLiteral { range: sp(4, 7), value: "a".to_string() },
        ],
        body: vec![0],
    };
    assert!(visit_module(&module, &vec![], src, "prompts.py").is_none());
}
