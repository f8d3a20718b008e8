//! Node counts of syntax trees, as the parser benchmarks report them, and
//! the extraction of code samples from benchmark sources.
use crate::syntax::{children_precede, lemma_wf_children_precede, preorder, preorder_children, SyntaxTree};
use crate::text::{chars_eq, text_eq, utf8};
use crate::treesitter::{node_models, parse_syntax_tree, parsed_models, Grammar, TreeError};
use crate::tshandle::ts_set_language;
use vstd::prelude::*;
use vstd::string::{StrSliceExecFns, StringExecFns};

verus! {

/// Recursively count all nodes in a syntax tree: the size of the subtree
/// rooted at `node`, counted in pre-order.
pub fn count_tree_nodes(tree: &SyntaxTree, node: usize) -> (r: u64)
    requires
        children_precede(tree.nodes@),
        node < tree.nodes@.len(),
        preorder(tree.nodes@, node as int).len() <= u64::MAX,
    ensures
        r == preorder(tree.nodes@, node as int).len(),
    decreases node,
{
    let ghost t = tree.nodes@;
    let ghost total = preorder(t, node as int).len();
    let mut count: u64 = 1;
    let n = tree.nodes[node].children.len();
    let mut j: usize = 0;
    while j < n
        invariant
            children_precede(t),
            t == tree.nodes@,
            node < t.len(),
            n == t[node as int].children@.len(),
            j <= n,
            total == preorder(t, node as int).len(),
            total <= u64::MAX,
            count + preorder_children(t, node as int, j as int).len() == total,
        decreases n - j,
    {
        let c = tree.nodes[node].children[j];
        assert(t[node as int].children@[j as int] < node);
        let k = count_tree_nodes(tree, c);
        count = count + k;
        j = j + 1;
    }
    count
}

/// The grammar a language name stands for.
pub open spec fn grammar_named(lang: Seq<char>) -> Option<Grammar> {
    if lang == "go"@ {
        Some(Grammar::Go)
    } else if lang == "java"@ {
        Some(Grammar::Java)
    } else if lang == "csharp"@ {
        Some(Grammar::CSharp)
    } else if lang == "php"@ {
        Some(Grammar::Php)
    } else if lang == "ruby"@ {
        Some(Grammar::Ruby)
    } else if lang == "python"@ {
        Some(Grammar::Python)
    } else if lang == "typescript"@ {
        Some(Grammar::TypeScript)
    } else {
        None
    }
}

/// The grammar a language name stands for.
pub fn grammar_for(lang: &str) -> (r: Option<Grammar>)
    ensures
        r == grammar_named(lang@),
{
    if text_eq(lang, "go") {
        Some(Grammar::Go)
    } else if text_eq(lang, "java") {
        Some(Grammar::Java)
    } else if text_eq(lang, "csharp") {
        Some(Grammar::CSharp)
    } else if text_eq(lang, "php") {
        Some(Grammar::Php)
    } else if text_eq(lang, "ruby") {
        Some(Grammar::Ruby)
    } else if text_eq(lang, "python") {
        Some(Grammar::Python)
    } else if text_eq(lang, "typescript") {
        Some(Grammar::TypeScript)
    } else {
        None
    }
}

/// Count tokens in a code sample for a specific language: the number of
/// nodes of its syntax tree, the tree `parsed_models` names. An unknown language name is refused with
/// `Unknown language: <name>`; a parse that yields no tree, with one of the
/// two messages of the parser.
pub fn count_tokens(code: &str, lang: &str) -> (r: Result<u64, String>)
    ensures
        grammar_named(lang@) is None ==> (r matches Err(m) && m@ == "Unknown language: "@ + lang@),
        grammar_named(lang@) is Some ==> ({
            let g = grammar_named(lang@).unwrap();
            match ts_set_language(g) {
                Err(d) => if utf8(code@).len() < u32::MAX {
                    r matches Err(m) && m@ == "Failed to set language: "@ + d
                } else {
                    r matches Err(m) && m@ == "Failed to parse code"@
                },
                Ok(_) => match parsed_models(g, code@) {
                    Some(ns) => r matches Ok(n) && n == ns.len(),
                    None => r matches Err(m) && m@ == "Failed to parse code"@,
                },
            }
        }),
{
    let grammar = match grammar_for(lang) {
        Some(g) => g,
        None => {
            let mut m = String::from_str("Unknown language: ");
            m.append(lang);
            return Err(m);
        },
    };
    match parse_syntax_tree(grammar, code) {
        Ok(tree) => {
            proof {
                lemma_wf_children_precede(&tree, utf8(code@));
            }
            let size = tree.nodes.len();
            assert(size <= u64::MAX);
            assert(node_models(tree.nodes@).len() == tree.nodes@.len());
            Ok(count_tree_nodes(&tree, tree.root))
        },
        Err(TreeError::LanguageRejected(d)) => {
            let mut m = String::from_str("Failed to set language: ");
            m.append(d.as_str());
            Err(m)
        },
        Err(_) => Err(String::from_str("Failed to parse code")),
    }
}

/// The first character index at or after `from` where `p` occurs in `t`.
pub open spec fn find_chars(t: Seq<char>, p: Seq<char>, from: int) -> Option<int>
    decreases t.len() + 1 - from,
{
    if from < 0 || from + p.len() > t.len() {
        None
    } else if t.subrange(from, from + p.len()) == p {
        Some(from)
    } else {
        find_chars(t, p, from + 1)
    }
}

/// The first character index at or after `from` where `p` occurs in `s`.
fn find_chars_exec(s: &str, p: &str, from: usize) -> (r: Option<usize>)
    ensures
        r matches Some(i) ==> find_chars(s@, p@, from as int) == Some(i as int) && from <= i && i + p@.len() <= s@.len(),
        r is None ==> find_chars(s@, p@, from as int) is None,
{
    let n = s.unicode_len();
    let m = p.unicode_len();
    let mut i = from;
    loop
        invariant
            n == s@.len(),
            m == p@.len(),
            from <= i,
            find_chars(s@, p@, from as int) == find_chars(s@, p@, i as int),
        decreases n + 1 - i,
    {
        if i > n || m > n - i {
            return None;
        }
        if chars_eq(s, i, i + m, p, 0, m) {
            assert(p@.subrange(0, m as int) =~= p@);
            return Some(i);
        }
        assert(p@.subrange(0, m as int) =~= p@);
        if m == 0 {
            assert(s@.subrange(i as int, i as int) =~= p@.subrange(0, 0));
        }
        i = i + 1;
    }
}

/// The code of the sample constant `name` in a benchmark source: the text
/// between `const <name>: &str = r#"` and the next `"#;`.
pub open spec fn code_sample(content: Seq<char>, name: Seq<char>) -> Option<Seq<char>> {
    let pat = "const "@ + name + ": &str = r#\""@;
    match find_chars(content, pat, 0) {
        None => None,
        Some(si) => {
            let cs = si + pat.len();
            match find_chars(content, "\"#;"@, cs) {
                None => None,
                Some(ei) => Some(content.subrange(cs, ei)),
            }
        },
    }
}

/// The code of the sample constant `const_name` in `file_content`.
pub fn extract_code_sample(file_content: &str, const_name: &str) -> (r: Option<String>)
    ensures
        r matches Some(c) ==> code_sample(file_content@, const_name@) == Some(c@),
        r is None ==> code_sample(file_content@, const_name@) is None,
{
    let total = file_content.unicode_len();
    let mut pattern = String::from_str("const ");
    pattern.append(const_name);
    pattern.append(": &str = r#\"");
    let start_idx = match find_chars_exec(file_content, pattern.as_str(), 0) {
        Some(i) => i,
        None => {
            return None;
        },
    };
    let code_start = start_idx + pattern.as_str().unicode_len();
    let end_idx = match find_chars_exec(file_content, "\"#;", code_start) {
        Some(i) => i,
        None => {
            return None;
        },
    };
    proof {
        assert(find_chars(file_content@, "\"#;"@, code_start as int) == Some(end_idx as int));
    }
    let code = file_content.substring_char(code_start, end_idx);
    Some(String::from_str(code))
}

} // verus!

verus! {

proof fn lemma_find_chars_found(t: Seq<char>, p: Seq<char>, from: int)
    ensures
        find_chars(t, p, from) matches Some(i) ==> 0 <= from <= i && i + p.len() <= t.len() && t.subrange(i, i + p.len()) == p,
    decreases t.len() + 1 - from,
{
    if from < 0 || from + p.len() > t.len() {
    } else if t.subrange(from, from + p.len()) == p {
    } else {
        lemma_find_chars_found(t, p, from + 1);
    }
}

/// Whether the text `c` stands at index `i` of `content`, right after
/// `pat` and right before `"#;`.
pub open spec fn sample_at(content: Seq<char>, pat: Seq<char>, c: Seq<char>, i: int) -> bool {
    pat.len() <= i && i + c.len() + 3 <= content.len() && content.subrange(i - pat.len(), i) == pat
        && content.subrange(i, i + c.len()) == c && content.subrange(i + c.len(), i + c.len() + 3) == "\"#;"@
}

/// A code sample stands in its source right after `const <name>: &str = r#"`
/// and right before a `"#;`.
pub proof fn law_code_sample_between_markers(content: Seq<char>, name: Seq<char>)
    ensures
        code_sample(content, name) is Some ==> exists|i: int|
            #[trigger] sample_at(content, "const "@ + name + ": &str = r#\""@, code_sample(content, name).unwrap(), i),
{
    reveal_strlit("\"#;");
    let pat = "const "@ + name + ": &str = r#\""@;
    lemma_find_chars_found(content, pat, 0);
    match find_chars(content, pat, 0) {
        None => {
            assert(code_sample(content, name) is None);
        },
        Some(si) => {
            let cs = si + pat.len();
            lemma_find_chars_found(content, "\"#;"@, cs);
            match find_chars(content, "\"#;"@, cs) {
                None => {
                    assert(code_sample(content, name) is None);
                },
                Some(ei) => {
                    let c = content.subrange(cs, ei);
                    assert(code_sample(content, name) == Some(c));
                    assert(content.subrange(cs, cs + c.len()) =~= c);
                    assert(content.subrange(cs - pat.len(), cs) == content.subrange(si, si + pat.len()));
                    assert(sample_at(content, pat, c, cs));
                    assert(sample_at(content, "const "@ + name + ": &str = r#\""@, code_sample(content, name).unwrap(), cs));
                },
            }
        },
    }
}

proof fn lemma_find_chars_first(t: Seq<char>, p: Seq<char>, from: int, target: int)
    requires
        0 <= from <= target,
        target + p.len() <= t.len(),
        t.subrange(target, target + p.len()) == p,
        forall|i: int| from <= i < target ==> #[trigger] t.subrange(i, i + p.len()) != p,
    ensures
        find_chars(t, p, from) == Some(target),
    decreases target - from,
{
    if from < target {
        assert(t.subrange(from, from + p.len()) != p);
        lemma_find_chars_first(t, p, from + 1, target);
    }
}

/// The code sample of a constant written `const <name>: &str = r#"<s>"#;`
/// is `s`, when `s` holds no `"#;`.
pub proof fn law_code_sample_of_constant(name: Seq<char>, s: Seq<char>)
    requires
        forall|i: int| 0 <= i && i + 3 <= s.len() ==> #[trigger] s.subrange(i, i + 3) != "\"#;"@,
    ensures
        code_sample("const "@ + name + ": &str = r#\""@ + s + "\"#;"@, name) == Some(s),
{
    reveal_strlit("\"#;");
    let pat = "const "@ + name + ": &str = r#\""@;
    let end = "\"#;"@;
    let content = pat + s + end;
    let cs = pat.len() as int;
    let e = cs + s.len();
    assert(content.subrange(0, pat.len() as int) =~= pat);
    lemma_find_chars_first(content, pat, 0, 0);
    assert(content.subrange(e, e + 3) =~= end);
    assert forall|i: int| cs <= i < e implies #[trigger] content.subrange(i, i + end.len()) != end by {
        if i + 3 <= e {
            assert(content.subrange(i, i + 3) =~= s.subrange(i - cs, i - cs + 3));
        } else if i == e - 1 {
            assert(content[i + 1] == '"');
            assert(content.subrange(i, i + 3)[1] == content[i + 1]);
            assert(end[1] == '#');
        } else {
            assert(i == e - 2);
            assert(content[i + 2] == '"');
            assert(content.subrange(i, i + 3)[2] == content[i + 2]);
            assert(end[2] == ';');
        }
    }
    lemma_find_chars_first(content, end, cs, e);
    assert(content.subrange(cs, e) =~= s);
}

} // verus!
