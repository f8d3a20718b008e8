//! Comments of a parsed source and the `@prompt` annotations they make.
use crate::annotation::{parse_annotation, spec_parse_annotation};
use crate::syntax::{node_wf, SyntaxNode, SyntaxTree};
use crate::text::{
    blank_between, blank_between_exec, range_string, range_text, text_eq, utf8, valid_range, is_valid_range,
};
use crate::types::{annotation_models, AnnotationModel, PromptAnnotation, Span};
use vstd::prelude::*;
use vstd::seq_lib::to_multiset_insert;

verus! {

/// The node kinds that hold comments in a grammar.
#[derive(Clone, Copy, Debug, PartialEq, Eq, Structural)]
pub enum CommentKinds {
    /// `comment` nodes.
    Comment,
    /// `line_comment` and `block_comment` nodes.
    LineAndBlock,
}

/// Whether a node kind holds comments.
pub open spec fn is_comment_kind(kind: Seq<char>, kinds: CommentKinds) -> bool {
    match kinds {
        CommentKinds::Comment => kind == "comment"@,
        CommentKinds::LineAndBlock => kind == "line_comment"@ || kind == "block_comment"@,
    }
}

/// Whether a node kind holds comments.
fn comment_kind_exec(kind: &str, kinds: CommentKinds) -> (r: bool)
    ensures
        r == is_comment_kind(kind@, kinds),
{
    match kinds {
        CommentKinds::Comment => text_eq(kind, "comment"),
        CommentKinds::LineAndBlock => text_eq(kind, "line_comment") || text_eq(kind, "block_comment"),
    }
}

/// Represents a comment node extracted from the syntax tree.
#[derive(Clone, Debug)]
pub struct CommentNode {
    pub start: u32,
    pub end: u32,
    pub text: String,
}

/// The comments of node `i`'s subtree, in pre-order, as `CommentNode`s over
/// the source bytes `src`.
pub open spec fn subtree_comments(t: Seq<SyntaxNode>, i: int, src: Seq<u8>, kinds: CommentKinds) -> Seq<
    (u32, u32, Seq<char>),
>
    decreases i, t[i].children@.len() + 1,
{
    if 0 <= i < t.len() {
        let own = if is_comment_kind(t[i].kind@, kinds) {
            seq![(t[i].start as u32, t[i].end as u32, range_text(src, t[i].start as int, t[i].end as int))]
        } else {
            seq![]
        };
        own + children_comments(t, i, 0, src, kinds)
    } else {
        seq![]
    }
}

/// The comments of the subtrees of node `i`'s children from the `j`-th on.
pub open spec fn children_comments(t: Seq<SyntaxNode>, i: int, j: int, src: Seq<u8>, kinds: CommentKinds) -> Seq<
    (u32, u32, Seq<char>),
>
    decreases i, t[i].children@.len() - j,
{
    if 0 <= i < t.len() && 0 <= j < t[i].children@.len() {
        let c = t[i].children@[j] as int;
        if c < i {
            subtree_comments(t, c, src, kinds) + children_comments(t, i, j + 1, src, kinds)
        } else {
            children_comments(t, i, j + 1, src, kinds)
        }
    } else {
        seq![]
    }
}

/// The value of a comment node: start, end and text.
pub open spec fn comment_model(c: CommentNode) -> (u32, u32, Seq<char>) {
    (c.start, c.end, c.text@)
}

pub open spec fn comment_models(s: Seq<CommentNode>) -> Seq<(u32, u32, Seq<char>)> {
    s.map_values(|c: CommentNode| comment_model(c))
}

/// Appends the comments of node `i`'s subtree to `acc`, in pre-order.
fn extract_comments_recursive(
    tree: &SyntaxTree,
    i: usize,
    source: &str,
    acc: &mut Vec<CommentNode>,
    kinds: CommentKinds,
)
    requires
        tree.wf(utf8(source@)),
        i < tree.nodes@.len(),
    ensures
        comment_models(final(acc)@) == comment_models(old(acc)@) + subtree_comments(
            tree.nodes@,
            i as int,
            utf8(source@),
            kinds,
        ),
    decreases i,
{
    let ghost t = tree.nodes@;
    let ghost src = utf8(source@);
    let node = &tree.nodes[i];
    proof {
        assert(node_wf(t, i as int, src));
    }
    if comment_kind_exec(node.kind.as_str(), kinds) {
        let text = range_string(source, node.start, node.end);
        acc.push(CommentNode { start: node.start as u32, end: node.end as u32, text });
    }
    let ghost base = comment_models(acc@);
    assert(comment_models(acc@) == comment_models(old(acc)@) + (if is_comment_kind(t[i as int].kind@, kinds) {
        seq![(t[i as int].start as u32, t[i as int].end as u32, range_text(src, t[i as int].start as int, t[i as int].end as int))]
    } else {
        seq![]
    }));
    let n = node.children.len();
    let mut j: usize = 0;
    while j < n
        invariant
            tree.wf(src),
            src == utf8(source@),
            t == tree.nodes@,
            i < t.len(),
            n == t[i as int].children@.len(),
            j <= n,
            node_wf(t, i as int, src),
            comment_models(acc@) + children_comments(t, i as int, j as int, src, kinds) == base
                + children_comments(t, i as int, 0, src, kinds),
        decreases n - j,
    {
        let c = tree.nodes[i].children[j];
        let ghost before = comment_models(acc@);
        assert(c < i);
        extract_comments_recursive(tree, c, source, acc, kinds);
        assert(children_comments(t, i as int, j as int, src, kinds) == subtree_comments(t, c as int, src, kinds)
            + children_comments(t, i as int, j + 1, src, kinds));
        assert(comment_models(acc@) + children_comments(t, i as int, j + 1, src, kinds) =~= before
            + children_comments(t, i as int, j as int, src, kinds));
        j = j + 1;
    }
    assert(children_comments(t, i as int, n as int, src, kinds) =~= seq![]);
    assert(comment_models(acc@) =~= comment_models(old(acc)@) + subtree_comments(t, i as int, src, kinds));
}

/// Whether the comments are ordered by start.
pub open spec fn sorted_by_start(s: Seq<CommentNode>) -> bool {
    forall|i: int, j: int| 0 <= i < j < s.len() ==> s[i].start <= s[j].start
}

/// Whether every comment covers whole characters of the source bytes `src`.
pub open spec fn ranges_valid(s: Seq<CommentNode>, src: Seq<u8>) -> bool {
    forall|i: int| 0 <= i < s.len() ==> valid_range(src, #[trigger] s[i].start as int, s[i].end as int)
}

/// Sorts comments by start; comments with equal starts keep their order.
fn sort_by_start(v: Vec<CommentNode>, Ghost(src): Ghost<Seq<u8>>) -> (r: Vec<CommentNode>)
    requires
        ranges_valid(v@, src),
    ensures
        sorted_by_start(r@),
        ranges_valid(r@, src),
        comment_models(r@).to_multiset() == comment_models(v@).to_multiset(),
{
    broadcast use vstd::seq_lib::group_to_multiset_ensures, vstd::multiset::group_multiset_axioms;

    let mut input = v;
    let mut r: Vec<CommentNode> = Vec::new();
    assert(comment_models(r@) =~= Seq::<(u32, u32, Seq<char>)>::empty());
    assert(comment_models(r@).to_multiset() =~= vstd::multiset::Multiset::empty());
    assert(comment_models(r@).to_multiset().add(comment_models(input@).to_multiset()) =~= comment_models(v@).to_multiset());
    while input.len() > 0
        invariant
            sorted_by_start(r@),
            ranges_valid(r@, src),
            ranges_valid(input@, src),
            comment_models(r@).to_multiset().add(comment_models(input@).to_multiset())
                == comment_models(v@).to_multiset(),
        decreases input@.len(),
    {
        let ghost before_in = input@;
        let ghost before_r = r@;
        let x = input.pop().unwrap();
        let mut p: usize = 0;
        while p < r.len() && r[p].start < x.start
            invariant
                p <= r@.len(),
                forall|k: int| 0 <= k < p ==> r@[k].start < x.start,
            decreases r@.len() - p,
        {
            p = p + 1;
        }
        r.insert(p, x);
        proof {
            assert(before_in =~= input@.push(x));
            assert(comment_models(before_in) =~= comment_models(input@).push(comment_model(x)));
            vstd::seq_lib::to_multiset_build(comment_models(input@), comment_model(x));
            assert(comment_models(r@) =~= comment_models(before_r).insert(p as int, comment_model(x)));
            to_multiset_insert(comment_models(before_r), p as int, comment_model(x));
            assert(comment_models(r@).to_multiset().add(comment_models(input@).to_multiset())
                =~= comment_models(before_r).to_multiset().add(comment_models(before_in).to_multiset()));
            assert forall|a: int, b: int| 0 <= a < b < r@.len() implies r@[a].start <= r@[b].start by {
                if b < p {
                } else if b == p {
                } else if a < p {
                    assert(r@[b] == before_r[b - 1]);
                    if p < before_r.len() {
                        assert(before_r[p as int].start >= x.start);
                        assert(before_r[p as int].start <= before_r[b - 1].start);
                    }
                } else if a == p {
                    assert(r@[b] == before_r[b - 1]);
                    assert(before_r[p as int].start >= x.start);
                    assert(before_r[p as int].start <= before_r[b - 1].start);
                } else {
                    assert(r@[a] == before_r[a - 1]);
                    assert(r@[b] == before_r[b - 1]);
                }
            }
            assert forall|k: int| 0 <= k < r@.len() implies valid_range(src, #[trigger] r@[k].start as int, r@[k].end as int) by {
                if k < p {
                } else if k == p {
                    assert(before_in[before_in.len() - 1] == x);
                } else {
                    assert(r@[k] == before_r[k - 1]);
                }
            }
        }
    }
    assert(comment_models(input@) =~= Seq::<(u32, u32, Seq<char>)>::empty());
    assert(comment_models(input@).to_multiset() =~= vstd::multiset::Multiset::empty());
    assert(comment_models(r@).to_multiset() =~= comment_models(r@).to_multiset().add(comment_models(input@).to_multiset()));
    r
}

/// The index of the last comment among the first `j` that ends at or before `pos`.
pub open spec fn last_ending_before(cs: Seq<CommentNode>, pos: int, j: int) -> Option<int>
    decreases j,
{
    if j <= 0 || j > cs.len() {
        None
    } else if cs[j - 1].end <= pos {
        Some(j - 1)
    } else {
        last_ending_before(cs, pos, j - 1)
    }
}

/// The contiguous block of comments ending before `last`, among the first
/// `j`, scanned backwards: a comment that ends after `last` is passed over;
/// one that ends at or before it joins the block when only whitespace
/// separates the two, and ends the scan otherwise. The indices are listed
/// latest first.
pub open spec fn scan_block(cs: Seq<CommentNode>, src: Seq<u8>, j: int, last: int) -> Seq<int>
    decreases j,
{
    if j <= 0 || j > cs.len() {
        seq![]
    } else if cs[j - 1].end <= last {
        if blank_between(src, cs[j - 1].end as int, last) {
            seq![j - 1] + scan_block(cs, src, j - 1, cs[j - 1].start as int)
        } else {
            seq![]
        }
    } else {
        scan_block(cs, src, j - 1, last)
    }
}

/// The block of comments that leads a statement starting at `pos`, latest
/// first: empty unless the last comment ending at or before `pos` is
/// separated from it by whitespace only.
pub open spec fn leading_block(cs: Seq<CommentNode>, src: Seq<u8>, pos: int) -> Seq<int> {
    match last_ending_before(cs, pos, cs.len() as int) {
        None => seq![],
        Some(k) => if blank_between(src, cs[k].end as int, pos) {
            scan_block(cs, src, cs.len() as int, pos)
        } else {
            seq![]
        },
    }
}

/// Whether some comment of the block carries a valid `@prompt` marker.
pub open spec fn block_has_prompt(cs: Seq<CommentNode>, blk: Seq<int>) -> bool {
    exists|i: int| 0 <= i < blk.len() && spec_parse_annotation(cs[#[trigger] blk[i]].text@) == Some(true)
}

/// The annotations that lead a statement starting at `pos`: the whole
/// leading block merged into one annotation, from the start of its first
/// comment to the end of its last, when one of its comments carries a valid
/// `@prompt` marker; none otherwise.
pub open spec fn spec_adjacent_leading(cs: Seq<CommentNode>, src: Seq<u8>, pos: int) -> Seq<
    AnnotationModel,
> {
    let blk = leading_block(cs, src, pos);
    if blk.len() == 0 || !block_has_prompt(cs, blk) {
        seq![]
    } else {
        let start = cs[blk.last()].start;
        let end = cs[blk[0]].end;
        seq![AnnotationModel { span: Span { start, end }, exp: range_text(src, start as int, end as int) }]
    }
}

/// The start of the leading block of a statement starting at `pos`, if any.
pub open spec fn spec_any_leading_start(cs: Seq<CommentNode>, src: Seq<u8>, pos: int) -> Option<u32> {
    let blk = leading_block(cs, src, pos);
    if blk.len() == 0 {
        None
    } else {
        Some(cs[blk.last()].start)
    }
}

/// The annotations made by comments starting in `[a, b)` that carry a valid
/// `@prompt` marker, in order, among the first `j` comments.
pub open spec fn spec_inline_prompt(cs: Seq<CommentNode>, a: int, b: int, j: int) -> Seq<AnnotationModel>
    decreases j,
{
    if j <= 0 || j > cs.len() {
        seq![]
    } else {
        let c = cs[j - 1];
        let rest = spec_inline_prompt(cs, a, b, j - 1);
        if a <= c.start < b && spec_parse_annotation(c.text@) == Some(true) {
            rest.push(AnnotationModel { span: Span { start: c.start, end: c.end }, exp: c.text@ })
        } else {
            rest
        }
    }
}

proof fn lemma_scan_block(cs: Seq<CommentNode>, src: Seq<u8>, j: int, last: int)
    requires
        forall|i: int| 0 <= i < cs.len() ==> cs[i].start <= #[trigger] cs[i].end,
    ensures
        ({
            let blk = scan_block(cs, src, j, last);
            &&& forall|i: int| 0 <= i < blk.len() ==> 0 <= #[trigger] blk[i] < j && blk[i] < cs.len()
            &&& blk.len() > 0 ==> cs[blk.last()].start <= cs[blk[0]].end && cs[blk[0]].end <= last
        }),
    decreases j,
{
    if j <= 0 || j > cs.len() {
    } else if cs[j - 1].end <= last {
        if blank_between(src, cs[j - 1].end as int, last) {
            lemma_scan_block(cs, src, j - 1, cs[j - 1].start as int);
            let rest = scan_block(cs, src, j - 1, cs[j - 1].start as int);
            let blk = scan_block(cs, src, j, last);
            assert(blk == seq![j - 1] + rest);
            if rest.len() > 0 {
                assert(blk.last() == rest.last());
            }
        }
    } else {
        lemma_scan_block(cs, src, j - 1, last);
    }
}

/// Tracks and manages comments from the parsed tree.
pub struct CommentTracker<'a> {
    source: &'a str,
    comments: Vec<CommentNode>,
}

impl<'a> CommentTracker<'a> {
    #[verifier::type_invariant]
    spec fn inv(self) -> bool {
        &&& ranges_valid(self.comments@, utf8(self.source@))
        &&& sorted_by_start(self.comments@)
    }

    /// The source text.
    pub closed spec fn source_text(self) -> Seq<char> {
        self.source@
    }

    /// The comments, sorted by start.
    pub closed spec fn comment_list(self) -> Seq<CommentNode> {
        self.comments@
    }

    /// The UTF-8 bytes of the source text.
    pub open spec fn src_bytes(self) -> Seq<u8> {
        utf8(self.source_text())
    }

    /// Create a new CommentTracker by extracting all comments from the tree:
    /// the `comment` nodes reachable from the root, with their text, sorted by start.
    pub fn new(tree: &SyntaxTree, source: &'a str) -> (r: Self)
        requires
            tree.wf(utf8(source@)),
        ensures
            r.source_text() == source@,
            sorted_by_start(r.comment_list()),
            comment_models(r.comment_list()).to_multiset() == subtree_comments(
                tree.nodes@,
                tree.root as int,
                utf8(source@),
                CommentKinds::Comment,
            ).to_multiset(),
    {
        Self::with_kinds(tree, source, CommentKinds::Comment)
    }

    /// A CommentTracker over the comment nodes of the given kinds reachable
    /// from the root, with their text, sorted by start.
    pub fn with_kinds(tree: &SyntaxTree, source: &'a str, kinds: CommentKinds) -> (r: Self)
        requires
            tree.wf(utf8(source@)),
        ensures
            r.source_text() == source@,
            sorted_by_start(r.comment_list()),
            comment_models(r.comment_list()).to_multiset() == subtree_comments(
                tree.nodes@,
                tree.root as int,
                utf8(source@),
                kinds,
            ).to_multiset(),
    {
        let mut acc: Vec<CommentNode> = Vec::new();
        extract_comments_recursive(tree, tree.root, source, &mut acc, kinds);
        assert(comment_models(acc@) =~= subtree_comments(tree.nodes@, tree.root as int, utf8(source@), kinds));
        proof {
            lemma_subtree_comments_valid(tree.nodes@, tree.root as int, utf8(source@), kinds, tree);
            let sc = subtree_comments(tree.nodes@, tree.root as int, utf8(source@), kinds);
            assert forall|i: int| 0 <= i < acc@.len() implies valid_range(utf8(source@), #[trigger] acc@[i].start as int, acc@[i].end as int) by {
                assert(comment_models(acc@)[i] == comment_model(acc@[i]));
                assert(sc[i].0 == acc@[i].start);
                assert(valid_range(utf8(source@), sc[i].0 as int, sc[i].1 as int));
            }
        }
        let comments = sort_by_start(acc, Ghost(utf8(source@)));
        CommentTracker { source, comments }
    }

    /// A CommentTracker over the comments with the given byte ranges, with
    /// their text; `None` unless every range covers whole characters of
    /// the source and the ranges are ordered by start.
    pub fn from_ranges(source: &'a str, ranges: &Vec<Span>) -> (r: Option<Self>)
        ensures
            r is Some <==> (forall|i: int| 0 <= i < ranges@.len() ==> valid_range(utf8(source@), #[trigger] ranges@[i].start as int, ranges@[i].end as int))
                && (forall|i: int, j: int| 0 <= i < j < ranges@.len() ==> ranges@[i].start <= ranges@[j].start),
            r matches Some(t) ==> t.source_text() == source@ && comment_models(t.comment_list()) == ranges@.map_values(
                |sp: Span| (sp.start, sp.end, range_text(utf8(source@), sp.start as int, sp.end as int)),
            ),
    {
        let ghost b = utf8(source@);
        let ghost rs = ranges@;
        let mut comments: Vec<CommentNode> = Vec::new();
        let mut i: usize = 0;
        while i < ranges.len()
            invariant
                b == utf8(source@),
                rs == ranges@,
                i <= rs.len(),
                comments@.len() == i,
                forall|q: int| 0 <= q < i ==> valid_range(b, #[trigger] rs[q].start as int, rs[q].end as int),
                forall|q: int, w: int| 0 <= q < w < i ==> rs[q].start <= rs[w].start,
                forall|q: int| 0 <= q < i ==> (#[trigger] comments@[q]).start == rs[q].start && comments@[q].end == rs[q].end
                    && comments@[q].text@ == range_text(b, rs[q].start as int, rs[q].end as int),
            decreases rs.len() - i,
        {
            let sp = ranges[i];
            if !is_valid_range(source, sp.start as usize, sp.end as usize) {
                return None;
            }
            if i > 0 && ranges[i - 1].start > sp.start {
                return None;
            }
            let text = range_string(source, sp.start as usize, sp.end as usize);
            comments.push(CommentNode { start: sp.start, end: sp.end, text });
            i = i + 1;
        }
        assert(comment_models(comments@) =~= rs.map_values(
            |sp: Span| (sp.start, sp.end, range_text(b, sp.start as int, sp.end as int)),
        ));
        Some(CommentTracker { source, comments })
    }

    /// The comments, sorted by start.
    pub fn comments(&self) -> (r: &Vec<CommentNode>)
        ensures
            r@ == self.comment_list(),
    {
        &self.comments
    }

    /// The index of the last comment that ends at or before `pos`.
    fn last_ending_before_exec(&self, pos: u32) -> (r: Option<usize>)
        ensures
            r matches Some(k) ==> last_ending_before(self.comment_list(), pos as int, self.comment_list().len() as int) == Some(k as int),
            r is None ==> last_ending_before(self.comment_list(), pos as int, self.comment_list().len() as int) is None,
            r matches Some(k) ==> k < self.comment_list().len(),
    {
        let mut j = self.comments.len();
        while j > 0
            invariant
                j <= self.comments@.len(),
                last_ending_before(self.comments@, pos as int, self.comments@.len() as int)
                    == last_ending_before(self.comments@, pos as int, j as int),
            decreases j,
        {
            if self.comments[j - 1].end <= pos {
                return Some(j - 1);
            }
            j = j - 1;
        }
        None
    }

    /// The block scan from the last comment backwards, starting at `pos`.
    fn scan_block_exec(&self, pos: u32) -> (r: Vec<usize>)
        requires
            pos as int <= self.src_bytes().len() ==> vstd::utf8::is_char_boundary(self.src_bytes(), pos as int),
        ensures
            r@.len() == scan_block(self.comment_list(), self.src_bytes(), self.comment_list().len() as int, pos as int).len(),
            forall|i: int| 0 <= i < r@.len() ==> r@[i] as int == #[trigger] scan_block(self.comment_list(), self.src_bytes(), self.comment_list().len() as int, pos as int)[i],
    {
        proof {
            use_type_invariant(self);
        }
        let ghost cs = self.comments@;
        let ghost src = utf8(self.source@);
        let ghost whole = scan_block(cs, src, cs.len() as int, pos as int);
        let mut r: Vec<usize> = Vec::new();
        let mut last = pos;
        let mut j = self.comments.len();
        while j > 0
            invariant
                j <= cs.len(),
                cs == self.comments@,
                src == utf8(self.source@),
                whole == scan_block(cs, src, cs.len() as int, pos as int),
                ranges_valid(cs, src),
                last as int <= src.len() ==> vstd::utf8::is_char_boundary(src, last as int),
                r@.len() + scan_block(cs, src, j as int, last as int).len() == whole.len(),
                forall|i: int| 0 <= i < r@.len() ==> r@[i] as int == #[trigger] whole[i],
                forall|i: int| 0 <= i < scan_block(cs, src, j as int, last as int).len() ==>
                    #[trigger] scan_block(cs, src, j as int, last as int)[i] == whole[r@.len() + i],
            decreases j,
        {
            let c = &self.comments[j - 1];
            if c.end <= last {
                proof {
                    assert(valid_range(src, cs[j - 1].start as int, cs[j - 1].end as int));
                }
                if blank_between_exec(self.source, c.end as usize, last as usize) {
                    let ghost rest = scan_block(cs, src, j - 1, c.start as int);
                    let ghost cur = scan_block(cs, src, j as int, last as int);
                    assert(cur == seq![(j - 1) as int] + rest);
                    assert(forall|i: int| 0 <= i < rest.len() ==> #[trigger] rest[i] == cur[i + 1]);
                    assert(cur[0] == whole[r@.len() as int]);
                    r.push(j - 1);
                    last = c.start;
                } else {
                    assert(scan_block(cs, src, j as int, last as int) =~= Seq::<int>::empty());
                    assert(r@.len() == whole.len());
                    assert(self.comment_list() == cs);
                    assert(self.src_bytes() == src);
                    return r;
                }
            }
            j = j - 1;
        }
        r
    }

    /// The leading block of a statement starting at `stmt_start`, latest first.
    /// Whether `pos` is a character boundary of the source wherever a
    /// comment ends at or before it, so that the text between them can be read.
    pub open spec fn leading_boundary_ok(&self, pos: u32) -> bool {
        last_ending_before(self.comment_list(), pos as int, self.comment_list().len() as int) is Some ==> (pos as int
            <= self.src_bytes().len() ==> vstd::utf8::is_char_boundary(self.src_bytes(), pos as int))
    }

    fn leading_block_exec(&self, stmt_start: u32) -> (r: Vec<usize>)
        requires
            self.leading_boundary_ok(stmt_start),
        ensures
            r@.len() == leading_block(self.comment_list(), self.src_bytes(), stmt_start as int).len(),
            forall|i: int| 0 <= i < r@.len() ==> r@[i] as int == #[trigger] leading_block(self.comment_list(), self.src_bytes(), stmt_start as int)[i],
    {
        proof {
            use_type_invariant(self);
        }
        match self.last_ending_before_exec(stmt_start) {
            None => Vec::new(),
            Some(k) => {
                proof {
                    assert(valid_range(utf8(self.source@), self.comments@[k as int].start as int, self.comments@[k as int].end as int));
                }
                if blank_between_exec(self.source, self.comments[k].end as usize, stmt_start as usize) {
                    self.scan_block_exec(stmt_start)
                } else {
                    Vec::new()
                }
            },
        }
    }

    /// Collect adjacent leading comments for a statement.
    /// Finds the contiguous block of comments immediately before the statement
    /// (only whitespace between) and, when one of them carries a valid
    /// `@prompt` marker, returns the whole block as one annotation.
    pub fn collect_adjacent_leading(&self, stmt_start: u32) -> (r: Vec<PromptAnnotation>)
        requires
            self.leading_boundary_ok(stmt_start),
        ensures
            annotation_models(r@) == spec_adjacent_leading(self.comment_list(), self.src_bytes(), stmt_start as int),
    {
        proof {
            use_type_invariant(self);
        }
        let ghost cs = self.comments@;
        let ghost src = utf8(self.source@);
        let ghost gblk = leading_block(cs, src, stmt_start as int);
        let blk = self.leading_block_exec(stmt_start);
        if blk.len() == 0 {
            let r: Vec<PromptAnnotation> = Vec::new();
            assert(annotation_models(r@) =~= Seq::<AnnotationModel>::empty());
            return r;
        }
        let mut has_prompt = false;
        let mut i: usize = 0;
        proof {
            lemma_scan_block_bounds(cs, src, stmt_start as int);
        }
        while i < blk.len()
            invariant
                cs == self.comments@,
                blk@.len() == gblk.len(),
                forall|q: int| 0 <= q < blk@.len() ==> blk@[q] as int == #[trigger] gblk[q],
                forall|q: int| 0 <= q < gblk.len() ==> 0 <= #[trigger] gblk[q] < cs.len(),
                i <= blk@.len(),
                has_prompt == exists|q: int| 0 <= q < i && spec_parse_annotation(cs[#[trigger] gblk[q]].text@) == Some(true),
            decreases blk@.len() - i,
        {
            let idx = blk[i];
            assert(idx as int == gblk[i as int]);
            match parse_annotation(self.comments[idx].text.as_str()) {
                Some(true) => {
                    has_prompt = true;
                },
                _ => {},
            }
            i = i + 1;
        }
        if !has_prompt {
            let r: Vec<PromptAnnotation> = Vec::new();
            assert(annotation_models(r@) =~= Seq::<AnnotationModel>::empty());
            return r;
        }
        proof {
            lemma_scan_block_bounds(cs, src, stmt_start as int);
            assert forall|q: int| 0 <= q < cs.len() implies cs[q].start <= #[trigger] cs[q].end by {
                assert(valid_range(src, cs[q].start as int, cs[q].end as int));
            }
            lemma_scan_block(cs, src, cs.len() as int, stmt_start as int);
        }
        let first = &self.comments[blk[blk.len() - 1]];
        let last = &self.comments[blk[0]];
        let start = first.start;
        let end = last.end;
        proof {
            assert(valid_range(src, first.start as int, first.end as int));
            assert(valid_range(src, last.start as int, last.end as int));
        }
        let exp = range_string(self.source, start as usize, end as usize);
        let r = vec![PromptAnnotation { span: Span { start, end }, exp }];
        assert(annotation_models(r@) =~= spec_adjacent_leading(cs, src, stmt_start as int));
        r
    }

    /// Collect inline @prompt comments within a statement's range: the
    /// comments that start in `[stmt_start, stmt_end)` and carry a valid
    /// `@prompt` marker, in order.
    pub fn collect_inline_prompt(&self, stmt_start: u32, stmt_end: u32) -> (r: Vec<PromptAnnotation>)
        ensures
            annotation_models(r@) == spec_inline_prompt(self.comment_list(), stmt_start as int, stmt_end as int, self.comment_list().len() as int),
    {
        let ghost cs = self.comments@;
        let mut r: Vec<PromptAnnotation> = Vec::new();
        let mut j: usize = 0;
        while j < self.comments.len()
            invariant
                cs == self.comments@,
                j <= cs.len(),
                annotation_models(r@) == spec_inline_prompt(cs, stmt_start as int, stmt_end as int, j as int),
            decreases cs.len() - j,
        {
            let c = &self.comments[j];
            if c.start >= stmt_start && c.start < stmt_end {
                match parse_annotation(c.text.as_str()) {
                    Some(true) => {
                        r.push(PromptAnnotation { span: Span { start: c.start, end: c.end }, exp: c.text.clone() });
                    },
                    _ => {},
                }
            }
            assert(annotation_models(r@) =~= spec_inline_prompt(cs, stmt_start as int, stmt_end as int, j + 1));
            j = j + 1;
        }
        r
    }

    /// Get the start position of the first leading comment, if any: the
    /// start of the merged leading annotation, when there is one.
    pub fn get_leading_start(&self, stmt_start: u32) -> (r: Option<u32>)
        requires
            self.leading_boundary_ok(stmt_start),
        ensures
            r == (if spec_adjacent_leading(self.comment_list(), self.src_bytes(), stmt_start as int).len() > 0 {
                Some(spec_adjacent_leading(self.comment_list(), self.src_bytes(), stmt_start as int)[0].span.start)
            } else {
                None::<u32>
            }),
    {
        let annotations = self.collect_adjacent_leading(stmt_start);
        if annotations.len() > 0 {
            assert(annotation_models(annotations@)[0] == annotations@[0]@);
            Some(annotations[0].span.start)
        } else {
            None
        }
    }

    /// Get the start position of any adjacent leading comment, regardless of
    /// whether it carries a marker: the start of the leading block.
    pub fn get_any_leading_start(&self, stmt_start: u32) -> (r: Option<u32>)
        requires
            self.leading_boundary_ok(stmt_start),
        ensures
            r == spec_any_leading_start(self.comment_list(), self.src_bytes(), stmt_start as int),
    {
        proof {
            use_type_invariant(self);
            lemma_scan_block_bounds(self.comments@, utf8(self.source@), stmt_start as int);
        }
        let blk = self.leading_block_exec(stmt_start);
        if blk.len() == 0 {
            None
        } else {
            Some(self.comments[blk[blk.len() - 1]].start)
        }
    }
}

proof fn lemma_scan_block_bounds(cs: Seq<CommentNode>, src: Seq<u8>, pos: int)
    ensures
        forall|q: int| 0 <= q < leading_block(cs, src, pos).len() ==> 0 <= #[trigger] leading_block(cs, src, pos)[q] < cs.len(),
{
    lemma_scan_block_index_bounds(cs, src, cs.len() as int, pos);
}

proof fn lemma_scan_block_index_bounds(cs: Seq<CommentNode>, src: Seq<u8>, j: int, last: int)
    ensures
        forall|q: int| 0 <= q < scan_block(cs, src, j, last).len() ==> 0 <= #[trigger] scan_block(cs, src, j, last)[q] < j && scan_block(cs, src, j, last)[q] < cs.len(),
    decreases j,
{
    if j <= 0 || j > cs.len() {
    } else if cs[j - 1].end <= last {
        if blank_between(src, cs[j - 1].end as int, last) {
            lemma_scan_block_index_bounds(cs, src, j - 1, cs[j - 1].start as int);
            let rest = scan_block(cs, src, j - 1, cs[j - 1].start as int);
            assert(scan_block(cs, src, j, last) == seq![j - 1] + rest);
            assert forall|q: int| 0 <= q < scan_block(cs, src, j, last).len() implies 0 <= #[trigger] scan_block(cs, src, j, last)[q] < j && scan_block(cs, src, j, last)[q] < cs.len() by {
                if q > 0 {
                    assert(scan_block(cs, src, j, last)[q] == rest[q - 1]);
                }
            }
        } else {
            assert(scan_block(cs, src, j, last) =~= Seq::<int>::empty());
        }
    } else {
        lemma_scan_block_index_bounds(cs, src, j - 1, last);
        assert(scan_block(cs, src, j, last) == scan_block(cs, src, j - 1, last));
    }
}

/// When a statement has a merged leading annotation, it is the only one,
/// it starts where the statement's leading block starts, its text is the
/// source between its bounds, and it ends at or before the statement.
pub proof fn law_leading_annotation_is_block(cs: Seq<CommentNode>, src: Seq<u8>, pos: int)
    requires
        forall|i: int| 0 <= i < cs.len() ==> cs[i].start <= #[trigger] cs[i].end,
    ensures
        spec_adjacent_leading(cs, src, pos).len() <= 1,
        spec_adjacent_leading(cs, src, pos).len() == 1 ==> ({
            let a = spec_adjacent_leading(cs, src, pos)[0];
            &&& spec_any_leading_start(cs, src, pos) == Some(a.span.start)
            &&& a.span.start <= a.span.end <= pos
            &&& a.exp == range_text(src, a.span.start as int, a.span.end as int)
        }),
{
    if leading_block(cs, src, pos).len() > 0 {
        match last_ending_before(cs, pos, cs.len() as int) {
            Some(k) => {
                lemma_scan_block(cs, src, cs.len() as int, pos);
            },
            None => {},
        }
    }
}

/// Every inline annotation of a statement starts inside the statement's
/// range and carries a valid `@prompt` marker; its text is its comment's.
pub proof fn law_inline_annotations_in_range(cs: Seq<CommentNode>, a: int, b: int, j: int)
    ensures
        forall|q: int| 0 <= q < spec_inline_prompt(cs, a, b, j).len() ==> {
            let x = #[trigger] spec_inline_prompt(cs, a, b, j)[q];
            a <= x.span.start < b && spec_parse_annotation(x.exp) == Some(true)
        },
    decreases j,
{
    if 0 < j <= cs.len() {
        law_inline_annotations_in_range(cs, a, b, j - 1);
        let rest = spec_inline_prompt(cs, a, b, j - 1);
        let c = cs[j - 1];
        if a <= c.start < b && spec_parse_annotation(c.text@) == Some(true) {
            assert forall|q: int| 0 <= q < spec_inline_prompt(cs, a, b, j).len() implies ({
                let x = #[trigger] spec_inline_prompt(cs, a, b, j)[q];
                a <= x.span.start < b && spec_parse_annotation(x.exp) == Some(true)
            }) by {
                if q < rest.len() {
                    assert(spec_inline_prompt(cs, a, b, j)[q] == rest[q]);
                }
            }
        }
    }
}

proof fn lemma_subtree_comments_valid(t: Seq<SyntaxNode>, i: int, src: Seq<u8>, kinds: CommentKinds, tree: &SyntaxTree)
    requires
        tree.wf(src),
        t == tree.nodes@,
    ensures
        forall|k: int| 0 <= k < subtree_comments(t, i, src, kinds).len() ==> valid_range(src, #[trigger] subtree_comments(t, i, src, kinds)[k].0 as int, subtree_comments(t, i, src, kinds)[k].1 as int),
    decreases i, t[i].children@.len() + 1,
{
    if 0 <= i < t.len() {
        assert(node_wf(t, i, src));
        lemma_children_comments_valid(t, i, 0, src, kinds, tree);
        let own = if is_comment_kind(t[i].kind@, kinds) {
            seq![(t[i].start as u32, t[i].end as u32, range_text(src, t[i].start as int, t[i].end as int))]
        } else {
            seq![]
        };
        let b = children_comments(t, i, 0, src, kinds);
        assert(subtree_comments(t, i, src, kinds) == own + b);
        assert forall|k: int| 0 <= k < (own + b).len() implies valid_range(src, #[trigger] (own + b)[k].0 as int, (own + b)[k].1 as int) by {
            if k < own.len() {
                assert((own + b)[k] == own[k]);
            } else {
                assert((own + b)[k] == b[k - own.len()]);
            }
        }
    }
}

proof fn lemma_children_comments_valid(t: Seq<SyntaxNode>, i: int, j: int, src: Seq<u8>, kinds: CommentKinds, tree: &SyntaxTree)
    requires
        tree.wf(src),
        t == tree.nodes@,
    ensures
        forall|k: int| 0 <= k < children_comments(t, i, j, src, kinds).len() ==> valid_range(src, #[trigger] children_comments(t, i, j, src, kinds)[k].0 as int, children_comments(t, i, j, src, kinds)[k].1 as int),
    decreases i, t[i].children@.len() - j,
{
    if 0 <= i < t.len() && 0 <= j < t[i].children@.len() {
        let c = t[i].children@[j] as int;
        lemma_children_comments_valid(t, i, j + 1, src, kinds, tree);
        if c >= i {
            assert(children_comments(t, i, j, src, kinds) == children_comments(t, i, j + 1, src, kinds));
        } else {
            lemma_subtree_comments_valid(t, c, src, kinds, tree);
            let a = subtree_comments(t, c, src, kinds);
            let b = children_comments(t, i, j + 1, src, kinds);
            assert(children_comments(t, i, j, src, kinds) == a + b);
            assert forall|k: int| 0 <= k < (a + b).len() implies valid_range(src, #[trigger] (a + b)[k].0 as int, (a + b)[k].1 as int) by {
                if k < a.len() {
                    assert((a + b)[k] == a[k]);
                } else {
                    assert((a + b)[k] == b[k - a.len()]);
                }
            }
        }
    }
}

} // verus!
