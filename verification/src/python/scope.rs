//! Scope-aware state for Python prompt identifiers.
use crate::identsets::{assoc_get, assoc_insert, assoc_map, list_contains, list_insert, string_set};
use crate::types::{annotation_models, duplicate_annotations, AnnotationModel, PromptAnnotation};
use vstd::prelude::*;

verus! {

/// The annotations stored for `k` in the innermost of the first `j` scopes
/// that holds `k`.
pub open spec fn innermost_lookup(
    scopes: Seq<Map<Seq<char>, Seq<AnnotationModel>>>,
    k: Seq<char>,
    j: int,
) -> Option<Seq<AnnotationModel>>
    decreases j,
{
    if j <= 0 || j > scopes.len() {
        None
    } else if scopes[j - 1].contains_key(k) {
        Some(scopes[j - 1][k])
    } else {
        innermost_lookup(scopes, k, j - 1)
    }
}

/// Whether some scope holds `k`.
pub open spec fn in_any_scope(scopes: Seq<Set<Seq<char>>>, k: Seq<char>) -> bool {
    exists|i: int| 0 <= i < scopes.len() && (#[trigger] scopes[i]).contains(k)
}

/// Tracks scope-aware state for prompt identifier detection.
/// Manages stacks for nested scopes (functions, classes) and annotation tracking.
pub struct ScopeTracker {
    /// Stack of prompt identifier sets per scope.
    prompt_idents_stack: Vec<Vec<String>>,
    /// Stack of definition-time annotations per scope.
    def_annotations_stack: Vec<Vec<(String, Vec<PromptAnnotation>)>>,
    /// Identifiers that have type annotations (e.g., `name: str = value`).
    annotated_idents: Vec<String>,
}

impl ScopeTracker {
    /// Both stacks hold at least the global scope.
    pub closed spec fn wf(self) -> bool {
        &&& self.prompt_idents_stack@.len() >= 1
        &&& self.def_annotations_stack@.len() >= 1
    }

    /// The prompt identifiers of each scope, outermost first.
    pub closed spec fn prompt_scopes(self) -> Seq<Set<Seq<char>>> {
        self.prompt_idents_stack@.map_values(|v: Vec<String>| string_set(v@))
    }

    /// The definition-time annotations of each scope, outermost first.
    pub closed spec fn def_scopes(self) -> Seq<Map<Seq<char>, Seq<AnnotationModel>>> {
        self.def_annotations_stack@.map_values(
            |v: Vec<(String, Vec<PromptAnnotation>)>| assoc_map(v@),
        )
    }

    /// The identifiers with a type annotation.
    pub closed spec fn annotated(self) -> Set<Seq<char>> {
        string_set(self.annotated_idents@)
    }

    /// Create a new ScopeTracker with an initial global scope.
    pub fn new() -> (r: Self)
        ensures
            r.wf(),
            r.prompt_scopes() == seq![Set::<Seq<char>>::empty()],
            r.def_scopes() == seq![Map::<Seq<char>, Seq<AnnotationModel>>::empty()],
            r.annotated() == Set::<Seq<char>>::empty(),
    {
        let r = ScopeTracker {
            prompt_idents_stack: vec![Vec::new()],
            def_annotations_stack: vec![Vec::new()],
            annotated_idents: Vec::new(),
        };
        assert(r.prompt_scopes() =~= seq![Set::<Seq<char>>::empty()]);
        assert(r.def_scopes() =~= seq![Map::<Seq<char>, Seq<AnnotationModel>>::empty()]);
        r
    }

    /// Enter a new scope (e.g., when entering a function or class definition).
    pub fn enter_scope(&mut self)
        requires
            old(self).wf(),
        ensures
            final(self).wf(),
            final(self).prompt_scopes() == old(self).prompt_scopes().push(Set::empty()),
            final(self).def_scopes() == old(self).def_scopes().push(Map::empty()),
            final(self).annotated() == old(self).annotated(),
            (final(self).prompt_scopes(), final(self).def_scopes()) == apply_op((old(self).prompt_scopes(), old(self).def_scopes()), ScopeOp::Enter),
    {
        self.prompt_idents_stack.push(Vec::new());
        self.def_annotations_stack.push(Vec::new());
        assert(self.prompt_scopes() =~= old(self).prompt_scopes().push(Set::empty()));
        assert(self.def_scopes() =~= old(self).def_scopes().push(Map::empty()));
    }

    /// Exit the current scope (e.g., when leaving a function or class
    /// definition); the global scope is never removed.
    pub fn exit_scope(&mut self)
        requires
            old(self).wf(),
        ensures
            final(self).wf(),
            final(self).prompt_scopes() == (if old(self).prompt_scopes().len() > 1 {
                old(self).prompt_scopes().drop_last()
            } else {
                old(self).prompt_scopes()
            }),
            final(self).def_scopes() == (if old(self).def_scopes().len() > 1 {
                old(self).def_scopes().drop_last()
            } else {
                old(self).def_scopes()
            }),
            final(self).annotated() == old(self).annotated(),
            (final(self).prompt_scopes(), final(self).def_scopes()) == apply_op((old(self).prompt_scopes(), old(self).def_scopes()), ScopeOp::Exit),
    {
        if self.prompt_idents_stack.len() > 1 {
            self.prompt_idents_stack.pop();
        }
        if self.def_annotations_stack.len() > 1 {
            self.def_annotations_stack.pop();
        }
        assert(self.prompt_scopes() =~= (if old(self).prompt_scopes().len() > 1 {
            old(self).prompt_scopes().drop_last()
        } else {
            old(self).prompt_scopes()
        }));
        assert(self.def_scopes() =~= (if old(self).def_scopes().len() > 1 {
            old(self).def_scopes().drop_last()
        } else {
            old(self).def_scopes()
        }));
    }

    /// Mark an identifier as a prompt variable in the current scope.
    pub fn mark_prompt_ident(&mut self, ident: &str)
        requires
            old(self).wf(),
        ensures
            final(self).wf(),
            final(self).prompt_scopes() == old(self).prompt_scopes().update(
                old(self).prompt_scopes().len() - 1,
                old(self).prompt_scopes().last().insert(ident@),
            ),
            final(self).def_scopes() == old(self).def_scopes(),
            final(self).annotated() == old(self).annotated(),
            (final(self).prompt_scopes(), final(self).def_scopes()) == apply_op((old(self).prompt_scopes(), old(self).def_scopes()), ScopeOp::Mark(ident@)),
    {
        let mut scope = self.prompt_idents_stack.pop().unwrap();
        list_insert(&mut scope, ident);
        self.prompt_idents_stack.push(scope);
        assert(self.prompt_scopes() =~= old(self).prompt_scopes().update(
            old(self).prompt_scopes().len() - 1,
            old(self).prompt_scopes().last().insert(ident@),
        ));
    }

    /// Check if an identifier is marked as a prompt in any enclosing scope.
    pub fn is_prompt_ident(&self, ident: &str) -> (r: bool)
        ensures
            r == in_any_scope(self.prompt_scopes(), ident@),
    {
        let mut i: usize = 0;
        while i < self.prompt_idents_stack.len()
            invariant
                i <= self.prompt_idents_stack@.len(),
                forall|q: int| 0 <= q < i ==> !(#[trigger] self.prompt_scopes()[q]).contains(ident@),
            decreases self.prompt_idents_stack@.len() - i,
        {
            if list_contains(&self.prompt_idents_stack[i], ident) {
                assert(self.prompt_scopes()[i as int].contains(ident@));
                return true;
            }
            i = i + 1;
        }
        false
    }

    /// Store definition-time annotations for an identifier in the current
    /// scope, and mark it as type-annotated.
    pub fn store_def_annotation(&mut self, ident: &str, annotations: Vec<PromptAnnotation>)
        requires
            old(self).wf(),
        ensures
            final(self).wf(),
            final(self).def_scopes() == old(self).def_scopes().update(
                old(self).def_scopes().len() - 1,
                old(self).def_scopes().last().insert(ident@, annotation_models(annotations@)),
            ),
            final(self).prompt_scopes() == old(self).prompt_scopes(),
            final(self).annotated() == old(self).annotated().insert(ident@),
            (final(self).prompt_scopes(), final(self).def_scopes()) == apply_op((old(self).prompt_scopes(), old(self).def_scopes()), ScopeOp::Store(ident@, annotation_models(annotations@))),
    {
        let mut scope = self.def_annotations_stack.pop().unwrap();
        let ghost av = annotation_models(annotations@);
        assoc_insert(&mut scope, ident, annotations);
        self.def_annotations_stack.push(scope);
        list_insert(&mut self.annotated_idents, ident);
        assert(self.def_scopes() =~= old(self).def_scopes().update(
            old(self).def_scopes().len() - 1,
            old(self).def_scopes().last().insert(ident@, av),
        ));
    }

    /// Retrieve definition-time annotations for an identifier, from the
    /// innermost scope that holds it.
    pub fn get_def_annotation(&self, ident: &str) -> (r: Option<Vec<PromptAnnotation>>)
        ensures
            r matches Some(a) ==> innermost_lookup(self.def_scopes(), ident@, self.def_scopes().len() as int) == Some(annotation_models(a@)),
            r is None ==> innermost_lookup(self.def_scopes(), ident@, self.def_scopes().len() as int) is None,
    {
        let mut j = self.def_annotations_stack.len();
        while j > 0
            invariant
                j <= self.def_annotations_stack@.len(),
                innermost_lookup(self.def_scopes(), ident@, self.def_scopes().len() as int)
                    == innermost_lookup(self.def_scopes(), ident@, j as int),
            decreases j,
        {
            match assoc_get(&self.def_annotations_stack[j - 1], ident) {
                Some(ann) => {
                    return Some(duplicate_annotations(ann));
                },
                None => {},
            }
            j = j - 1;
        }
        None
    }

    /// Check if an identifier has a type annotation.
    pub fn is_annotated(&self, ident: &str) -> (r: bool)
        ensures
            r == self.annotated().contains(ident@),
    {
        list_contains(&self.annotated_idents, ident)
    }

    /// Mark an identifier as having a type annotation.
    pub fn mark_annotated(&mut self, ident: &str)
        requires
            old(self).wf(),
        ensures
            final(self).wf(),
            final(self).annotated() == old(self).annotated().insert(ident@),
            final(self).prompt_scopes() == old(self).prompt_scopes(),
            final(self).def_scopes() == old(self).def_scopes(),
    {
        list_insert(&mut self.annotated_idents, ident);
    }
}

impl Default for ScopeTracker {
    fn default() -> (r: Self)
        ensures
            r.wf(),
            r.prompt_scopes() == seq![Set::<Seq<char>>::empty()],
            r.def_scopes() == seq![Map::<Seq<char>, Seq<AnnotationModel>>::empty()],
            r.annotated() == Set::<Seq<char>>::empty(),
    {
        Self::new()
    }
}

/// Leaving a scope just entered restores the scope stacks.
pub proof fn law_exit_undoes_enter(
    p: Seq<Set<Seq<char>>>,
    d: Seq<Map<Seq<char>, Seq<AnnotationModel>>>,
)
    requires
        p.len() >= 1,
        d.len() >= 1,
    ensures
        (if p.push(Set::empty()).len() > 1 {
            p.push(Set::empty()).drop_last()
        } else {
            p.push(Set::empty())
        }) == p,
        (if d.push(Map::empty()).len() > 1 {
            d.push(Map::empty()).drop_last()
        } else {
            d.push(Map::empty())
        }) == d,
{
    assert(p.push(Set::empty()).drop_last() =~= p);
    assert(d.push(Map::empty()).drop_last() =~= d);
}

/// An identifier marked in the current scope is a prompt identifier.
pub proof fn law_marked_is_prompt(p: Seq<Set<Seq<char>>>, k: Seq<char>)
    requires
        p.len() >= 1,
    ensures
        in_any_scope(p.update(p.len() - 1, p.last().insert(k)), k),
{
    let q = p.update(p.len() - 1, p.last().insert(k));
    assert(q[p.len() - 1].contains(k));
}

/// Marks made in an inner scope are forgotten when it is left: an
/// identifier is a prompt identifier after leaving a scope exactly when an
/// outer scope holds it.
pub proof fn law_exit_forgets_inner_marks(p: Seq<Set<Seq<char>>>, k: Seq<char>)
    requires
        p.len() > 1,
    ensures
        in_any_scope(p.drop_last(), k) <==> exists|i: int| 0 <= i < p.len() - 1 && (#[trigger] p[i]).contains(k),
{
    if in_any_scope(p.drop_last(), k) {
        let i = choose|i: int| 0 <= i < p.drop_last().len() && (#[trigger] p.drop_last()[i]).contains(k);
        assert(p[i] == p.drop_last()[i]);
    }
    if exists|i: int| 0 <= i < p.len() - 1 && (#[trigger] p[i]).contains(k) {
        let i = choose|i: int| 0 <= i < p.len() - 1 && (#[trigger] p[i]).contains(k);
        assert(p.drop_last()[i] == p[i]);
    }
}

/// Annotations stored for an identifier are found for it again.
pub proof fn law_stored_annotations_found(
    d: Seq<Map<Seq<char>, Seq<AnnotationModel>>>,
    k: Seq<char>,
    a: Seq<AnnotationModel>,
)
    requires
        d.len() >= 1,
    ensures
        innermost_lookup(d.update(d.len() - 1, d.last().insert(k, a)), k, d.len() as int) == Some(a),
{
}

} // verus!

verus! {

/// A call on a `ScopeTracker` that changes its scope stacks.
pub enum ScopeOp {
    Enter,
    Exit,
    Mark(Seq<char>),
    Store(Seq<char>, Seq<AnnotationModel>),
}

/// The prompt-identifier and definition-annotation stacks of a tracker.
pub type ScopeStacks = (Seq<Set<Seq<char>>>, Seq<Map<Seq<char>, Seq<AnnotationModel>>>);

/// The stacks after one call, as the call's contract states it.
pub open spec fn apply_op(st: ScopeStacks, op: ScopeOp) -> ScopeStacks {
    let (p, d) = st;
    match op {
        ScopeOp::Enter => (p.push(Set::empty()), d.push(Map::empty())),
        ScopeOp::Exit => (
            if p.len() > 1 {
                p.drop_last()
            } else {
                p
            },
            if d.len() > 1 {
                d.drop_last()
            } else {
                d
            },
        ),
        ScopeOp::Mark(k) => (p.update(p.len() - 1, p.last().insert(k)), d),
        ScopeOp::Store(k, a) => (p, d.update(d.len() - 1, d.last().insert(k, a))),
    }
}

/// The stacks after the calls `ops`, in order.
pub open spec fn apply_ops(st: ScopeStacks, ops: Seq<ScopeOp>) -> ScopeStacks
    decreases ops.len(),
{
    if ops.len() == 0 {
        st
    } else {
        apply_ops(apply_op(st, ops[0]), ops.drop_first())
    }
}

/// How a call changes the nesting: one up for an entry, one down for an exit.
pub open spec fn nesting_step(op: ScopeOp) -> int {
    match op {
        ScopeOp::Enter => 1,
        ScopeOp::Exit => -1,
        _ => 0,
    }
}

/// The nesting after the calls `ops`, started at `k`.
pub open spec fn nesting_after(ops: Seq<ScopeOp>, k: int) -> int
    decreases ops.len(),
{
    if ops.len() == 0 {
        k
    } else {
        nesting_after(ops.drop_first(), k + nesting_step(ops[0]))
    }
}

/// Whether the nesting, started at `k`, never goes below zero during `ops`.
pub open spec fn stays_nested(ops: Seq<ScopeOp>, k: int) -> bool
    decreases ops.len(),
{
    ops.len() == 0 || (k + nesting_step(ops[0]) >= 0 && stays_nested(ops.drop_first(), k + nesting_step(ops[0])))
}

/// Whether every scope that `ops` enters it also leaves, and it leaves none
/// it did not enter.
pub open spec fn balanced(ops: Seq<ScopeOp>) -> bool {
    stays_nested(ops, 0) && nesting_after(ops, 0) == 0
}

proof fn lemma_ops_keep_outer(p: Seq<Set<Seq<char>>>, d: Seq<Map<Seq<char>, Seq<AnnotationModel>>>, st: ScopeStacks, ops: Seq<ScopeOp>, k: int)
    requires
        k >= 0,
        st.0.len() == p.len() + 1 + k,
        st.1.len() == d.len() + 1 + k,
        st.0.subrange(0, p.len() as int) == p,
        st.1.subrange(0, d.len() as int) == d,
        stays_nested(ops, k),
    ensures
        apply_ops(st, ops).0.len() == p.len() + 1 + nesting_after(ops, k),
        apply_ops(st, ops).1.len() == d.len() + 1 + nesting_after(ops, k),
        apply_ops(st, ops).0.subrange(0, p.len() as int) == p,
        apply_ops(st, ops).1.subrange(0, d.len() as int) == d,
        nesting_after(ops, k) >= 0,
    decreases ops.len(),
{
    if ops.len() > 0 {
        let st2 = apply_op(st, ops[0]);
        let k2 = k + nesting_step(ops[0]);
        match ops[0] {
            ScopeOp::Enter => {
                assert(st2.0.subrange(0, p.len() as int) =~= st.0.subrange(0, p.len() as int));
                assert(st2.1.subrange(0, d.len() as int) =~= st.1.subrange(0, d.len() as int));
            },
            ScopeOp::Exit => {
                assert(st2.0.subrange(0, p.len() as int) =~= st.0.subrange(0, p.len() as int));
                assert(st2.1.subrange(0, d.len() as int) =~= st.1.subrange(0, d.len() as int));
            },
            ScopeOp::Mark(x) => {
                assert(st2.0.subrange(0, p.len() as int) =~= st.0.subrange(0, p.len() as int));
            },
            ScopeOp::Store(x, a) => {
                assert(st2.1.subrange(0, d.len() as int) =~= st.1.subrange(0, d.len() as int));
            },
        }
        lemma_ops_keep_outer(p, d, st2, ops.drop_first(), k2);
    }
}

/// Leaving a scope undoes everything done since entering it: after
/// `enter_scope`, any marks, stored annotations and balanced entries and
/// exits, and `exit_scope`, the prompt identifiers and the definition
/// annotations of every scope are as they were before.
pub proof fn law_scope_exit_restores(
    p: Seq<Set<Seq<char>>>,
    d: Seq<Map<Seq<char>, Seq<AnnotationModel>>>,
    ops: Seq<ScopeOp>,
)
    requires
        p.len() >= 1,
        d.len() >= 1,
        balanced(ops),
    ensures
        apply_op(apply_ops(apply_op((p, d), ScopeOp::Enter), ops), ScopeOp::Exit) == (p, d),
        forall|x: Seq<char>|
            in_any_scope(#[trigger] apply_op(apply_ops(apply_op((p, d), ScopeOp::Enter), ops), ScopeOp::Exit).0, x)
                == in_any_scope(p, x),
        forall|x: Seq<char>|
            innermost_lookup(#[trigger] apply_op(apply_ops(apply_op((p, d), ScopeOp::Enter), ops), ScopeOp::Exit).1, x, d.len() as int)
                == innermost_lookup(d, x, d.len() as int),
{
    let st = apply_op((p, d), ScopeOp::Enter);
    assert(st.0.subrange(0, p.len() as int) =~= p);
    assert(st.1.subrange(0, d.len() as int) =~= d);
    lemma_ops_keep_outer(p, d, st, ops, 0);
    let r = apply_ops(st, ops);
    assert(r.0.drop_last() =~= p);
    assert(r.1.drop_last() =~= d);
}

} // verus!
