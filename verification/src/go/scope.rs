//! Scope information for Go identifiers.
use crate::identsets::{assoc_get, assoc_insert, assoc_map, list_contains, list_insert, string_set};
use crate::python::scope::in_any_scope;
use crate::types::{annotation_models, duplicate_annotations, AnnotationModel, PromptAnnotation};
use vstd::prelude::*;

verus! {

/// The scope stack after leaving the current scope: the innermost scope is
/// dropped unless it is the global one.
pub open spec fn scopes_after_exit(p: Seq<Set<Seq<char>>>) -> Seq<Set<Seq<char>>> {
    if p.len() > 1 {
        p.drop_last()
    } else {
        p
    }
}

/// Tracks scope information for identifiers.
pub struct ScopeTracker {
    /// Stack of prompt identifier sets (one per scope).
    prompt_idents_stack: Vec<Vec<String>>,
    /// Annotations stored at definition time for annotated variables.
    def_annotations: Vec<(String, Vec<PromptAnnotation>)>,
}

impl ScopeTracker {
    /// The stack holds at least the global scope.
    pub closed spec fn wf(self) -> bool {
        self.prompt_idents_stack@.len() >= 1
    }

    /// The prompt identifiers of each scope, outermost first.
    pub closed spec fn prompt_scopes(self) -> Seq<Set<Seq<char>>> {
        self.prompt_idents_stack@.map_values(|v: Vec<String>| string_set(v@))
    }

    /// The definition-time annotations, shared by all scopes.
    pub closed spec fn defs(self) -> Map<Seq<char>, Seq<AnnotationModel>> {
        assoc_map(self.def_annotations@)
    }

    /// Create a new scope tracker with an initial global scope.
    pub fn new() -> (r: Self)
        ensures
            r.wf(),
            r.prompt_scopes() == seq![Set::<Seq<char>>::empty()],
            r.defs() == Map::<Seq<char>, Seq<AnnotationModel>>::empty(),
    {
        let r = ScopeTracker { prompt_idents_stack: vec![Vec::new()], def_annotations: Vec::new() };
        assert(r.prompt_scopes() =~= seq![Set::<Seq<char>>::empty()]);
        r
    }

    /// Enter a new scope (e.g., function, method).
    pub fn enter_scope(&mut self)
        requires
            old(self).wf(),
        ensures
            final(self).wf(),
            final(self).prompt_scopes() == old(self).prompt_scopes().push(Set::empty()),
            final(self).defs() == old(self).defs(),
    {
        self.prompt_idents_stack.push(Vec::new());
        assert(self.prompt_scopes() =~= old(self).prompt_scopes().push(Set::empty()));
    }

    /// Exit the current scope; the global scope is never removed.
    pub fn exit_scope(&mut self)
        requires
            old(self).wf(),
        ensures
            final(self).wf(),
            final(self).prompt_scopes() == scopes_after_exit(old(self).prompt_scopes()),
            final(self).defs() == old(self).defs(),
    {
        if self.prompt_idents_stack.len() > 1 {
            self.prompt_idents_stack.pop();
        }
        assert(self.prompt_scopes() =~= scopes_after_exit(old(self).prompt_scopes()));
    }

    /// Mark an identifier as a prompt identifier in the current scope.
    pub fn mark_prompt_ident(&mut self, ident: &str)
        requires
            old(self).wf(),
        ensures
            final(self).wf(),
            final(self).prompt_scopes() == old(self).prompt_scopes().update(
                old(self).prompt_scopes().len() - 1,
                old(self).prompt_scopes().last().insert(ident@),
            ),
            final(self).defs() == old(self).defs(),
    {
        let mut scope = self.prompt_idents_stack.pop().unwrap();
        list_insert(&mut scope, ident);
        self.prompt_idents_stack.push(scope);
        assert(self.prompt_scopes() =~= old(self).prompt_scopes().update(
            old(self).prompt_scopes().len() - 1,
            old(self).prompt_scopes().last().insert(ident@),
        ));
    }

    /// Check if an identifier is marked as a prompt identifier in any scope.
    pub fn is_prompt_ident(&self, ident: &str) -> (r: bool)
        ensures
            r == in_any_scope(self.prompt_scopes(), ident@),
    {
        let mut i = self.prompt_idents_stack.len();
        while i > 0
            invariant
                i <= self.prompt_idents_stack@.len(),
                forall|q: int| i <= q < self.prompt_idents_stack@.len() ==> !(#[trigger] self.prompt_scopes()[q]).contains(ident@),
            decreases i,
        {
            if list_contains(&self.prompt_idents_stack[i - 1], ident) {
                assert(self.prompt_scopes()[i - 1].contains(ident@));
                return true;
            }
            i = i - 1;
        }
        false
    }

    /// Store definition-time annotations for an identifier.
    pub fn store_def_annotation(&mut self, ident: &str, annotations: Vec<PromptAnnotation>)
        requires
            old(self).wf(),
        ensures
            final(self).wf(),
            final(self).defs() == old(self).defs().insert(ident@, annotation_models(annotations@)),
            final(self).prompt_scopes() == old(self).prompt_scopes(),
    {
        assoc_insert(&mut self.def_annotations, ident, annotations);
    }

    /// Get stored definition annotations for an identifier.
    pub fn get_def_annotation(&self, ident: &str) -> (r: Option<Vec<PromptAnnotation>>)
        ensures
            r matches Some(a) ==> self.defs().contains_key(ident@) && annotation_models(a@) == self.defs()[ident@],
            r is None ==> !self.defs().contains_key(ident@),
    {
        match assoc_get(&self.def_annotations, ident) {
            Some(a) => Some(duplicate_annotations(a)),
            None => None,
        }
    }
}

/// Leaving a scope just entered gives back the scope stack as it was.
pub proof fn law_exit_undoes_enter(p: Seq<Set<Seq<char>>>)
    requires
        p.len() >= 1,
    ensures
        scopes_after_exit(p.push(Set::empty())) == p,
{
    assert(p.push(Set::empty()).drop_last() =~= p);
}

/// Leaving a scope forgets the marks made in it: afterwards an identifier
/// is a prompt identifier exactly when an enclosing scope holds it.
pub proof fn law_exit_forgets_inner_marks(p: Seq<Set<Seq<char>>>, k: Seq<char>)
    requires
        p.len() > 1,
    ensures
        in_any_scope(scopes_after_exit(p), k) <==> exists|i: int| 0 <= i < p.len() - 1 && (#[trigger] p[i]).contains(k),
{
    crate::python::scope::law_exit_forgets_inner_marks(p, k);
}

/// An identifier marked in the current scope is a prompt identifier.
pub proof fn law_marked_is_prompt(p: Seq<Set<Seq<char>>>, k: Seq<char>)
    requires
        p.len() >= 1,
    ensures
        in_any_scope(p.update(p.len() - 1, p.last().insert(k)), k),
{
    crate::python::scope::law_marked_is_prompt(p, k);
}

} // verus!
