//! Sets of identifiers and maps from identifiers to annotations, held as
//! lists; the later of two entries with the same identifier wins.
use crate::text::text_eq;
use crate::types::{annotation_models, AnnotationModel, PromptAnnotation};
use vstd::prelude::*;

verus! {

/// The identifiers held by a list.
pub open spec fn string_set(v: Seq<String>) -> Set<Seq<char>>
    decreases v.len(),
{
    if v.len() == 0 {
        Set::empty()
    } else {
        string_set(v.drop_last()).insert(v.last()@)
    }
}

/// The map held by an association list; a later entry overrides an earlier one.
pub open spec fn assoc_map(v: Seq<(String, Vec<PromptAnnotation>)>) -> Map<
    Seq<char>,
    Seq<AnnotationModel>,
>
    decreases v.len(),
{
    if v.len() == 0 {
        Map::empty()
    } else {
        assoc_map(v.drop_last()).insert(v.last().0@, annotation_models(v.last().1@))
    }
}

pub proof fn lemma_string_set_contains(v: Seq<String>, k: Seq<char>)
    ensures
        string_set(v).contains(k) <==> exists|i: int| 0 <= i < v.len() && (#[trigger] v[i])@ == k,
    decreases v.len(),
{
    if v.len() > 0 {
        lemma_string_set_contains(v.drop_last(), k);
        if string_set(v).contains(k) && v.last()@ != k {
            let i = choose|i: int| 0 <= i < v.drop_last().len() && (#[trigger] v.drop_last()[i])@ == k;
            assert(v[i] == v.drop_last()[i]);
        }
        if exists|i: int| 0 <= i < v.len() && (#[trigger] v[i])@ == k {
            let i = choose|i: int| 0 <= i < v.len() && (#[trigger] v[i])@ == k;
            if i < v.len() - 1 {
                assert(v.drop_last()[i] == v[i]);
            }
        }
    }
}

/// Whether a list holds the identifier `k`.
pub fn list_contains(v: &Vec<String>, k: &str) -> (r: bool)
    ensures
        r == string_set(v@).contains(k@),
{
    proof {
        lemma_string_set_contains(v@, k@);
    }
    let mut i: usize = 0;
    while i < v.len()
        invariant
            i <= v@.len(),
            forall|j: int| 0 <= j < i ==> (#[trigger] v@[j])@ != k@,
        decreases v@.len() - i,
    {
        if text_eq(v[i].as_str(), k) {
            proof {
                lemma_string_set_contains(v@, k@);
                assert(v@[i as int]@ == k@);
            }
            return true;
        }
        i = i + 1;
    }
    proof {
        lemma_string_set_contains(v@, k@);
    }
    false
}

/// Adds the identifier `k` to a list, unless it is there already.
pub fn list_insert(v: &mut Vec<String>, k: &str)
    ensures
        string_set(final(v)@) == string_set(old(v)@).insert(k@),
{
    if !list_contains(v, k) {
        let s = k.to_owned();
        let ghost before = v@;
        v.push(s);
        assert(v@.drop_last() =~= before);
    } else {
        assert(string_set(v@).insert(k@) =~= string_set(v@));
    }
}

proof fn lemma_assoc_lookup(v: Seq<(String, Vec<PromptAnnotation>)>, k: Seq<char>, j: int)
    requires
        0 <= j <= v.len(),
        forall|q: int| j <= q < v.len() ==> (#[trigger] v[q]).0@ != k,
    ensures
        assoc_map(v).contains_key(k) == assoc_map(v.subrange(0, j)).contains_key(k),
        assoc_map(v)[k] == assoc_map(v.subrange(0, j))[k],
    decreases v.len() - j,
{
    if j < v.len() {
        lemma_assoc_lookup(v.drop_last(), k, j);
        assert(v.drop_last().subrange(0, j) =~= v.subrange(0, j));
    } else {
        assert(v.subrange(0, j) =~= v);
    }
}

/// The annotations that an association list maps `k` to, if any.
pub fn assoc_get<'a>(v: &'a Vec<(String, Vec<PromptAnnotation>)>, k: &str) -> (r: Option<&'a Vec<PromptAnnotation>>)
    ensures
        r matches Some(a) ==> assoc_map(v@).contains_key(k@) && annotation_models(a@) == assoc_map(v@)[k@],
        r is None ==> !assoc_map(v@).contains_key(k@),
{
    let mut j = v.len();
    while j > 0
        invariant
            j <= v@.len(),
            forall|q: int| j <= q < v@.len() ==> (#[trigger] v@[q]).0@ != k@,
        decreases j,
    {
        if text_eq(v[j - 1].0.as_str(), k) {
            proof {
                lemma_assoc_lookup(v@, k@, j as int);
                assert(v@.subrange(0, j as int).drop_last() =~= v@.subrange(0, j - 1));
            }
            return Some(&v[j - 1].1);
        }
        j = j - 1;
    }
    proof {
        lemma_assoc_lookup(v@, k@, 0);
    }
    None
}

/// Maps `k` to `a` in an association list.
pub fn assoc_insert(v: &mut Vec<(String, Vec<PromptAnnotation>)>, k: &str, a: Vec<PromptAnnotation>)
    ensures
        assoc_map(final(v)@) == assoc_map(old(v)@).insert(k@, annotation_models(a@)),
{
    let ghost before = v@;
    let ghost av = a@;
    v.push((k.to_owned(), a));
    assert(v@.drop_last() =~= before);
}

} // verus!
