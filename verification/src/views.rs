//! Lemmas relating the deep view of a vector to the vector operations the
//! library performs.

use vstd::prelude::*;

verus! {

/// Pushing onto a vector pushes the element's view onto the deep view.
pub proof fn lemma_deep_view_push<T: DeepView>(v1: Vec<T>, v2: Vec<T>, x: T)
    requires
        v2@ == v1@.push(x),
    ensures
        v2.deep_view() == v1.deep_view().push(x.deep_view()),
{
    assert(v2.deep_view() =~= v1.deep_view().push(x.deep_view()));
}

/// A vector that grew at the back by elements with the given views has the
/// deep view of the old vector followed by those views.
pub proof fn lemma_deep_view_extend<T: DeepView>(pre: Vec<T>, post: Vec<T>, added: Seq<T::V>)
    requires
        post@.len() == pre@.len() + added.len(),
        forall|k: int| 0 <= k < pre@.len() ==> post@[k] == pre@[k],
        forall|k: int|
            0 <= k < added.len() ==> (#[trigger] post@[pre@.len() + k]).deep_view() == added[k],
    ensures
        post.deep_view() == pre.deep_view() + added,
{
    assert forall|j: int| 0 <= j < post@.len() implies post.deep_view()[j] == (pre.deep_view()
        + added)[j] by {
        if j < pre@.len() {
            assert(post@[j] == pre@[j]);
        } else {
            let k = j - pre@.len();
            assert(post@[pre@.len() + k].deep_view() == added[k]);
        }
    }
    assert(post.deep_view() =~= pre.deep_view() + added);
}

/// Concatenating two vectors concatenates their deep views.
pub proof fn lemma_deep_view_concat<T: DeepView>(v1: Vec<T>, v2: Vec<T>, v3: Vec<T>)
    requires
        v3@ == v1@ + v2@,
    ensures
        v3.deep_view() == v1.deep_view() + v2.deep_view(),
{
    assert(v3.deep_view() =~= v1.deep_view() + v2.deep_view());
}

} // verus!
