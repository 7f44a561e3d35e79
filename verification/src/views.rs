//! How the content of a vector or a queue follows the container as it
//! grows.

use vstd::prelude::*;
use std::collections::VecDeque;

verus! {

/// Whether `content` holds the content of each of `items`, in its place.
pub open spec fn holds_content<T: DeepView>(items: Seq<T>, content: Seq<T::V>) -> bool {
    &&& content.len() == items.len()
    &&& forall|j: int| 0 <= j < items.len() ==> content[j] == (#[trigger] items[j]).deep_view()
}

/// The content of a sequence with one more item at its end is the content
/// of the sequence with that item's content at its end.
pub proof fn lemma_content_push<T: DeepView>(
    items: Seq<T>,
    content: Seq<T::V>,
    added: T,
    grown: Seq<T::V>,
)
    requires
        holds_content(items, content),
        holds_content(items.push(added), grown),
    ensures
        grown == content.push(added.deep_view()),
{
    let longer = items.push(added);
    assert forall|j: int| 0 <= j < grown.len() implies grown[j] == content.push(
        added.deep_view(),
    )[j] by {
        assert(grown[j] == longer[j].deep_view());
        if j < items.len() {
            assert(longer[j] == items[j]);
        }
    }
    assert(grown =~= content.push(added.deep_view()));
}

/// The content of a vector grows as the vector does.
pub proof fn lemma_deep_view_push<T: DeepView>(before: Vec<T>, after: Vec<T>, added: T)
    requires
        after@ == before@.push(added),
    ensures
        after.deep_view() == before.deep_view().push(added.deep_view()),
{
    lemma_content_push(before@, before.deep_view(), added, after.deep_view());
}

/// The content of a queue grows as the queue does at its back.
pub proof fn lemma_deep_view_push_back<T: DeepView>(
    before: VecDeque<T>,
    after: VecDeque<T>,
    added: T,
)
    requires
        after@ == before@.push(added),
    ensures
        after.deep_view() == before.deep_view().push(added.deep_view()),
{
    lemma_content_push(before@, before.deep_view(), added, after.deep_view());
}

} // verus!
