//! Views of options and of lists, element by element.

use vstd::prelude::*;

verus! {

/// The view of what an option holds.
pub open spec fn viewed<T: View>(o: Option<T>) -> Option<T::V> {
    match o {
        Some(x) => Some(x.view()),
        None => None,
    }
}

/// The views of a list's elements.
pub open spec fn views<T: View>(list: Seq<T>) -> Seq<T::V> {
    Seq::new(list.len(), |i: int| list[i].view())
}

/// Appending to a list appends to its views.
pub broadcast proof fn lemma_views_push<T: View>(list: Seq<T>, x: T)
    ensures
        #[trigger] views(list.push(x)) == views(list).push(x.view()),
{
    assert(views(list.push(x)) =~= views(list).push(x.view()));
}

} // verus!
