use vstd::prelude::*;

verus! {

/// The deep view of a string vector indexes to the view of each string.
pub broadcast proof fn lemma_segments_deep_view(v: Vec<String>, i: int)
    requires
        0 <= i < v@.len(),
    ensures
        #[trigger] v.deep_view()[i] == v@[i]@,
        v.deep_view().len() == v@.len(),
{
}

/// The deep view of a vector of character vectors indexes to each view.
pub broadcast proof fn lemma_charvecs_deep_view(v: Vec<Vec<char>>, i: int)
    requires
        0 <= i < v@.len(),
    ensures
        #[trigger] v.deep_view()[i] == v@[i]@,
        v.deep_view().len() == v@.len(),
{
}

} // verus!
