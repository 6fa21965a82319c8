//! Facts about the views of character vectors.
use vstd::prelude::*;

verus! {

/// A vector of characters has the same deep view as its view.
pub broadcast proof fn lemma_char_vec_deep_view(w: Vec<char>)
    ensures
        #[trigger] w.deep_view() == w@,
{
    assert(w.deep_view() =~= w@);
}

} // verus!
