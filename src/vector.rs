use vstd::prelude::*;

verus! {

/// Replaces the element of `vector` at `loc` with `new`; does nothing when
/// `loc` is beyond the end of `vector`.
pub fn vector_set<'content, 'vec>(vector: &'vec mut Vec<&'content str>, loc: usize, new: &'content str)
    ensures
        loc < old(vector)@.len() ==> final(vector)@ == old(vector)@.update(loc as int, new),
        loc >= old(vector)@.len() ==> final(vector)@ == old(vector)@,
{
    if vector.len() > loc {
        vector.set(loc, new);
    }
}

} // verus!
