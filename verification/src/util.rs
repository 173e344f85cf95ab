//! Small view and cloning helpers shared by the model-building modules.

use vstd::prelude::*;

verus! {

/// The sequence of views of a vector's elements.
pub open spec fn seq_views<T: View>(v: Vec<T>) -> Seq<T::V> {
    Seq::new(v@.len(), |i: int| v@[i]@)
}

/// Clone a vector of strings, element by element, preserving the abstract
/// value exactly.
pub fn clone_lines(v: &Vec<String>) -> (r: Vec<String>)
    ensures
        r@ == v@,
{
    let mut r: Vec<String> = Vec::new();
    let mut i: usize = 0;
    while i < v.len()
        invariant
            0 <= i <= v.len(),
            r@ =~= v@.subrange(0, i as int),
        decreases v.len() - i,
    {
        r.push(v[i].clone());
        i = i + 1;
    }
    assert(r@ =~= v@);
    r
}

} // verus!
