//! Utilities
use vstd::prelude::*;

pub mod bitset;
pub mod stackvec;
pub mod text;

verus! {

/// Extends `v` with default values until it contains `index`: each element
/// added is a value that `T::default` returns.
pub fn extend_vec_to_index<T: Default>(v: &mut Vec<T>, index: usize)
    requires
        index < usize::MAX,
    ensures
        final(v)@.len() == if old(v)@.len() <= index {
            index + 1
        } else {
            old(v)@.len() as int
        },
        forall|i: int| 0 <= i < old(v)@.len() ==> #[trigger] final(v)@[i] == old(v)@[i],
        forall|i: int| old(v)@.len() <= i < final(v)@.len() ==> call_ensures(T::default, (), #[trigger] final(v)@[i]),
{
    let ghost v0 = v@;
    while v.len() <= index
        invariant
            v0.len() <= v@.len() <= index + 1 || v@.len() == v0.len(),
            v@.len() >= v0.len(),
            v0.len() <= index ==> v@.len() <= index + 1,
            forall|i: int| 0 <= i < v0.len() ==> #[trigger] v@[i] == v0[i],
            forall|i: int| v0.len() <= i < v@.len() ==> call_ensures(T::default, (), #[trigger] v@[i]),
        decreases index + 1 - v@.len(),
    {
        let d = T::default();
        v.push(d);
    }
}

} // verus!
