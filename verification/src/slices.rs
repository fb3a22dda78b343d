//! What the sort needs of slices beyond what the verifier's library states.

use vstd::prelude::*;

verus! {

/// `<[V]>::swap`: exchanges the elements at `a` and `b` and leaves the rest as it is.
/// Both positions have to be in bounds; with `a == b` nothing changes.
pub assume_specification<V>[ <[V]>::swap ](slice: &mut [V], a: usize, b: usize)
    requires
        a < old(slice)@.len(),
        b < old(slice)@.len(),
    ensures
        final(slice)@ == old(slice)@.update(a as int, old(slice)@[b as int]).update(b as int, old(slice)@[a as int]),
;

} // verus!
