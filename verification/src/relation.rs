//! Order relations on elements, as the proofs about the sorting network see them.
//!
//! A relation is a ghost predicate `le(a, b)`, read "`a` may stand before `b`".

use vstd::prelude::*;
use vstd::relations::*;

verus! {

/// `le` is a total preorder: any two elements are comparable, and the relation is
/// transitive. Distinct elements may be equivalent.
pub open spec fn is_total_preorder<T>(le: spec_fn(T, T) -> bool) -> bool {
    &&& strongly_connected(le)
    &&& transitive(le)
}

/// The relation `le` read in the given direction: `le` itself when `forward`,
/// its converse otherwise.
pub open spec fn directed<T>(le: spec_fn(T, T) -> bool, forward: bool) -> spec_fn(T, T) -> bool {
    |a: T, b: T|
        if forward {
            le(a, b)
        } else {
            le(b, a)
        }
}

/// `r` is the converse of `le`.
pub open spec fn is_converse<T>(r: spec_fn(T, T) -> bool, le: spec_fn(T, T) -> bool) -> bool {
    forall|a: T, b: T| #[trigger] r(a, b) == le(b, a)
}

/// Under a total preorder every element may stand before itself.
pub proof fn lemma_total_preorder_is_reflexive<T>(le: spec_fn(T, T) -> bool)
    requires
        is_total_preorder(le),
    ensures
        reflexive(le),
{
    assert forall|x: T| #[trigger] le(x, x) by {
        assert(le(x, x) || le(x, x));
    }
}

/// The converse of a total preorder is a total preorder.
pub proof fn lemma_converse_is_total_preorder<T>(r: spec_fn(T, T) -> bool, le: spec_fn(T, T) -> bool)
    requires
        is_total_preorder(le),
        is_converse(r, le),
    ensures
        is_total_preorder(r),
{
    assert forall|x: T, y: T| #[trigger] r(x, y) || #[trigger] r(y, x) by {
        assert(le(x, y) || le(y, x));
    }
    assert forall|x: T, y: T, z: T| #[trigger] r(x, y) && #[trigger] r(y, z) implies r(x, z) by {
        assert(le(z, y) && le(y, x));
    }
}

/// A total preorder read in either direction is a total preorder.
pub proof fn lemma_directed_is_total_preorder<T>(le: spec_fn(T, T) -> bool, forward: bool)
    requires
        is_total_preorder(le),
    ensures
        is_total_preorder(directed(le, forward)),
{
    let d = directed(le, forward);
    if forward {
        assert forall|x: T, y: T| #[trigger] d(x, y) || #[trigger] d(y, x) by {
            assert(le(x, y) || le(y, x));
        }
        assert forall|x: T, y: T, z: T| #[trigger] d(x, y) && #[trigger] d(y, z) implies d(x, z) by {
            assert(le(x, y) && le(y, z));
        }
    } else {
        lemma_converse_is_total_preorder(d, le);
    }
}

} // verus!
