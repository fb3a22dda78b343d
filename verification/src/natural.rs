//! The order that an element type brings with it, as the network uses it.

use vstd::prelude::*;
use vstd::std_specs::cmp::PartialOrdSpec;
use std::cmp::Ordering;
use vstd::relations::sorted_by;
use crate::length::is_valid_length;
use crate::network::agrees;
use crate::network::bitonic_sorted;
use crate::network::lemma_sorted_input_is_kept;
use crate::relation::directed;
use crate::relation::is_total_preorder;

verus! {

/// `a < b` in the element type's own order.
pub open spec fn is_less<T: Ord>(a: T, b: T) -> bool {
    a.partial_cmp_spec(&b) == Some(Ordering::Less)
}

/// `a` may stand before `b` going up: `b` is not less than `a`.
pub open spec fn natural_le<T: Ord>() -> spec_fn(T, T) -> bool {
    |a: T, b: T| !is_less(b, a)
}

/// When two elements change places: `a`, standing before `b`, is misplaced going up
/// if `b < a`, and going down if not.
pub open spec fn natural_rule<T: Ord>() -> spec_fn(bool, T, T) -> bool {
    |up: bool, a: T, b: T| is_less(b, a) == up
}

/// The type's `<` obeys `partial_cmp_spec`, and "not greater" is a total preorder.
pub open spec fn has_natural_order<T: Ord>() -> bool {
    &&& T::obeys_partial_cmp_spec()
    &&& is_total_preorder(natural_le::<T>())
}

/// Exchanging by `<` follows the order "not greater".
pub proof fn lemma_natural_rule_agrees<T: Ord>()
    requires
        is_total_preorder(natural_le::<T>()),
    ensures
        agrees(natural_rule::<T>(), natural_le::<T>()),
{
    let le = natural_le::<T>();
    let rule = natural_rule::<T>();
    assert forall|forward: bool, a: T, b: T|
        if #[trigger] rule(forward, a, b) {
            directed(le, forward)(b, a)
        } else {
            directed(le, forward)(a, b)
        } by {
        assert(le(a, b) || le(b, a));
    }
}

/// Elements that are already in their own order come out of the network as they went
/// in, provided that of two different elements one is less than the other.
pub proof fn lemma_natural_order_is_kept<T: Ord>(s: Seq<T>, up: bool)
    requires
        is_total_preorder(natural_le::<T>()),
        forall|a: T, b: T| a != b ==> #[trigger] is_less(a, b) || is_less(b, a),
        is_valid_length(s.len()),
        sorted_by(s, directed(natural_le::<T>(), up)),
    ensures
        bitonic_sorted(s, natural_rule::<T>(), up) == s,
{
    let le = natural_le::<T>();
    lemma_natural_rule_agrees::<T>();
    assert forall|x: T, y: T| #[trigger] le(x, y) && #[trigger] le(y, x) implies x == y by {
        if x != y {
            assert(is_less(x, y) || is_less(y, x));
        }
    }
    lemma_sorted_input_is_kept(s, natural_rule::<T>(), up, le);
}

} // verus!
