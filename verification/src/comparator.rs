//! Comparators: executable functions that tell which of two elements comes first.
//!
//! A contract cannot speak of what a function value returns, only of what it may
//! return. So the sort is described against a *comparison*, a mathematical function
//! `c(a, b)` that the comparator computes.

use vstd::prelude::*;
use std::cmp::Ordering;
use vstd::relations::sorted_by;
use crate::length::is_valid_length;
use crate::network::agrees;
use crate::network::bitonic_sorted;
use crate::network::lemma_sorted_input_is_kept;
use crate::relation::directed;
use crate::relation::is_total_preorder;

verus! {

/// The comparator may be called on any two elements.
pub open spec fn is_callable<T, F: Fn(&T, &T) -> Ordering>(comparator: &F) -> bool {
    forall|a: &T, b: &T| #[trigger] comparator.requires((a, b))
}

/// Whatever the comparator returns for `a` and `b` is `c(a, b)`.
pub open spec fn computes<T, F: Fn(&T, &T) -> Ordering>(comparator: &F, c: spec_fn(T, T) -> Ordering) -> bool {
    forall|a: &T, b: &T, o: Ordering| #[trigger] comparator.ensures((a, b), o) ==> o == c(*a, *b)
}

/// The outcome of a comparison with the two elements in the other order.
pub open spec fn reversed(o: Ordering) -> Ordering {
    match o {
        Ordering::Less => Ordering::Greater,
        Ordering::Equal => Ordering::Equal,
        Ordering::Greater => Ordering::Less,
    }
}

/// The outcome on which a pair is exchanged: `Greater` going forward, `Less` going
/// backward.
pub open spec fn swap_condition(forward: bool) -> Ordering {
    if forward {
        Ordering::Greater
    } else {
        Ordering::Less
    }
}

/// When two elements change places under the comparison `c`.
pub open spec fn rule_of<T>(c: spec_fn(T, T) -> Ordering) -> spec_fn(bool, T, T) -> bool {
    |forward: bool, a: T, b: T| c(a, b) == swap_condition(forward)
}

/// `a` may stand before `b` under the comparison `c`: it is not greater.
pub open spec fn le_of<T>(c: spec_fn(T, T) -> Ordering) -> spec_fn(T, T) -> bool {
    |a: T, b: T| c(a, b) != Ordering::Greater
}

/// `c` is a total order in the sense of `Ord`: comparing in the other order gives the
/// reversed outcome, and "not greater" is transitive.
pub open spec fn is_total_order<T>(c: spec_fn(T, T) -> Ordering) -> bool {
    &&& forall|a: T, b: T| #[trigger] c(a, b) == reversed(c(b, a))
    &&& forall|x: T, y: T, z: T|
        #[trigger] c(x, y) != Ordering::Greater && #[trigger] c(y, z) != Ordering::Greater ==> c(x, z)
            != Ordering::Greater
}

/// A total order with its arguments exchanged is a total order.
pub proof fn lemma_exchanged_arguments<T>(c: spec_fn(T, T) -> Ordering, back: spec_fn(T, T) -> Ordering)
    requires
        is_total_order(c),
        forall|a: T, b: T| #[trigger] back(a, b) == c(b, a),
    ensures
        is_total_order(back),
{
    assert forall|a: T, b: T| #[trigger] back(a, b) == reversed(back(b, a)) by {
        assert(c(b, a) == reversed(c(a, b)));
    }
    assert forall|x: T, y: T, z: T|
        #[trigger] back(x, y) != Ordering::Greater && #[trigger] back(y, z) != Ordering::Greater implies back(x, z)
            != Ordering::Greater by {
        assert(c(z, y) != Ordering::Greater && c(y, x) != Ordering::Greater);
    }
}

/// Under a total order, "not greater" is a total preorder and exchanging on the swap
/// condition follows it.
pub proof fn lemma_total_order_rules<T>(c: spec_fn(T, T) -> Ordering)
    requires
        is_total_order(c),
    ensures
        is_total_preorder(le_of(c)),
        agrees(rule_of(c), le_of(c)),
{
    let le = le_of(c);
    let rule = rule_of(c);
    assert forall|x: T, y: T| #[trigger] le(x, y) || #[trigger] le(y, x) by {
        assert(c(x, y) == reversed(c(y, x)));
    }
    assert forall|x: T, y: T, z: T| #[trigger] le(x, y) && #[trigger] le(y, z) implies le(x, z) by {
        assert(c(x, y) != Ordering::Greater && c(y, z) != Ordering::Greater);
    }
    assert forall|forward: bool, a: T, b: T|
        if #[trigger] rule(forward, a, b) {
            directed(le, forward)(b, a)
        } else {
            directed(le, forward)(a, b)
        } by {
        assert(c(a, b) == reversed(c(b, a)));
    }
}

/// Sorting by a total order keeps a sequence that is already sorted by it, provided
/// that the comparison finds only identical elements equal.
pub proof fn lemma_sorted_input_is_kept_by_comparison<T>(s: Seq<T>, c: spec_fn(T, T) -> Ordering)
    requires
        is_total_order(c),
        forall|a: T, b: T| #[trigger] c(a, b) == Ordering::Equal ==> a == b,
        is_valid_length(s.len()),
        sorted_by(s, le_of(c)),
    ensures
        bitonic_sorted(s, rule_of(c), true) == s,
{
    let le = le_of(c);
    lemma_total_order_rules(c);
    assert forall|x: T, y: T| #[trigger] le(x, y) && #[trigger] le(y, x) implies x == y by {
        assert(c(x, y) == reversed(c(y, x)));
    }
    assert forall|i: int, j: int| 0 <= i < j < s.len() implies #[trigger] directed(le, true)(s[i], s[j]) by {
        assert(le(s[i], s[j]));
    }
    lemma_sorted_input_is_kept(s, rule_of(c), true, le);
}

} // verus!
