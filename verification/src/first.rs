//! The network on 32-bit unsigned integers, direction given as a flag.

use vstd::prelude::*;
use crate::network::bitonic_sorted;
use crate::network::exchanged;
use crate::network::exchanged_upto;
use crate::network::merged;
use crate::network::agrees;
use crate::network::lemma_bitonic_sorted_is_sorted;
use crate::network::lemma_bitonic_sorted_len;
use crate::network::lemma_bitonic_sorted_permutes;
use crate::network::lemma_sorted_input_is_kept;
use crate::length::is_valid_length;
use crate::relation::directed;
use crate::relation::is_total_preorder;

verus! {

/// When two integers change places: `a`, standing before `b`, is misplaced going up
/// if `b` is the smaller, and going down if it is not.
pub open spec fn exchange_rule() -> spec_fn(bool, u32, u32) -> bool {
    |up: bool, a: u32, b: u32| (b < a) == up
}

/// `s` is non-decreasing (`up`) or non-increasing (`!up`).
pub open spec fn in_order(s: Seq<u32>, up: bool) -> bool {
    forall|i: int, j: int|
        0 <= i < j < s.len() ==> if up {
            s[i] <= s[j]
        } else {
            s[i] >= s[j]
        }
}

/// Sorts `x` in place with the bitonic network, upwards if `up` and downwards if not.
///
/// The result is the network's rearrangement of `x` whatever the length; it is in
/// order where the length is a power of two (or zero).
pub fn sort(x: &mut [u32], up: bool)
    ensures
        final(x)@ == bitonic_sorted(old(x)@, exchange_rule(), up),
        final(x)@.len() == old(x)@.len(),
        final(x)@.to_multiset() == old(x)@.to_multiset(),
        is_valid_length(old(x)@.len()) ==> in_order(final(x)@, up),
    decreases old(x)@.len(),
{
    if x.len() > 1 {
        let mid_point = x.len() / 2;
        let (first, second) = x.split_at_mut(mid_point);
        sort(first, true);
        sort(second, false);
        sub_sort(x, up);
    }
    proof {
        lemma_bitonic_sorted_len(old(x)@, exchange_rule(), up);
        lemma_bitonic_sorted_permutes(old(x)@, exchange_rule(), up);
        if is_valid_length(old(x)@.len()) {
            lemma_network_orders(old(x)@, up);
        }
    }
}

/// On a valid length the network puts integers in order.
pub proof fn lemma_network_orders(s: Seq<u32>, up: bool)
    requires
        is_valid_length(s.len()),
    ensures
        in_order(bitonic_sorted(s, exchange_rule(), up), up),
{
    let le = |a: u32, b: u32| a <= b;
    assert(is_total_preorder(le));
    assert(agrees(exchange_rule(), le));
    lemma_bitonic_sorted_is_sorted(s, exchange_rule(), up, le);
    let t = bitonic_sorted(s, exchange_rule(), up);
    assert forall|i: int, j: int| 0 <= i < j < t.len() implies if up {
        t[i] <= t[j]
    } else {
        t[i] >= t[j]
    } by {
        assert(directed(le, up)(t[i], t[j]));
    }
}

/// Integers that are already in order come out of the network as they went in.
pub proof fn lemma_network_keeps_order(s: Seq<u32>, up: bool)
    requires
        is_valid_length(s.len()),
        in_order(s, up),
    ensures
        bitonic_sorted(s, exchange_rule(), up) == s,
{
    let le = |a: u32, b: u32| a <= b;
    assert(is_total_preorder(le));
    assert(vstd::relations::antisymmetric(le));
    assert(agrees(exchange_rule(), le));
    assert forall|i: int, j: int| 0 <= i < j < s.len() implies #[trigger] directed(le, up)(s[i], s[j]) by {
        assert(if up {
            s[i] <= s[j]
        } else {
            s[i] >= s[j]
        });
    }
    lemma_sorted_input_is_kept(s, exchange_rule(), up, le);
}

fn sub_sort(x: &mut [u32], up: bool)
    ensures
        final(x)@ == merged(old(x)@, exchange_rule(), up),
    decreases old(x)@.len(),
{
    if x.len() > 1 {
        compare_and_swap(x, up);
        let mid_point = x.len() / 2;
        let (first, second) = x.split_at_mut(mid_point);
        sub_sort(first, up);
        sub_sort(second, up);
    }
}

fn compare_and_swap(x: &mut [u32], up: bool)
    ensures
        final(x)@ == exchanged(old(x)@, exchange_rule(), up),
{
    let len = x.len();
    let mid_point = len / 2;
    let mut i: usize = 0;
    let ghost mut done: int = 0;
    assert(x@ =~= exchanged_upto(old(x)@, exchange_rule(), up, 0));
    while i < mid_point
        invariant
            done == i,
            i <= mid_point,
            mid_point == len / 2,
            x@.len() == len,
            old(x)@.len() == len,
            x@ == exchanged_upto(old(x)@, exchange_rule(), up, done),
        decreases mid_point - i,
    {
        if (x[mid_point + i] < x[i]) == up {
            x.swap(i, mid_point + i);
        }
        i += 1;
        proof {
            done = done + 1;
            assert(x@ =~= exchanged_upto(old(x)@, exchange_rule(), up, done));
        }
    }
}

} // verus!
