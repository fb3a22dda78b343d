//! The network on any element type with an order of its own: the length is checked
//! first, and the direction is given as a [`SortOrder`].

use vstd::prelude::*;
use vstd::relations::sorted_by;
use vstd::seq_lib::lemma_multiset_commutative;
use vstd::std_specs::cmp::PartialOrdSpec;
use crate::length::is_valid_length;
use crate::length::length_error;
use crate::length::length_error_text;
use crate::length::valid_length;
use crate::natural::has_natural_order;
use crate::natural::lemma_natural_rule_agrees;
use crate::natural::natural_le;
use crate::natural::natural_rule;
use crate::network::bitonic_sorted;
use crate::network::exchanged;
use crate::network::exchanged_upto;
use crate::network::lemma_bitonic_sorted_is_sorted;
use crate::network::lemma_swap_permutes;
use crate::network::merged;
use crate::relation::directed;
use crate::SortOrder;

verus! {

/// Sorts `x` in place in the given order, if its length is a power of two or zero.
///
/// On any other length nothing is touched and the error names the length. On a valid
/// length the elements are rearranged: where `<` on the element type obeys
/// `partial_cmp_spec`, the result is the network's, and where that order is moreover a
/// total preorder, the result is in order.
pub fn sort<T: Ord>(x: &mut [T], order: &SortOrder) -> (r: Result<(), String>)
    ensures
        r is Ok <==> is_valid_length(old(x)@.len()),
        r is Err ==> r->Err_0@ == length_error_text(old(x)@.len()) && final(x)@ == old(x)@,
        final(x)@.len() == old(x)@.len(),
        final(x)@.to_multiset() == old(x)@.to_multiset(),
        r is Ok && T::obeys_partial_cmp_spec() ==> final(x)@ == bitonic_sorted(
            old(x)@,
            natural_rule::<T>(),
            order.is_ascending(),
        ),
        r is Ok && has_natural_order::<T>() ==> sorted_by(
            final(x)@,
            directed(natural_le::<T>(), order.is_ascending()),
        ),
{
    if valid_length(x.len()) {
        match *order {
            SortOrder::Ascending => do_sort(x, true),
            SortOrder::Descending => do_sort(x, false),
        };
        Ok(())
    } else {
        Err(length_error(x.len()))
    }
}

fn do_sort<T: Ord>(x: &mut [T], up: bool)
    ensures
        final(x)@.len() == old(x)@.len(),
        final(x)@.to_multiset() == old(x)@.to_multiset(),
        T::obeys_partial_cmp_spec() ==> final(x)@ == bitonic_sorted(old(x)@, natural_rule::<T>(), up),
        has_natural_order::<T>() && is_valid_length(old(x)@.len()) ==> sorted_by(
            final(x)@,
            directed(natural_le::<T>(), up),
        ),
    decreases old(x)@.len(),
{
    if x.len() > 1 {
        let mid_point = x.len() / 2;
        let (first, second) = x.split_at_mut(mid_point);
        proof {
            assert(first@ + second@ =~= old(x)@);
            lemma_multiset_commutative(first@, second@);
        }
        do_sort(first, true);
        do_sort(second, false);
        proof {
            lemma_multiset_commutative(first@, second@);
        }
        sub_sort(x, up);
    }
    proof {
        if has_natural_order::<T>() && is_valid_length(old(x)@.len()) {
            lemma_natural_rule_agrees::<T>();
            lemma_bitonic_sorted_is_sorted(old(x)@, natural_rule::<T>(), up, natural_le::<T>());
        }
    }
}

fn sub_sort<T: Ord>(x: &mut [T], up: bool)
    ensures
        final(x)@.len() == old(x)@.len(),
        final(x)@.to_multiset() == old(x)@.to_multiset(),
        T::obeys_partial_cmp_spec() ==> final(x)@ == merged(old(x)@, natural_rule::<T>(), up),
    decreases old(x)@.len(),
{
    if x.len() > 1 {
        compare_and_swap(x, up);
        let mid_point = x.len() / 2;
        let ghost passed = x@;
        let (first, second) = x.split_at_mut(mid_point);
        proof {
            assert(first@ + second@ =~= passed);
            lemma_multiset_commutative(first@, second@);
        }
        sub_sort(first, up);
        sub_sort(second, up);
        proof {
            lemma_multiset_commutative(first@, second@);
        }
    }
}

fn compare_and_swap<T: Ord>(x: &mut [T], up: bool)
    ensures
        final(x)@.len() == old(x)@.len(),
        final(x)@.to_multiset() == old(x)@.to_multiset(),
        T::obeys_partial_cmp_spec() ==> final(x)@ == exchanged(old(x)@, natural_rule::<T>(), up),
{
    let len = x.len();
    let mid_point = len / 2;
    let mut i: usize = 0;
    let ghost mut done: int = 0;
    assert(x@ =~= exchanged_upto(old(x)@, natural_rule::<T>(), up, 0));
    while i < mid_point
        invariant
            done == i,
            i <= mid_point,
            mid_point == len / 2,
            x@.len() == len,
            old(x)@.len() == len,
            x@.to_multiset() == old(x)@.to_multiset(),
            T::obeys_partial_cmp_spec() ==> x@ == exchanged_upto(old(x)@, natural_rule::<T>(), up, done),
        decreases mid_point - i,
    {
        let ghost before = x@;
        if (x[mid_point + i] < x[i]) == up {
            x.swap(i, mid_point + i);
            proof {
                lemma_swap_permutes(before, done, mid_point + done);
            }
        }
        i += 1;
        proof {
            done = done + 1;
            if T::obeys_partial_cmp_spec() {
                assert(x@ =~= exchanged_upto(old(x)@, natural_rule::<T>(), up, done));
            }
        }
    }
}

} // verus!
