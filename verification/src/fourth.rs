//! The network under a comparator, the two halves of a large sequence worked on in
//! parallel.

use vstd::prelude::*;
use vstd::relations::sorted_by;
use vstd::seq_lib::lemma_multiset_commutative;
use vstd::std_specs::cmp::OrdSpec;
use std::cmp::Ordering;
use crate::comparator::computes;
use crate::comparator::is_callable;
use crate::comparator::is_total_order;
use crate::comparator::le_of;
use crate::comparator::lemma_exchanged_arguments;
use crate::comparator::lemma_total_order_rules;
use crate::comparator::rule_of;
use crate::comparator::swap_condition;
use crate::length::is_valid_length;
use crate::length::length_error;
use crate::length::length_error_text;
use crate::length::valid_length;
use crate::network::bitonic_sorted;
use crate::network::exchanged;
use crate::network::exchanged_upto;
use crate::network::lemma_bitonic_sorted_is_sorted;
use crate::network::lemma_swap_permutes;
use crate::network::merged;
use crate::relation::directed;
use crate::SortOrder;

verus! {

/// Halves of at least this many elements are handed to `rayon` as two tasks.
pub const PARALLEL_THRESHOLD: usize = 4096;

/// What one call has to leave behind: the network's result for the whole of it, or the
/// result of the merge step alone.
pub open spec fn task_result<T>(
    s: Seq<T>,
    misplaced: spec_fn(bool, T, T) -> bool,
    merge_only: bool,
    forward: bool,
) -> Seq<T> {
    if merge_only {
        merged(s, misplaced, forward)
    } else {
        bitonic_sorted(s, misplaced, forward)
    }
}

/// `after` is `before` with the task done on it: a rearrangement in any case, and the
/// network's result under every comparison that the comparator computes.
pub open spec fn is_done<T, F: Fn(&T, &T) -> Ordering>(
    before: Seq<T>,
    after: Seq<T>,
    comparator: &F,
    merge_only: bool,
    forward: bool,
) -> bool {
    &&& after.len() == before.len()
    &&& after.to_multiset() == before.to_multiset()
    &&& forall|c: spec_fn(T, T) -> Ordering| #[trigger]
        computes(comparator, c) ==> after == task_result(before, rule_of(c), merge_only, forward)
}

/// Sorts `x` in place by `comparator`, if its length is a power of two or zero.
///
/// On any other length nothing is touched and the error names the length. On a valid
/// length the elements are rearranged; under every comparison that the comparator
/// computes the result is the network's, and where that comparison is a total order no
/// element is greater than a later one.
pub fn sort_by<T, F>(x: &mut [T], comparator: &F) -> (r: Result<(), String>)
    where
        T: Send,
        F: Sync + Fn(&T, &T) -> Ordering,
    requires
        is_callable(comparator),
    ensures
        r is Ok <==> is_valid_length(old(x)@.len()),
        r is Err ==> r->Err_0@ == length_error_text(old(x)@.len()) && final(x)@ == old(x)@,
        final(x)@.len() == old(x)@.len(),
        final(x)@.to_multiset() == old(x)@.to_multiset(),
        r is Ok ==> forall|c: spec_fn(T, T) -> Ordering| #[trigger]
            computes(comparator, c) ==> {
                &&& final(x)@ == bitonic_sorted(old(x)@, rule_of(c), true)
                &&& is_total_order(c) ==> sorted_by(final(x)@, le_of(c))
            },
{
    if valid_length(x.len()) {
        do_sort(x, true, comparator);
        proof {
            assert forall|c: spec_fn(T, T) -> Ordering| #[trigger] computes(comparator, c) && is_total_order(
                c,
            ) implies sorted_by(x@, le_of(c)) by {
                lemma_total_order_rules(c);
                lemma_bitonic_sorted_is_sorted(old(x)@, rule_of(c), true, le_of(c));
                assert(x@ == task_result(old(x)@, rule_of(c), false, true));
                assert forall|i: int, j: int| 0 <= i < j < x@.len() implies #[trigger] le_of(c)(x@[i], x@[j]) by {
                    assert(directed(le_of(c), true)(x@[i], x@[j]));
                }
            }
        }
        Ok(())
    } else {
        Err(length_error(x.len()))
    }
}

/// The comparison that a [`SortOrder`] stands for: the element type's own for
/// `Ascending`, the same with its arguments exchanged for `Descending`.
pub open spec fn natural_comparison<T: Ord>(order: SortOrder) -> spec_fn(T, T) -> Ordering {
    |a: T, b: T|
        if order.is_ascending() {
            a.cmp_spec(&b)
        } else {
            b.cmp_spec(&a)
        }
}

/// Sorts `x` in place in the given order of the element type, if its length is a power
/// of two or zero.
///
/// On any other length nothing is touched and the error names the length. On a valid
/// length the elements are rearranged; where `cmp` on the element type obeys
/// `cmp_spec`, the result is the network's, and where that comparison is a total order
/// the result is in the order asked for.
pub fn sort<T: Ord + Send>(x: &mut [T], order: &SortOrder) -> (r: Result<(), String>)
    ensures
        r is Ok <==> is_valid_length(old(x)@.len()),
        r is Err ==> r->Err_0@ == length_error_text(old(x)@.len()) && final(x)@ == old(x)@,
        final(x)@.len() == old(x)@.len(),
        final(x)@.to_multiset() == old(x)@.to_multiset(),
        r is Ok && T::obeys_cmp_spec() ==> final(x)@ == bitonic_sorted(
            old(x)@,
            rule_of(natural_comparison::<T>(*order)),
            true,
        ),
        r is Ok && T::obeys_cmp_spec() && is_total_order(natural_comparison::<T>(SortOrder::Ascending))
            ==> sorted_by(
            final(x)@,
            directed(le_of(natural_comparison::<T>(SortOrder::Ascending)), order.is_ascending()),
        ),
{
    match *order {
        SortOrder::Ascending => {
            let ascending = |a: &T, b: &T| -> (o: Ordering)
                ensures
                    T::obeys_cmp_spec() ==> o == a.cmp_spec(b),
                {
                    a.cmp(b)
                };
            let r = sort_by(x, &ascending);
            proof {
                let c = natural_comparison::<T>(SortOrder::Ascending);
                if r is Ok && T::obeys_cmp_spec() {
                    assert(computes(&ascending, c));
                    if is_total_order(c) {
                        assert forall|i: int, j: int| 0 <= i < j < x@.len() implies #[trigger] directed(
                            le_of(c),
                            true,
                        )(x@[i], x@[j]) by {
                            assert(le_of(c)(x@[i], x@[j]));
                        }
                    }
                }
            }
            r
        },
        SortOrder::Descending => {
            let descending = |a: &T, b: &T| -> (o: Ordering)
                ensures
                    T::obeys_cmp_spec() ==> o == b.cmp_spec(a),
                {
                    b.cmp(a)
                };
            let r = sort_by(x, &descending);
            proof {
                let c = natural_comparison::<T>(SortOrder::Ascending);
                let back = natural_comparison::<T>(SortOrder::Descending);
                if r is Ok && T::obeys_cmp_spec() {
                    assert(computes(&descending, back));
                    if is_total_order(c) {
                        lemma_exchanged_arguments(c, back);
                        assert forall|i: int, j: int| 0 <= i < j < x@.len() implies #[trigger] directed(
                            le_of(c),
                            false,
                        )(x@[i], x@[j]) by {
                            assert(le_of(back)(x@[i], x@[j]));
                        }
                    }
                }
            }
            r
        },
    }
}

fn do_sort<T, F>(x: &mut [T], forward: bool, comparator: &F)
    where
        T: Send,
        F: Sync + Fn(&T, &T) -> Ordering,
    requires
        is_callable(comparator),
    ensures
        is_done(old(x)@, final(x)@, comparator, false, forward),
    decreases old(x)@.len(),
{
    if x.len() > 1 {
        let mid_point = x.len() / 2;
        let (first, second) = x.split_at_mut(mid_point);
        proof {
            assert(first@ + second@ =~= old(x)@);
            lemma_multiset_commutative(first@, second@);
        }
        if mid_point >= PARALLEL_THRESHOLD {
            join_halves(first, second, false, true, false, comparator);
        } else {
            do_sort(first, true, comparator);
            do_sort(second, false, comparator);
        }
        proof {
            lemma_multiset_commutative(first@, second@);
        }
        sub_sort(x, forward, comparator);
    }
}

fn sub_sort<T, F>(x: &mut [T], forward: bool, comparator: &F)
    where
        T: Send,
        F: Sync + Fn(&T, &T) -> Ordering,
    requires
        is_callable(comparator),
    ensures
        is_done(old(x)@, final(x)@, comparator, true, forward),
    decreases old(x)@.len(),
{
    if x.len() > 1 {
        compare_and_swap(x, forward, comparator);
        let mid_point = x.len() / 2;
        let ghost passed = x@;
        let (first, second) = x.split_at_mut(mid_point);
        proof {
            assert(first@ + second@ =~= passed);
            lemma_multiset_commutative(first@, second@);
        }
        if mid_point >= PARALLEL_THRESHOLD {
            join_halves(first, second, true, forward, forward, comparator);
        } else {
            sub_sort(first, forward, comparator);
            sub_sort(second, forward, comparator);
        }
        proof {
            lemma_multiset_commutative(first@, second@);
        }
    }
}

/// Does one task on one half: the merge step alone, or the whole of the network.
fn sort_half<T, F>(x: &mut [T], merge_only: bool, forward: bool, comparator: &F)
    where
        T: Send,
        F: Sync + Fn(&T, &T) -> Ordering,
    requires
        is_callable(comparator),
    ensures
        is_done(old(x)@, final(x)@, comparator, merge_only, forward),
{
    if merge_only {
        sub_sort(x, forward, comparator)
    } else {
        do_sort(x, forward, comparator)
    }
}

/// `rayon::join` on the two halves of a sequence: the first half is handed to one task,
/// the second to another, and the call returns when both tasks have run to their end.
/// The contract claims that each half is then as its task leaves it; the tasks share
/// nothing but the comparator, which they only read.
#[verifier::external_body]
fn join_halves<T, F>(
    first: &mut [T],
    second: &mut [T],
    merge_only: bool,
    first_forward: bool,
    second_forward: bool,
    comparator: &F,
)
    where
        T: Send,
        F: Sync + Fn(&T, &T) -> Ordering,
    requires
        is_callable(comparator),
    ensures
        is_done(old(first)@, final(first)@, comparator, merge_only, first_forward),
        is_done(old(second)@, final(second)@, comparator, merge_only, second_forward),
{
    rayon::join(
        || sort_half(first, merge_only, first_forward, comparator),
        || sort_half(second, merge_only, second_forward, comparator),
    );
}

/// Whether a pair that compared as `outcome` is exchanged in the direction `forward`.
fn meets_swap_condition(outcome: Ordering, forward: bool) -> (r: bool)
    ensures
        r == (outcome == swap_condition(forward)),
{
    match outcome {
        Ordering::Greater => forward,
        Ordering::Less => !forward,
        Ordering::Equal => false,
    }
}

fn compare_and_swap<T, F>(x: &mut [T], forward: bool, comparator: &F)
    where F: Fn(&T, &T) -> Ordering
    requires
        is_callable(comparator),
    ensures
        final(x)@.len() == old(x)@.len(),
        final(x)@.to_multiset() == old(x)@.to_multiset(),
        forall|c: spec_fn(T, T) -> Ordering| #[trigger] computes(comparator, c) ==> final(x)@ == exchanged(old(x)@, rule_of(c), forward),
{
    let len = x.len();
    let mid_point = len / 2;
    let mut i: usize = 0;
    let ghost mut done: int = 0;
    assert forall|c: spec_fn(T, T) -> Ordering| #[trigger] computes(comparator, c) implies x@ == exchanged_upto(old(x)@, rule_of(c), forward, 0) by {
        assert(x@ =~= exchanged_upto(old(x)@, rule_of(c), forward, 0));
    }
    while i < mid_point
        invariant
            done == i,
            i <= mid_point,
            mid_point == len / 2,
            x@.len() == len,
            old(x)@.len() == len,
            is_callable(comparator),
            x@.to_multiset() == old(x)@.to_multiset(),
            forall|c: spec_fn(T, T) -> Ordering| #[trigger] computes(comparator, c) ==> x@ == exchanged_upto(old(x)@, rule_of(c), forward, done),
        decreases mid_point - i,
    {
        let ghost before = x@;
        let outcome = comparator(&x[i], &x[mid_point + i]);
        if meets_swap_condition(outcome, forward) {
            x.swap(i, mid_point + i);
            proof {
                lemma_swap_permutes(before, done, mid_point + done);
            }
        }
        i += 1;
        proof {
            done = done + 1;
            assert forall|c: spec_fn(T, T) -> Ordering| #[trigger] computes(comparator, c) implies x@ == exchanged_upto(old(x)@, rule_of(c), forward, done) by {
                assert(outcome == c(before[done - 1], before[mid_point + done - 1]));
                assert(x@ =~= exchanged_upto(old(x)@, rule_of(c), forward, done));
            }
        }
    }
}

} // verus!
