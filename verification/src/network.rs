//! The bitonic sorting network as a function on sequences.
//!
//! The network is fixed by the length of its input alone. What varies is the test that
//! tells whether two elements are in the wrong order for a direction: `misplaced(forward,
//! a, b)` holds when `a`, standing before `b`, has to change places with it.

use vstd::prelude::*;
use vstd::relations::*;
use vstd::seq_lib::*;
use crate::bitonic::is_bitonic;
use crate::bitonic::is_lower_half;
use crate::bitonic::is_lower_of_pair;
use crate::bitonic::lemma_bitonic_in_direction;
use crate::bitonic::lemma_halves_are_separated;
use crate::bitonic::lemma_lower_half_is_bitonic;
use crate::bitonic::lemma_rise_then_fall_is_bitonic;
use crate::length::is_valid_length;
use crate::length::lemma_valid_length_halves;
use crate::relation::directed;
use crate::relation::is_converse;
use crate::relation::is_total_preorder;
use crate::relation::lemma_directed_is_total_preorder;
use crate::relation::lemma_total_preorder_is_reflexive;

verus! {

/// The sequence `s` after the first `done` pairs `(k, k + s.len() / 2)` were compared
/// and, where misplaced, exchanged.
pub open spec fn exchanged_upto<T>(
    s: Seq<T>,
    misplaced: spec_fn(bool, T, T) -> bool,
    forward: bool,
    done: int,
) -> Seq<T> {
    let n = (s.len() / 2) as int;
    Seq::new(
        s.len(),
        |k: int|
            if 0 <= k < done && k < n {
                if misplaced(forward, s[k], s[k + n]) {
                    s[k + n]
                } else {
                    s[k]
                }
            } else if n <= k < n + done && k < 2 * n {
                if misplaced(forward, s[k - n], s[k]) {
                    s[k - n]
                } else {
                    s[k]
                }
            } else {
                s[k]
            },
    )
}

/// One compare-and-swap pass over `s`: each element of the leading half is compared with
/// its partner in the trailing half, and the two change places where they are misplaced.
pub open spec fn exchanged<T>(s: Seq<T>, misplaced: spec_fn(bool, T, T) -> bool, forward: bool) -> Seq<T> {
    exchanged_upto(s, misplaced, forward, (s.len() / 2) as int)
}

/// The leading half of `s`.
pub open spec fn leading<T>(s: Seq<T>) -> Seq<T> {
    s.subrange(0, (s.len() / 2) as int)
}

/// The trailing half of `s` (the longer one where the length is odd).
pub open spec fn trailing<T>(s: Seq<T>) -> Seq<T> {
    s.subrange((s.len() / 2) as int, s.len() as int)
}

/// The merge step: a pass over the whole of `s`, then the merge of each half, both in
/// the direction `forward`.
pub open spec fn merged<T>(s: Seq<T>, misplaced: spec_fn(bool, T, T) -> bool, forward: bool) -> Seq<T>
    decreases s.len(),
{
    if s.len() <= 1 {
        s
    } else {
        let e = exchanged(s, misplaced, forward);
        merged(leading(e), misplaced, forward) + merged(trailing(e), misplaced, forward)
    }
}

/// The whole network: the leading half sorted forward, the trailing half sorted
/// backward, and the two merged in the direction `forward`.
pub open spec fn bitonic_sorted<T>(s: Seq<T>, misplaced: spec_fn(bool, T, T) -> bool, forward: bool) -> Seq<T>
    decreases s.len(),
{
    if s.len() <= 1 {
        s
    } else {
        merged(
            bitonic_sorted(leading(s), misplaced, true) + bitonic_sorted(trailing(s), misplaced, false),
            misplaced,
            forward,
        )
    }
}

/// The merge step keeps the length.
pub proof fn lemma_merged_len<T>(s: Seq<T>, misplaced: spec_fn(bool, T, T) -> bool, forward: bool)
    ensures
        merged(s, misplaced, forward).len() == s.len(),
    decreases s.len(),
{
    if s.len() > 1 {
        let e = exchanged(s, misplaced, forward);
        lemma_merged_len(leading(e), misplaced, forward);
        lemma_merged_len(trailing(e), misplaced, forward);
    }
}

/// The network keeps the length.
pub proof fn lemma_bitonic_sorted_len<T>(s: Seq<T>, misplaced: spec_fn(bool, T, T) -> bool, forward: bool)
    ensures
        bitonic_sorted(s, misplaced, forward).len() == s.len(),
    decreases s.len(),
{
    if s.len() > 1 {
        lemma_bitonic_sorted_len(leading(s), misplaced, true);
        lemma_bitonic_sorted_len(trailing(s), misplaced, false);
        lemma_merged_len(
            bitonic_sorted(leading(s), misplaced, true) + bitonic_sorted(trailing(s), misplaced, false),
            misplaced,
            forward,
        );
    }
}

/// Exchanging two elements of a sequence keeps its elements.
pub proof fn lemma_swap_permutes<T>(s: Seq<T>, i: int, j: int)
    requires
        0 <= i < s.len(),
        0 <= j < s.len(),
    ensures
        s.update(i, s[j]).update(j, s[i]).to_multiset() == s.to_multiset(),
{
    broadcast use vstd::multiset::group_multiset_axioms;

    let t = s.update(i, s[j]);
    to_multiset_update(s, i, s[j]);
    to_multiset_update(t, j, s[i]);
    s.to_multiset_ensures();
    assert(s.to_multiset().count(s[i]) > 0);
    assert(s.to_multiset().count(s[j]) > 0);
    assert(t.update(j, s[i]).to_multiset() =~= s.to_multiset());
}

/// The two halves of a sequence, put together again, are the sequence.
pub proof fn lemma_halves_join<T>(s: Seq<T>)
    ensures
        leading(s) + trailing(s) == s,
        leading(s).len() == s.len() / 2,
        trailing(s).len() == s.len() - s.len() / 2,
        s.to_multiset() == leading(s).to_multiset().add(trailing(s).to_multiset()),
{
    assert(leading(s) + trailing(s) =~= s);
    lemma_multiset_commutative(leading(s), trailing(s));
}

/// A pass, however far it has come, keeps the elements of the sequence.
pub proof fn lemma_exchanged_upto_permutes<T>(
    s: Seq<T>,
    misplaced: spec_fn(bool, T, T) -> bool,
    forward: bool,
    done: int,
)
    requires
        0 <= done <= s.len() / 2,
    ensures
        exchanged_upto(s, misplaced, forward, done).to_multiset() == s.to_multiset(),
    decreases done,
{
    let n = (s.len() / 2) as int;
    if done == 0 {
        assert(exchanged_upto(s, misplaced, forward, done) =~= s);
    } else {
        let before = exchanged_upto(s, misplaced, forward, done - 1);
        let after = exchanged_upto(s, misplaced, forward, done);
        lemma_exchanged_upto_permutes(s, misplaced, forward, done - 1);
        let k = done - 1;
        if misplaced(forward, s[k], s[k + n]) {
            assert(after =~= before.update(k, before[k + n]).update(k + n, before[k]));
            lemma_swap_permutes(before, k, k + n);
        } else {
            assert(after =~= before);
        }
    }
}

/// A compare-and-swap pass keeps the elements of the sequence.
pub proof fn lemma_exchanged_permutes<T>(s: Seq<T>, misplaced: spec_fn(bool, T, T) -> bool, forward: bool)
    ensures
        exchanged(s, misplaced, forward).to_multiset() == s.to_multiset(),
        exchanged(s, misplaced, forward).len() == s.len(),
{
    lemma_exchanged_upto_permutes(s, misplaced, forward, (s.len() / 2) as int);
}

/// The merge step keeps the elements of the sequence.
pub proof fn lemma_merged_permutes<T>(s: Seq<T>, misplaced: spec_fn(bool, T, T) -> bool, forward: bool)
    ensures
        merged(s, misplaced, forward).to_multiset() == s.to_multiset(),
    decreases s.len(),
{
    if s.len() > 1 {
        let e = exchanged(s, misplaced, forward);
        lemma_exchanged_permutes(s, misplaced, forward);
        lemma_halves_join(e);
        lemma_merged_permutes(leading(e), misplaced, forward);
        lemma_merged_permutes(trailing(e), misplaced, forward);
        lemma_multiset_commutative(
            merged(leading(e), misplaced, forward),
            merged(trailing(e), misplaced, forward),
        );
    }
}

/// The network keeps the elements of the sequence: its result is a rearrangement.
pub proof fn lemma_bitonic_sorted_permutes<T>(s: Seq<T>, misplaced: spec_fn(bool, T, T) -> bool, forward: bool)
    ensures
        bitonic_sorted(s, misplaced, forward).to_multiset() == s.to_multiset(),
    decreases s.len(),
{
    if s.len() > 1 {
        let a = bitonic_sorted(leading(s), misplaced, true);
        let b = bitonic_sorted(trailing(s), misplaced, false);
        lemma_halves_join(s);
        lemma_bitonic_sorted_permutes(leading(s), misplaced, true);
        lemma_bitonic_sorted_permutes(trailing(s), misplaced, false);
        lemma_multiset_commutative(a, b);
        lemma_merged_permutes(a + b, misplaced, forward);
    }
}

/// The test `misplaced` follows the relation `le`: in each direction, two elements are
/// exchanged only if that puts them in order, and left only if they are in order.
pub open spec fn agrees<T>(misplaced: spec_fn(bool, T, T) -> bool, le: spec_fn(T, T) -> bool) -> bool {
    forall|forward: bool, a: T, b: T|
        if #[trigger] misplaced(forward, a, b) {
            directed(le, forward)(b, a)
        } else {
            directed(le, forward)(a, b)
        }
}

/// An element of a sequence occurs in every sequence with the same elements.
pub proof fn lemma_element_is_shared<T>(a: Seq<T>, b: Seq<T>, i: int) -> (p: int)
    requires
        a.to_multiset() == b.to_multiset(),
        0 <= i < a.len(),
    ensures
        0 <= p < b.len(),
        b[p] == a[i],
{
    a.to_multiset_ensures();
    b.to_multiset_ensures();
    assert(a.contains(a[i]));
    assert(a.to_multiset().count(a[i]) > 0);
    assert(b.to_multiset().count(a[i]) > 0);
    assert(b.contains(a[i]));
    choose|p: int| 0 <= p < b.len() && b[p] == a[i]
}

/// After a pass over a sequence of even length, the leading half holds the element of
/// each pair that comes first in the direction of the pass, the trailing half the other.
pub proof fn lemma_exchanged_splits_pairs<T>(
    s: Seq<T>,
    misplaced: spec_fn(bool, T, T) -> bool,
    forward: bool,
    le: spec_fn(T, T) -> bool,
)
    requires
        is_total_preorder(le),
        agrees(misplaced, le),
        s.len() % 2 == 0,
    ensures
        is_lower_half(s, leading(exchanged(s, misplaced, forward)), directed(le, forward)),
        is_lower_half(s, trailing(exchanged(s, misplaced, forward)), directed(le, !forward)),
{
    let n = (s.len() / 2) as int;
    let e = exchanged(s, misplaced, forward);
    let lower = leading(e);
    let upper = trailing(e);
    let d = directed(le, forward);
    let r = directed(le, !forward);
    lemma_total_preorder_is_reflexive(le);
    assert forall|x: int| 0 <= x < lower.len() implies #[trigger] is_lower_of_pair(s, lower, d, x) by {
        assert(le(s[x], s[x]) && le(s[x + n], s[x + n]));
        assert(lower[x] == e[x]);
        if misplaced(forward, s[x], s[x + n]) {
            assert(d(s[x + n], s[x]));
        } else {
            assert(d(s[x], s[x + n]));
        }
    }
    assert forall|x: int| 0 <= x < upper.len() implies #[trigger] is_lower_of_pair(s, upper, r, x) by {
        assert(le(s[x], s[x]) && le(s[x + n], s[x + n]));
        assert(upper[x] == e[x + n]);
        if misplaced(forward, s[x], s[x + n]) {
            assert(d(s[x + n], s[x]));
        } else {
            assert(d(s[x], s[x + n]));
        }
    }
}

/// Two runs sorted in one direction, each element of the first standing before each of
/// the second, make one sorted run.
pub proof fn lemma_sorted_runs_join<T>(a: Seq<T>, b: Seq<T>, d: spec_fn(T, T) -> bool)
    requires
        sorted_by(a, d),
        sorted_by(b, d),
        forall|i: int, j: int| 0 <= i < a.len() && 0 <= j < b.len() ==> d(#[trigger] a[i], #[trigger] b[j]),
    ensures
        sorted_by(a + b, d),
{
    let s = a + b;
    assert forall|i: int, j: int| 0 <= i < j < s.len() implies #[trigger] d(s[i], s[j]) by {
        if j < a.len() {
            assert(d(a[i], a[j]));
        } else if i >= a.len() {
            assert(d(b[i - a.len()], b[j - a.len()]));
        } else {
            assert(d(a[i], b[j - a.len()]));
        }
    }
}

/// The merge step sorts a bitonic sequence in the direction it is given.
pub proof fn lemma_merged_is_sorted<T>(
    s: Seq<T>,
    misplaced: spec_fn(bool, T, T) -> bool,
    forward: bool,
    le: spec_fn(T, T) -> bool,
)
    requires
        is_total_preorder(le),
        agrees(misplaced, le),
        is_valid_length(s.len()),
        is_bitonic(s, le),
    ensures
        sorted_by(merged(s, misplaced, forward), directed(le, forward)),
    decreases s.len(),
{
    if s.len() > 1 {
        let d = directed(le, forward);
        let r = directed(le, !forward);
        let e = exchanged(s, misplaced, forward);
        let lower = leading(e);
        let upper = trailing(e);
        lemma_valid_length_halves(s.len());
        lemma_directed_is_total_preorder(le, forward);
        lemma_directed_is_total_preorder(le, !forward);
        assert(is_converse(r, d));
        assert(is_converse(d, r)) by {
            assert forall|a: T, b: T| #[trigger] d(a, b) == r(b, a) by {}
        }
        lemma_bitonic_in_direction(s, le, forward);
        lemma_bitonic_in_direction(s, le, !forward);
        lemma_exchanged_splits_pairs(s, misplaced, forward, le);
        lemma_lower_half_is_bitonic(s, lower, d);
        lemma_lower_half_is_bitonic(s, upper, r);
        lemma_halves_are_separated(s, lower, upper, d, r);
        lemma_bitonic_in_direction(lower, le, forward);
        lemma_bitonic_in_direction(upper, le, !forward);

        let a = merged(lower, misplaced, forward);
        let b = merged(upper, misplaced, forward);
        lemma_merged_is_sorted(lower, misplaced, forward, le);
        lemma_merged_is_sorted(upper, misplaced, forward, le);
        lemma_merged_permutes(lower, misplaced, forward);
        lemma_merged_permutes(upper, misplaced, forward);
        assert forall|i: int, j: int| 0 <= i < a.len() && 0 <= j < b.len() implies d(
            #[trigger] a[i],
            #[trigger] b[j],
        ) by {
            let p = lemma_element_is_shared(a, lower, i);
            let q = lemma_element_is_shared(b, upper, j);
            assert(d(lower[p], upper[q]));
        }
        lemma_sorted_runs_join(a, b, d);
    }
}

/// The network sorts: on a sequence of a valid length, under a test that follows a
/// total preorder, its result is ordered in the direction asked for.
pub proof fn lemma_bitonic_sorted_is_sorted<T>(
    s: Seq<T>,
    misplaced: spec_fn(bool, T, T) -> bool,
    forward: bool,
    le: spec_fn(T, T) -> bool,
)
    requires
        is_total_preorder(le),
        agrees(misplaced, le),
        is_valid_length(s.len()),
    ensures
        sorted_by(bitonic_sorted(s, misplaced, forward), directed(le, forward)),
    decreases s.len(),
{
    if s.len() > 1 {
        let a = bitonic_sorted(leading(s), misplaced, true);
        let b = bitonic_sorted(trailing(s), misplaced, false);
        lemma_valid_length_halves(s.len());
        lemma_halves_join(s);
        lemma_bitonic_sorted_is_sorted(leading(s), misplaced, true, le);
        lemma_bitonic_sorted_is_sorted(trailing(s), misplaced, false, le);
        lemma_bitonic_sorted_len(leading(s), misplaced, true);
        lemma_bitonic_sorted_len(trailing(s), misplaced, false);
        lemma_rise_then_fall_is_bitonic(a, b, le);
        lemma_merged_is_sorted(a + b, misplaced, forward, le);
    }
}

/// A sequence that is already in order comes out of the network as it went in,
/// provided that no two different elements are equivalent under `le`. (Equivalent
/// elements may change places: the network is not stable.)
pub proof fn lemma_sorted_input_is_kept<T>(
    s: Seq<T>,
    misplaced: spec_fn(bool, T, T) -> bool,
    forward: bool,
    le: spec_fn(T, T) -> bool,
)
    requires
        is_total_preorder(le),
        antisymmetric(le),
        agrees(misplaced, le),
        is_valid_length(s.len()),
        sorted_by(s, directed(le, forward)),
    ensures
        bitonic_sorted(s, misplaced, forward) == s,
{
    let d = directed(le, forward);
    let t = bitonic_sorted(s, misplaced, forward);
    lemma_bitonic_sorted_is_sorted(s, misplaced, forward, le);
    lemma_bitonic_sorted_permutes(s, misplaced, forward);
    lemma_directed_is_total_preorder(le, forward);
    lemma_total_preorder_is_reflexive(d);
    assert forall|x: T, y: T| #[trigger] d(x, y) && #[trigger] d(y, x) implies x == y by {
        assert(le(x, y) && le(y, x));
    }
    lemma_sorted_unique(t, s, d);
}

/// Running the network on its own result changes nothing, provided that no two
/// different elements are equivalent under `le`.
pub proof fn lemma_bitonic_sorted_is_idempotent<T>(
    s: Seq<T>,
    misplaced: spec_fn(bool, T, T) -> bool,
    forward: bool,
    le: spec_fn(T, T) -> bool,
)
    requires
        is_total_preorder(le),
        antisymmetric(le),
        agrees(misplaced, le),
        is_valid_length(s.len()),
    ensures
        bitonic_sorted(bitonic_sorted(s, misplaced, forward), misplaced, forward) == bitonic_sorted(
            s,
            misplaced,
            forward,
        ),
{
    lemma_bitonic_sorted_is_sorted(s, misplaced, forward, le);
    lemma_bitonic_sorted_len(s, misplaced, forward);
    lemma_sorted_input_is_kept(bitonic_sorted(s, misplaced, forward), misplaced, forward, le);
}

/// The result is fixed by the order alone: two tests that follow one total preorder,
/// under which no two different elements are equivalent, give the same result.
pub proof fn lemma_result_is_fixed_by_order<T>(
    s: Seq<T>,
    one: spec_fn(bool, T, T) -> bool,
    other: spec_fn(bool, T, T) -> bool,
    forward: bool,
    le: spec_fn(T, T) -> bool,
)
    requires
        is_total_preorder(le),
        antisymmetric(le),
        agrees(one, le),
        agrees(other, le),
        is_valid_length(s.len()),
    ensures
        bitonic_sorted(s, one, forward) == bitonic_sorted(s, other, forward),
{
    let d = directed(le, forward);
    lemma_bitonic_sorted_is_sorted(s, one, forward, le);
    lemma_bitonic_sorted_is_sorted(s, other, forward, le);
    lemma_bitonic_sorted_permutes(s, one, forward);
    lemma_bitonic_sorted_permutes(s, other, forward);
    lemma_directed_is_total_preorder(le, forward);
    lemma_total_preorder_is_reflexive(d);
    assert forall|x: T, y: T| #[trigger] d(x, y) && #[trigger] d(y, x) implies x == y by {
        assert(le(x, y) && le(y, x));
    }
    lemma_sorted_unique(bitonic_sorted(s, one, forward), bitonic_sorted(s, other, forward), d);
}

} // verus!
