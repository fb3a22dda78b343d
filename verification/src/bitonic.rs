//! Bitonic sequences: what the merge step of the network needs of its input.
//!
//! A sequence is bitonic when, read as a cycle, it rises once and falls once. Stated
//! without rotations: no four positions, taken in cyclic order, alternate between a
//! strictly smaller and a strictly larger element.

use vstd::prelude::*;
use vstd::relations::*;
use crate::relation::directed;
use crate::relation::is_converse;
use crate::relation::is_total_preorder;

verus! {

/// `w < x > y < z > w` under `le`: four values that go up, down, up and, closing the
/// cycle, down again.
pub open spec fn zigzag<T>(le: spec_fn(T, T) -> bool, w: T, x: T, y: T, z: T) -> bool {
    &&& !le(x, w)
    &&& !le(x, y)
    &&& !le(z, y)
    &&& !le(z, w)
}

/// The elements at positions `i < j < k < l` of `s` alternate, starting either with a
/// rise or with a fall.
pub open spec fn turns_at<T>(s: Seq<T>, le: spec_fn(T, T) -> bool, i: int, j: int, k: int, l: int) -> bool {
    ||| zigzag(le, s[i], s[j], s[k], s[l])
    ||| zigzag(le, s[j], s[k], s[l], s[i])
}

/// `s` is bitonic under `le`: non-decreasing then non-increasing, or a rotation of such
/// a sequence.
pub open spec fn is_bitonic<T>(s: Seq<T>, le: spec_fn(T, T) -> bool) -> bool {
    forall|i: int, j: int, k: int, l: int|
        0 <= i < j < k < l < s.len() ==> !#[trigger] turns_at(s, le, i, j, k, l)
}

/// A sequence is bitonic under a relation exactly when it is bitonic under the converse.
pub proof fn lemma_bitonic_under_converse<T>(s: Seq<T>, le: spec_fn(T, T) -> bool, r: spec_fn(T, T) -> bool)
    requires
        is_converse(r, le),
        is_bitonic(s, le),
    ensures
        is_bitonic(s, r),
{
    assert forall|i: int, j: int, k: int, l: int| 0 <= i < j < k < l < s.len() implies !#[trigger] turns_at(
        s,
        r,
        i,
        j,
        k,
        l,
    ) by {
        assert(!turns_at(s, le, i, j, k, l));
        assert(r(s[j], s[i]) == le(s[i], s[j]));
        assert(r(s[j], s[k]) == le(s[k], s[j]));
        assert(r(s[l], s[k]) == le(s[k], s[l]));
        assert(r(s[l], s[i]) == le(s[i], s[l]));
        assert(r(s[k], s[j]) == le(s[j], s[k]));
        assert(r(s[k], s[l]) == le(s[l], s[k]));
        assert(r(s[i], s[l]) == le(s[l], s[i]));
        assert(r(s[i], s[j]) == le(s[j], s[i]));
    }
}

/// Being bitonic under `le` is being bitonic under `le` read in either direction.
pub proof fn lemma_bitonic_in_direction<T>(s: Seq<T>, le: spec_fn(T, T) -> bool, forward: bool)
    ensures
        is_bitonic(s, le) <==> is_bitonic(s, directed(le, forward)),
{
    let d = directed(le, forward);
    if forward {
        assert forall|i: int, j: int, k: int, l: int| 0 <= i < j < k < l < s.len() implies (turns_at(s, le, i, j, k, l)
            <==> turns_at(s, d, i, j, k, l)) by {
            assert(d(s[j], s[i]) == le(s[j], s[i]));
            assert(d(s[j], s[k]) == le(s[j], s[k]));
            assert(d(s[l], s[k]) == le(s[l], s[k]));
            assert(d(s[l], s[i]) == le(s[l], s[i]));
            assert(d(s[k], s[j]) == le(s[k], s[j]));
            assert(d(s[k], s[l]) == le(s[k], s[l]));
            assert(d(s[i], s[l]) == le(s[i], s[l]));
            assert(d(s[i], s[j]) == le(s[i], s[j]));
        }
        if is_bitonic(s, le) {
            assert forall|i: int, j: int, k: int, l: int| 0 <= i < j < k < l < s.len() implies !#[trigger] turns_at(
                s,
                d,
                i,
                j,
                k,
                l,
            ) by {
                assert(!turns_at(s, le, i, j, k, l));
            }
        }
        if is_bitonic(s, d) {
            assert forall|i: int, j: int, k: int, l: int| 0 <= i < j < k < l < s.len() implies !#[trigger] turns_at(
                s,
                le,
                i,
                j,
                k,
                l,
            ) by {
                assert(!turns_at(s, d, i, j, k, l));
            }
        }
    } else {
        assert(is_converse(d, le));
        assert(is_converse(le, d)) by {
            assert forall|a: T, b: T| #[trigger] le(a, b) == d(b, a) by {}
        }
        if is_bitonic(s, le) {
            lemma_bitonic_under_converse(s, le, d);
        }
        if is_bitonic(s, d) {
            lemma_bitonic_under_converse(s, d, le);
        }
    }
}

/// A non-decreasing run followed by a non-increasing run is bitonic.
pub proof fn lemma_rise_then_fall_is_bitonic<T>(a: Seq<T>, b: Seq<T>, le: spec_fn(T, T) -> bool)
    requires
        sorted_by(a, directed(le, true)),
        sorted_by(b, directed(le, false)),
    ensures
        is_bitonic(a + b, le),
{
    let s = a + b;
    let n = a.len() as int;
    let up = directed(le, true);
    let down = directed(le, false);
    assert forall|i: int, j: int, k: int, l: int| 0 <= i < j < k < l < s.len() implies !#[trigger] turns_at(
        s,
        le,
        i,
        j,
        k,
        l,
    ) by {
        if zigzag(le, s[i], s[j], s[k], s[l]) {
            // s[k] < s[l] cannot happen inside the falling run, so k and j lie in the rising one
            if k >= n {
                assert(down(b[k - n], b[l - n]));
            } else {
                assert(up(a[j], a[k]));
            }
        }
        if zigzag(le, s[j], s[k], s[l], s[i]) {
            // s[j] < s[i] cannot happen inside the rising run, so j and k lie in the falling one
            if j < n {
                assert(up(a[i], a[j]));
            } else {
                assert(down(b[j - n], b[k - n]));
            }
        }
    }
}

/// `m[x]` is one of `s[x]` and `s[x + m.len()]`, and stands before both under `le`.
pub open spec fn is_lower_of_pair<T>(s: Seq<T>, m: Seq<T>, le: spec_fn(T, T) -> bool, x: int) -> bool {
    &&& m[x] == s[x] || m[x] == s[x + m.len()]
    &&& le(m[x], s[x])
    &&& le(m[x], s[x + m.len()])
}

/// `m` holds, position by position, the lower element of each pair `(s[x], s[x + n])`.
pub open spec fn is_lower_half<T>(s: Seq<T>, m: Seq<T>, le: spec_fn(T, T) -> bool) -> bool {
    &&& s.len() == 2 * m.len()
    &&& forall|x: int| 0 <= x < m.len() ==> #[trigger] is_lower_of_pair(s, m, le, x)
}

/// Taking the lower element of each pair of a bitonic sequence gives a bitonic sequence.
pub proof fn lemma_lower_half_is_bitonic<T>(s: Seq<T>, m: Seq<T>, le: spec_fn(T, T) -> bool)
    requires
        is_total_preorder(le),
        is_bitonic(s, le),
        is_lower_half(s, m, le),
    ensures
        is_bitonic(m, le),
{
    let n = m.len() as int;
    assert forall|i: int, j: int, k: int, l: int| 0 <= i < j < k < l < m.len() implies !#[trigger] turns_at(
        m,
        le,
        i,
        j,
        k,
        l,
    ) by {
        assert(is_lower_of_pair(s, m, le, i));
        assert(is_lower_of_pair(s, m, le, j));
        assert(is_lower_of_pair(s, m, le, k));
        assert(is_lower_of_pair(s, m, le, l));
        if zigzag(le, m[i], m[j], m[k], m[l]) {
            // the low points are at i and k; both elements of the pairs at j and l lie above them
            if m[i] == s[i] {
                if m[k] == s[k] {
                    assert(turns_at(s, le, i, j, k, l));
                } else {
                    assert(turns_at(s, le, i, j, k + n, l + n));
                }
            } else {
                if m[k] == s[k] {
                    assert(turns_at(s, le, j, k, l, i + n));
                } else {
                    assert(turns_at(s, le, i + n, j + n, k + n, l + n));
                }
            }
        }
        if zigzag(le, m[j], m[k], m[l], m[i]) {
            // the low points are at j and l
            if m[j] == s[j] {
                if m[l] == s[l] {
                    assert(turns_at(s, le, i, j, k, l));
                } else {
                    assert(turns_at(s, le, i, j, k, l + n));
                }
            } else {
                if m[l] == s[l] {
                    assert(turns_at(s, le, l, i + n, j + n, k + n));
                } else {
                    assert(turns_at(s, le, i + n, j + n, k + n, l + n));
                }
            }
        }
    }
}

/// Once each pair `(s[x], s[x + n])` of a bitonic sequence is split into its lower and
/// its upper element, every lower element stands before every upper element.
pub proof fn lemma_halves_are_separated<T>(
    s: Seq<T>,
    lower: Seq<T>,
    upper: Seq<T>,
    le: spec_fn(T, T) -> bool,
    above: spec_fn(T, T) -> bool,
)
    requires
        is_total_preorder(le),
        is_converse(above, le),
        is_bitonic(s, le),
        is_lower_half(s, lower, le),
        is_lower_half(s, upper, above),
    ensures
        forall|i: int, j: int| 0 <= i < lower.len() && 0 <= j < upper.len() ==> le(#[trigger] lower[i], #[trigger] upper[j]),
{
    let n = lower.len() as int;
    assert forall|i: int, j: int| 0 <= i < lower.len() && 0 <= j < upper.len() implies le(
        #[trigger] lower[i],
        #[trigger] upper[j],
    ) by {
        assert(is_lower_of_pair(s, lower, le, i));
        assert(is_lower_of_pair(s, upper, above, j));
        assert(above(upper[j], s[j]) == le(s[j], upper[j]));
        assert(above(upper[j], s[j + n]) == le(s[j + n], upper[j]));
        if !le(lower[i], upper[j]) {
            // both elements of pair i lie strictly above both elements of pair j
            assert(le(upper[j], lower[i]));
            if i < j {
                assert(turns_at(s, le, i, j, i + n, j + n));
            } else if j < i {
                assert(turns_at(s, le, j, i, j + n, i + n));
            } else {
                assert(le(lower[i], s[i]) && le(s[i], upper[j]));
            }
        }
    }
}

} // verus!
