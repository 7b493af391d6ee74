//! Binary search over a sorted slice, in an iterative and a recursive form.
use crate::order::{equiv, lemma_total_order, less, less_eq, sorted};
use vstd::laws_cmp::*;
use vstd::prelude::*;
use vstd::std_specs::cmp::{PartialEqSpec, PartialOrdSpec};

verus! {

/// The outcome of bisecting the closed index range `[low, high]` of `s` for `t`:
/// probe the middle `low + (high - low) / 2`, stop on a match, otherwise keep
/// the half on the side where `t` must lie.
pub open spec fn bisect<T: PartialOrd>(s: Seq<T>, t: T, low: int, high: int) -> Option<int>
    decreases high - low + 1,
{
    if low > high || low < 0 || high >= s.len() {
        None
    } else {
        let mid = low + (high - low) / 2;
        if s[mid].eq_spec(&t) {
            Some(mid)
        } else if less(s[mid], t) {
            bisect(s, t, mid + 1, high)
        } else {
            bisect(s, t, low, mid - 1)
        }
    }
}

/// The outcome of bisecting the whole of `s` for `t`.
pub open spec fn search_result<T: PartialOrd>(s: Seq<T>, t: T) -> Option<int> {
    bisect(s, t, 0, s.len() - 1)
}

/// A found index, read as a mathematical integer.
pub open spec fn as_int(r: Option<usize>) -> Option<int> {
    match r {
        Some(j) => Some(j as int),
        None => None,
    }
}

/// `t` compares equal to some element of `s`.
pub open spec fn present<T: PartialEq>(s: Seq<T>, t: T) -> bool {
    exists|j: int| 0 <= j < s.len() && equiv(#[trigger] s[j], t)
}

/// On a sorted sequence, bisection finds an element equal to `t` exactly
/// when there is one, and the index it gives holds such an element.
pub proof fn lemma_bisect_sound<T: Ord>(s: Seq<T>, t: T, low: int, high: int)
    requires
        obeys_cmp::<T>(),
        sorted(s),
        0 <= low <= high + 1,
        high < s.len(),
        forall|j: int| 0 <= j < low ==> #[trigger] less(s[j], t),
        forall|j: int| high < j < s.len() ==> #[trigger] less(t, s[j]),
    ensures
        match bisect(s, t, low, high) {
            Some(j) => 0 <= j < s.len() && equiv(s[j], t),
            None => !present(s, t),
        },
    decreases high - low + 1,
{
    lemma_total_order::<T>();
    if low > high {
        assert forall|j: int| 0 <= j < s.len() implies !equiv(#[trigger] s[j], t) by {
            if j < low {
                assert(less(s[j], t));
            } else {
                assert(less(t, s[j]));
            }
        }
    } else {
        let mid = low + (high - low) / 2;
        if s[mid].eq_spec(&t) {
        } else if less(s[mid], t) {
            assert forall|j: int| 0 <= j < mid + 1 implies #[trigger] less(s[j], t) by {
                if j >= low && j < mid {
                    assert(less_eq(s[j], s[mid]));
                }
            }
            lemma_bisect_sound(s, t, mid + 1, high);
        } else {
            assert(less_eq(t, s[mid]));
            assert(!equiv(s[mid], t));
            assert(less(t, s[mid]));
            assert forall|j: int| mid - 1 < j < s.len() implies #[trigger] less(t, s[j]) by {
                if j > mid && j <= high {
                    assert(less_eq(s[mid], s[j]));
                }
            }
            lemma_bisect_sound(s, t, low, mid - 1);
        }
    }
}

/// On a sorted sequence, the search finds an element equal to `t` exactly
/// when there is one, and the index it gives holds such an element.
pub proof fn lemma_search_sound<T: Ord>(s: Seq<T>, t: T)
    requires
        obeys_cmp::<T>(),
        sorted(s),
    ensures
        match search_result(s, t) {
            Some(j) => 0 <= j < s.len() && equiv(s[j], t),
            None => !present(s, t),
        },
{
    lemma_bisect_sound(s, t, 0, s.len() - 1);
}

/// `t` lies outside the range of `s`, or strictly between two neighbours.
pub open spec fn in_gap<T: PartialOrd>(s: Seq<T>, t: T) -> bool {
    ||| s.len() == 0
    ||| less(t, s[0])
    ||| less(s[s.len() - 1], t)
    ||| exists|k: int| 0 <= k < s.len() - 1 && #[trigger] less(s[k], t) && less(t, s[k + 1])
}

/// Searching a sorted sequence for one of its own elements finds an index
/// holding an element equal to it.
pub proof fn lemma_search_finds_member<T: Ord>(s: Seq<T>, i: int)
    requires
        obeys_cmp::<T>(),
        sorted(s),
        0 <= i < s.len(),
    ensures
        search_result(s, s[i]) matches Some(j) && 0 <= j < s.len() && equiv(s[j], s[i]),
{
    lemma_total_order::<T>();
    lemma_search_sound(s, s[i]);
    assert(equiv(s[i], s[i]));
}

/// Searching a sorted sequence for a value below its first element, above
/// its last, or strictly between two neighbours finds nothing.
pub proof fn lemma_search_misses_gap<T: Ord>(s: Seq<T>, t: T)
    requires
        obeys_cmp::<T>(),
        sorted(s),
        in_gap(s, t),
    ensures
        search_result(s, t) == None::<int>,
{
    lemma_total_order::<T>();
    lemma_search_sound(s, t);
    assert forall|j: int| 0 <= j < s.len() implies !equiv(#[trigger] s[j], t) by {
        if less(t, s[0]) {
            assert(less_eq(s[0], s[j]) || j == 0);
            assert(less(t, s[j]));
        } else if less(s[s.len() - 1], t) {
            assert(less_eq(s[j], s[s.len() - 1]) || j == s.len() - 1);
            assert(less(s[j], t));
        } else {
            let k = choose|k: int|
                0 <= k < s.len() - 1 && #[trigger] less(s[k], t) && less(t, s[k + 1]);
            if j <= k {
                assert(less_eq(s[j], s[k]) || j == k);
                assert(less(s[j], t));
            } else {
                assert(less_eq(s[k + 1], s[j]) || j == k + 1);
                assert(less(t, s[j]));
            }
        }
    }
    if let Some(j) = search_result(s, t) {
        assert(equiv(s[j], t));
    }
}

/// Iterative binary search: the index of an element of the sorted `array`
/// that compares equal to `target`, or `None` when there is none.
pub fn binary_search<T: Ord>(array: &[T], target: &T) -> (r: Option<usize>)
    requires
        obeys_cmp::<T>(),
    ensures
        as_int(r) == search_result(array@, *target),
        array@.len() == 0 ==> r == None::<usize>,
        sorted(array@) ==> match r {
            Some(j) => j < array@.len() && equiv(array@[j as int], *target),
            None => !present(array@, *target),
        },
{
    proof {
        lemma_total_order::<T>();
        if sorted(array@) {
            lemma_search_sound(array@, *target);
        }
    }
    if array.len() == 0 {
        return None;
    }
    let mut left: usize = 0;
    let mut right: usize = array.len() - 1;
    while left <= right
        invariant
            T::obeys_eq_spec(),
            T::obeys_partial_cmp_spec(),
            right < array@.len(),
            bisect(array@, *target, left as int, right as int) == search_result(array@, *target),
            sorted(array@) ==> search_result(array@, *target) == None::<int> ==> !present(
                array@,
                *target,
            ),
        decreases right - left + 1,
    {
        let mid = left + (right - left) / 2;
        if array[mid] == *target {
            return Some(mid);
        } else if array[mid] < *target {
            left = mid + 1;
        } else {
            if mid == 0 {
                assert(bisect(array@, *target, left as int, mid - 1) == None::<int>);
                return None;
            }
            right = mid - 1;
        }
    }
    None
}

/// Recursive binary search: the same probes and the same result as
/// [`binary_search`], with the index range handled internally.
pub fn recursive_binary_search<T: Ord>(array: &[T], target: &T) -> (r: Option<usize>)
    requires
        obeys_cmp::<T>(),
    ensures
        as_int(r) == search_result(array@, *target),
        array@.len() == 0 ==> r == None::<usize>,
        sorted(array@) ==> match r {
            Some(j) => j < array@.len() && equiv(array@[j as int], *target),
            None => !present(array@, *target),
        },
{
    proof {
        lemma_total_order::<T>();
        if sorted(array@) {
            lemma_search_sound(array@, *target);
        }
    }
    if array.len() == 0 {
        None
    } else {
        search_between(array, target, 0, array.len() - 1)
    }
}

/// Bisects the closed range `[left, right]` of `array` for `target`.
fn search_between<T: Ord>(
    array: &[T],
    target: &T,
    left: usize,
    right: usize,
) -> (r: Option<usize>)
    requires
        T::obeys_eq_spec(),
        T::obeys_partial_cmp_spec(),
        right < array@.len(),
    ensures
        as_int(r) == bisect(array@, *target, left as int, right as int),
    decreases right - left + 1,
{
    if left > right {
        return None;
    }
    let mid = left + (right - left) / 2;
    if array[mid] == *target {
        Some(mid)
    } else if array[mid] < *target {
        search_between(array, target, mid + 1, right)
    } else if mid == 0 {
        assert(bisect(array@, *target, left as int, mid - 1) == None::<int>);
        None
    } else {
        search_between(array, target, left, mid - 1)
    }
}

} // verus!
