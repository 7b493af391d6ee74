//! Top-down merge sort: split at the middle, sort each half, merge them back
//! taking from the left half on ties, which keeps the sort stable.
use crate::order::{class_of, equiv, equiv_to, lemma_total_order, less, less_eq, sorted, stably_sorts};
use vstd::laws_cmp::*;
use vstd::prelude::*;
use vstd::std_specs::cmp::PartialOrdSpec;

verus! {

broadcast use vstd::seq_lib::group_seq_properties, vstd::seq_lib::group_to_multiset_ensures;

/// The merge of `l` and `r`: repeatedly take the smaller front element,
/// taking from `l` when the two fronts compare equal.
pub open spec fn merge_of<T: PartialOrd>(l: Seq<T>, r: Seq<T>) -> Seq<T>
    decreases l.len() + r.len(),
{
    if l.len() == 0 {
        r
    } else if r.len() == 0 {
        l
    } else if less_eq(l[0], r[0]) {
        seq![l[0]] + merge_of(l.drop_first(), r)
    } else {
        seq![r[0]] + merge_of(l, r.drop_first())
    }
}

/// Top-down merge sort of `s`: the halves `[0, len / 2)` and `[len / 2, len)`
/// are sorted on their own and then merged.
pub open spec fn sort_of<T: PartialOrd>(s: Seq<T>) -> Seq<T>
    decreases s.len(),
{
    if s.len() <= 1 {
        s
    } else {
        let mid = s.len() as int / 2;
        merge_of(sort_of(s.subrange(0, mid)), sort_of(s.subrange(mid, s.len() as int)))
    }
}

/// Merges the sorted slices `left` and `right` into a new vector, taking the
/// smaller front element each time and the left one on ties.
pub fn merge<T: Ord + Copy>(left: &[T], right: &[T]) -> (merged: Vec<T>)
    requires
        obeys_cmp::<T>(),
    ensures
        merged@ == merge_of(left@, right@),
        merged@.to_multiset() == (left@ + right@).to_multiset(),
        sorted(left@) && sorted(right@) ==> sorted(merged@),
        sorted(left@) ==> forall|x: T|
            #[trigger] class_of(merged@, x) == class_of(left@, x) + class_of(right@, x),
{
    proof {
        lemma_total_order::<T>();
        lemma_merge_multiset(left@, right@);
        if sorted(left@) && sorted(right@) {
            lemma_merge_sorted(left@, right@);
        }
        if sorted(left@) {
            assert forall|x: T| #[trigger]
                class_of(merge_of(left@, right@), x) == class_of(left@, x) + class_of(
                    right@,
                    x,
                ) by {
                lemma_merge_classes(left@, right@, x);
            }
        }
    }
    let ghost whole = merge_of(left@, right@);
    let mut merged: Vec<T> = Vec::new();
    let mut left_index: usize = 0;
    let mut right_index: usize = 0;
    proof {
        assert(left@.subrange(0, left@.len() as int) =~= left@);
        assert(right@.subrange(0, right@.len() as int) =~= right@);
        assert(merged@ + whole =~= whole);
    }
    while left_index < left.len() && right_index < right.len()
        invariant
            T::obeys_partial_cmp_spec(),
            left_index <= left@.len(),
            right_index <= right@.len(),
            merged@ + merge_of(
                left@.subrange(left_index as int, left@.len() as int),
                right@.subrange(right_index as int, right@.len() as int),
            ) == whole,
        decreases left@.len() + right@.len() - left_index - right_index,
    {
        let ghost l = left@.subrange(left_index as int, left@.len() as int);
        let ghost r = right@.subrange(right_index as int, right@.len() as int);
        if left[left_index] <= right[right_index] {
            proof {
                assert(l.drop_first() =~= left@.subrange(left_index + 1, left@.len() as int));
                assert(merged@.push(l[0]) + merge_of(l.drop_first(), r) =~= merged@ + merge_of(
                    l,
                    r,
                ));
            }
            merged.push(left[left_index]);
            left_index += 1;
        } else {
            proof {
                assert(r.drop_first() =~= right@.subrange(right_index + 1, right@.len() as int));
                assert(merged@.push(r[0]) + merge_of(l, r.drop_first()) =~= merged@ + merge_of(
                    l,
                    r,
                ));
            }
            merged.push(right[right_index]);
            right_index += 1;
        }
    }
    proof {
        let l = left@.subrange(left_index as int, left@.len() as int);
        let r = right@.subrange(right_index as int, right@.len() as int);
        if left_index < left.len() {
            assert(r =~= Seq::<T>::empty());
            assert(l + r =~= l);
        } else {
            assert(l =~= Seq::<T>::empty());
            assert(l + r =~= r);
        }
    }
    while left_index < left.len()
        invariant
            left_index <= left@.len(),
            right_index <= right@.len(),
            left_index == left@.len() || right_index == right@.len(),
            merged@ + (left@.subrange(left_index as int, left@.len() as int) + right@.subrange(
                right_index as int,
                right@.len() as int,
            )) == whole,
        decreases left@.len() - left_index,
    {
        proof {
            let l = left@.subrange(left_index as int, left@.len() as int);
            let r = right@.subrange(right_index as int, right@.len() as int);
            assert(l.drop_first() =~= left@.subrange(left_index + 1, left@.len() as int));
            assert(merged@.push(l[0]) + (l.drop_first() + r) =~= merged@ + (l + r));
        }
        merged.push(left[left_index]);
        left_index += 1;
    }
    proof {
        let l = left@.subrange(left_index as int, left@.len() as int);
        assert(l =~= Seq::<T>::empty());
        assert(l + right@.subrange(right_index as int, right@.len() as int) =~= right@.subrange(
            right_index as int,
            right@.len() as int,
        ));
    }
    while right_index < right.len()
        invariant
            right_index <= right@.len(),
            merged@ + right@.subrange(right_index as int, right@.len() as int) == whole,
        decreases right@.len() - right_index,
    {
        proof {
            let r = right@.subrange(right_index as int, right@.len() as int);
            assert(merged@.push(r[0]) + r.drop_first() =~= merged@ + r);
            assert(r.drop_first() =~= right@.subrange(right_index + 1, right@.len() as int));
        }
        merged.push(right[right_index]);
        right_index += 1;
    }
    proof {
        assert(right@.subrange(right_index as int, right@.len() as int) =~= Seq::<T>::empty());
        assert(merged@ + Seq::<T>::empty() =~= merged@);
    }
    merged
}

/// Sorts `array` in place into non-decreasing order. The sort is stable:
/// elements that compare equal keep their relative order.
pub fn merge_sort<T: Ord + Copy>(array: &mut Vec<T>)
    requires
        obeys_cmp::<T>(),
    ensures
        final(array)@ == sort_of(old(array)@),
        stably_sorts(old(array)@, final(array)@),
        sorted(old(array)@) ==> final(array)@ == old(array)@,
    decreases old(array)@.len(),
{
    proof {
        lemma_sort_stably(array@);
        if sorted(array@) {
            lemma_sort_of_sorted(array@);
        }
    }
    let len = array.len();
    if len <= 1 {
        return;
    }
    let mid = len / 2;
    let mut left_half = copy_range(array, 0, mid);
    let mut right_half = copy_range(array, mid, len);
    merge_sort(&mut left_half);
    merge_sort(&mut right_half);
    let merged = merge(left_half.as_slice(), right_half.as_slice());
    *array = merged;
}

/// A copy of `array[start..end]`.
fn copy_range<T: Copy>(array: &Vec<T>, start: usize, end: usize) -> (part: Vec<T>)
    requires
        start <= end <= array@.len(),
    ensures
        part@ == array@.subrange(start as int, end as int),
{
    let mut part: Vec<T> = Vec::new();
    let mut i: usize = start;
    while i < end
        invariant
            start <= i <= end <= array@.len(),
            part@ == array@.subrange(start as int, i as int),
        decreases end - i,
    {
        part.push(array[i]);
        i += 1;
        proof {
            assert(part@ =~= array@.subrange(start as int, i as int));
        }
    }
    part
}

/// Every element of `s` is at least `x`.
pub open spec fn bounded_below<T: PartialOrd>(s: Seq<T>, x: T) -> bool {
    forall|k: int| 0 <= k < s.len() ==> less_eq(x, #[trigger] s[k])
}

/// Merging keeps exactly the elements of both inputs.
pub proof fn lemma_merge_multiset<T: PartialOrd>(l: Seq<T>, r: Seq<T>)
    ensures
        merge_of(l, r).to_multiset() == (l + r).to_multiset(),
    decreases l.len() + r.len(),
{
    vstd::seq_lib::lemma_multiset_commutative(l, r);
    if l.len() == 0 {
        assert(l + r == r);
    } else if r.len() == 0 {
        assert(l + r == l);
    } else if less_eq(l[0], r[0]) {
        lemma_merge_multiset(l.drop_first(), r);
        vstd::seq_lib::lemma_multiset_commutative(seq![l[0]], merge_of(l.drop_first(), r));
        vstd::seq_lib::lemma_multiset_commutative(l.drop_first(), r);
        vstd::seq_lib::lemma_multiset_commutative(seq![l[0]], l.drop_first());
        assert(seq![l[0]] + l.drop_first() == l);
    } else {
        lemma_merge_multiset(l, r.drop_first());
        vstd::seq_lib::lemma_multiset_commutative(seq![r[0]], merge_of(l, r.drop_first()));
        vstd::seq_lib::lemma_multiset_commutative(l, r.drop_first());
        vstd::seq_lib::lemma_multiset_commutative(seq![r[0]], r.drop_first());
        assert(seq![r[0]] + r.drop_first() == r);
    }
}

/// A lower bound of both inputs is a lower bound of their merge.
proof fn lemma_merge_bounded<T: PartialOrd>(l: Seq<T>, r: Seq<T>, x: T)
    requires
        bounded_below(l, x),
        bounded_below(r, x),
    ensures
        bounded_below(merge_of(l, r), x),
    decreases l.len() + r.len(),
{
    if l.len() > 0 && r.len() > 0 {
        if less_eq(l[0], r[0]) {
            lemma_merge_bounded(l.drop_first(), r, x);
            let m = merge_of(l, r);
            assert forall|k: int| 0 <= k < m.len() implies less_eq(x, #[trigger] m[k]) by {
                if k > 0 {
                    assert(m[k] == merge_of(l.drop_first(), r)[k - 1]);
                }
            }
        } else {
            lemma_merge_bounded(l, r.drop_first(), x);
            let m = merge_of(l, r);
            assert forall|k: int| 0 <= k < m.len() implies less_eq(x, #[trigger] m[k]) by {
                if k > 0 {
                    assert(m[k] == merge_of(l, r.drop_first())[k - 1]);
                }
            }
        }
    }
}

/// The merge of two sorted sequences is sorted.
pub proof fn lemma_merge_sorted<T: Ord>(l: Seq<T>, r: Seq<T>)
    requires
        obeys_cmp::<T>(),
        sorted(l),
        sorted(r),
    ensures
        sorted(merge_of(l, r)),
    decreases l.len() + r.len(),
{
    lemma_total_order::<T>();
    if l.len() > 0 && r.len() > 0 {
        let m = merge_of(l, r);
        if less_eq(l[0], r[0]) {
            let rest = merge_of(l.drop_first(), r);
            lemma_merge_sorted(l.drop_first(), r);
            assert forall|k: int| 0 <= k < r.len() implies less_eq(l[0], #[trigger] r[k]) by {
                if k > 0 {
                    assert(less_eq(r[0], r[k]));
                }
            }
            assert forall|k: int| 0 <= k < l.drop_first().len() implies less_eq(
                l[0],
                #[trigger] l.drop_first()[k],
            ) by {
                assert(less_eq(l[0], l[k + 1]));
            }
            lemma_merge_bounded(l.drop_first(), r, l[0]);
            assert forall|i: int, j: int| 0 <= i < j < m.len() implies less_eq(
                #[trigger] m[i],
                #[trigger] m[j],
            ) by {
                assert(m[j] == rest[j - 1]);
                if i > 0 {
                    assert(m[i] == rest[i - 1]);
                }
            }
        } else {
            let rest = merge_of(l, r.drop_first());
            lemma_merge_sorted(l, r.drop_first());
            assert(less(r[0], l[0]));
            assert forall|k: int| 0 <= k < l.len() implies less_eq(r[0], #[trigger] l[k]) by {
                if k > 0 {
                    assert(less_eq(l[0], l[k]));
                }
            }
            assert forall|k: int| 0 <= k < r.drop_first().len() implies less_eq(
                r[0],
                #[trigger] r.drop_first()[k],
            ) by {
                assert(less_eq(r[0], r[k + 1]));
            }
            lemma_merge_bounded(l, r.drop_first(), r[0]);
            assert forall|i: int, j: int| 0 <= i < j < m.len() implies less_eq(
                #[trigger] m[i],
                #[trigger] m[j],
            ) by {
                assert(m[j] == rest[j - 1]);
                if i > 0 {
                    assert(m[i] == rest[i - 1]);
                }
            }
        }
    }
}

/// No element of `s` compares equal to `x`.
proof fn lemma_class_empty<T: PartialEq>(s: Seq<T>, x: T)
    requires
        forall|k: int| 0 <= k < s.len() ==> !equiv(#[trigger] s[k], x),
    ensures
        class_of(s, x) == Seq::<T>::empty(),
{
    s.lemma_all_neg_filter_empty(equiv_to(x));
    assert(class_of(s, x) =~= Seq::<T>::empty());
}

/// Merging keeps, for each equivalence class, the elements of `l` ahead of
/// those of `r`, each in its original order.
pub proof fn lemma_merge_classes<T: Ord>(l: Seq<T>, r: Seq<T>, x: T)
    requires
        obeys_cmp::<T>(),
        sorted(l),
    ensures
        class_of(merge_of(l, r), x) == class_of(l, x) + class_of(r, x),
    decreases l.len() + r.len(),
{
    lemma_total_order::<T>();
    let p = equiv_to(x);
    if l.len() == 0 {
        assert(l == Seq::<T>::empty());
        lemma_class_empty(l, x);
        assert(class_of(l, x) + class_of(r, x) =~= class_of(r, x));
    } else if r.len() == 0 {
        lemma_class_empty(r, x);
        assert(class_of(l, x) + class_of(r, x) =~= class_of(l, x));
    } else if less_eq(l[0], r[0]) {
        let lt = l.drop_first();
        lemma_merge_classes(lt, r, x);
        Seq::filter_distributes_over_add(seq![l[0]], merge_of(lt, r), p);
        Seq::filter_distributes_over_add(seq![l[0]], lt, p);
        assert(seq![l[0]] + lt == l);
        assert(class_of(merge_of(l, r), x) =~= class_of(l, x) + class_of(r, x));
    } else {
        let rt = r.drop_first();
        lemma_merge_classes(l, rt, x);
        Seq::filter_distributes_over_add(seq![r[0]], merge_of(l, rt), p);
        Seq::filter_distributes_over_add(seq![r[0]], rt, p);
        assert(seq![r[0]] + rt == r);
        let head = seq![r[0]];
        if equiv(r[0], x) {
            assert(less(r[0], l[0]));
            assert forall|k: int| 0 <= k < l.len() implies !equiv(#[trigger] l[k], x) by {
                if k > 0 {
                    assert(less_eq(l[0], l[k]));
                }
                assert(less(r[0], l[k]));
                if equiv(l[k], x) {
                    assert(less_eq(l[k], x));
                    assert(less_eq(x, r[0]));
                    assert(less_eq(l[k], r[0]));
                }
            }
            lemma_class_empty(l, x);
        } else {
            assert forall|k: int| 0 <= k < head.len() implies !equiv(#[trigger] head[k], x) by {
                assert(head[k] == r[0]);
            }
            lemma_class_empty(head, x);
        }
        assert(class_of(merge_of(l, r), x) =~= class_of(l, x) + class_of(r, x));
    }
}

/// Two inputs that already lie in order one after the other merge into
/// their concatenation.
pub proof fn lemma_merge_in_order<T: Ord>(l: Seq<T>, r: Seq<T>)
    requires
        obeys_cmp::<T>(),
        sorted(l + r),
    ensures
        merge_of(l, r) == l + r,
    decreases l.len() + r.len(),
{
    lemma_total_order::<T>();
    if l.len() == 0 {
        assert(l + r =~= r);
    } else if r.len() == 0 {
        assert(l + r =~= l);
    } else {
        let lr = l + r;
        assert(lr[0] == l[0]);
        assert(lr[l.len() as int] == r[0]);
        assert(less_eq(l[0], r[0]));
        let lt = l.drop_first();
        assert(lt + r =~= lr.drop_first());
        assert forall|i: int, j: int| 0 <= i < j < (lt + r).len() implies less_eq(
            #[trigger] (lt + r)[i],
            #[trigger] (lt + r)[j],
        ) by {
            assert(less_eq(lr[i + 1], lr[j + 1]));
        }
        lemma_merge_in_order(lt, r);
        assert(seq![l[0]] + (lt + r) =~= l + r);
    }
}

/// Merge sort returns a stable, sorted rearrangement of its input.
pub proof fn lemma_sort_stably<T: Ord>(s: Seq<T>)
    requires
        obeys_cmp::<T>(),
    ensures
        stably_sorts(s, sort_of(s)),
    decreases s.len(),
{
    if s.len() > 1 {
        let mid = s.len() as int / 2;
        let a = s.subrange(0, mid);
        let b = s.subrange(mid, s.len() as int);
        let sa = sort_of(a);
        let sb = sort_of(b);
        lemma_sort_stably(a);
        lemma_sort_stably(b);
        assert(a + b =~= s);
        lemma_merge_sorted(sa, sb);
        lemma_merge_multiset(sa, sb);
        vstd::seq_lib::lemma_multiset_commutative(sa, sb);
        vstd::seq_lib::lemma_multiset_commutative(a, b);
        assert forall|x: T| #[trigger] class_of(sort_of(s), x) == class_of(s, x) by {
            lemma_merge_classes(sa, sb, x);
            Seq::filter_distributes_over_add(sa, sb, equiv_to(x));
            Seq::filter_distributes_over_add(a, b, equiv_to(x));
            assert(class_of(sa, x) == class_of(a, x));
            assert(class_of(sb, x) == class_of(b, x));
        }
    }
}

/// Merge sort leaves an already sorted sequence as it is.
pub proof fn lemma_sort_of_sorted<T: Ord>(s: Seq<T>)
    requires
        obeys_cmp::<T>(),
        sorted(s),
    ensures
        sort_of(s) == s,
    decreases s.len(),
{
    if s.len() > 1 {
        let mid = s.len() as int / 2;
        let a = s.subrange(0, mid);
        let b = s.subrange(mid, s.len() as int);
        assert(sorted(a)) by {
            assert forall|i: int, j: int| 0 <= i < j < a.len() implies less_eq(
                #[trigger] a[i],
                #[trigger] a[j],
            ) by {
                assert(less_eq(s[i], s[j]));
            }
        }
        assert(sorted(b)) by {
            assert forall|i: int, j: int| 0 <= i < j < b.len() implies less_eq(
                #[trigger] b[i],
                #[trigger] b[j],
            ) by {
                assert(less_eq(s[i + mid], s[j + mid]));
            }
        }
        lemma_sort_of_sorted(a);
        lemma_sort_of_sorted(b);
        assert(a + b =~= s);
        lemma_merge_in_order(a, b);
    }
}

/// Sorting twice gives the same sequence as sorting once.
pub proof fn lemma_sort_idempotent<T: Ord>(s: Seq<T>)
    requires
        obeys_cmp::<T>(),
    ensures
        sort_of(sort_of(s)) == sort_of(s),
{
    lemma_sort_stably(s);
    lemma_sort_of_sorted(sort_of(s));
}

} // verus!
