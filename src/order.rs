//! The ordering vocabulary used by the contracts: comparisons as Verus sees
//! them through `PartialOrd` / `PartialEq`, sortedness, and equivalence classes.
use core::cmp::Ordering;
use vstd::laws_cmp::*;
use vstd::laws_eq::*;
use vstd::prelude::*;
use vstd::std_specs::cmp::{OrdSpec, PartialEqSpec, PartialOrdSpec};

verus! {

/// `a` comes strictly before `b`.
pub open spec fn less<T: PartialOrd>(a: T, b: T) -> bool {
    a.partial_cmp_spec(&b) == Some(Ordering::Less)
}

/// `a` comes before `b` or compares equal to it.
pub open spec fn less_eq<T: PartialOrd>(a: T, b: T) -> bool {
    a.partial_cmp_spec(&b) matches Some(Ordering::Less | Ordering::Equal)
}

/// `a` and `b` compare equal.
pub open spec fn equiv<T: PartialEq>(a: T, b: T) -> bool {
    a.eq_spec(&b)
}

/// The sequence is in non-decreasing order.
pub open spec fn sorted<T: PartialOrd>(s: Seq<T>) -> bool {
    forall|i: int, j: int| 0 <= i < j < s.len() ==> less_eq(#[trigger] s[i], #[trigger] s[j])
}

/// The predicate "compares equal to `x`".
pub open spec fn equiv_to<T: PartialEq>(x: T) -> spec_fn(T) -> bool {
    |y: T| equiv(y, x)
}

/// The elements of `s` that compare equal to `x`, in the order they appear in `s`.
pub open spec fn class_of<T: PartialEq>(s: Seq<T>, x: T) -> Seq<T> {
    s.filter(equiv_to(x))
}

/// `b` is `a` rearranged into non-decreasing order, with elements that compare
/// equal kept in their original relative order.
pub open spec fn stably_sorts<T: PartialOrd>(a: Seq<T>, b: Seq<T>) -> bool {
    &&& sorted(b)
    &&& b.to_multiset() == a.to_multiset()
    &&& forall|x: T| #[trigger] class_of(b, x) == class_of(a, x)
}

/// When `T`'s comparison obeys the laws of a total order, the derived relations
/// `less`, `less_eq` and `equiv` behave as expected.
pub proof fn lemma_total_order<T: Ord>()
    requires
        obeys_cmp::<T>(),
    ensures
        T::obeys_eq_spec(),
        T::obeys_partial_cmp_spec(),
        forall|a: T| #[trigger] equiv(a, a),
        forall|a: T, b: T| #[trigger] less_eq(a, b) <==> !less(b, a),
        forall|a: T, b: T| #[trigger] less(a, b) ==> !less_eq(b, a),
        forall|a: T, b: T| #[trigger] equiv(a, b) <==> (less_eq(a, b) && less_eq(b, a)),
        forall|a: T, b: T, c: T|
            #[trigger] less_eq(a, b) && #[trigger] less_eq(b, c) ==> less_eq(a, c),
        forall|a: T, b: T, c: T| #[trigger] less_eq(a, b) && #[trigger] less(b, c) ==> less(a, c),
        forall|a: T, b: T, c: T| #[trigger] less(a, b) && #[trigger] less_eq(b, c) ==> less(a, c),
{
    reveal(obeys_eq_spec_properties);
    reveal(obeys_partial_cmp_spec_properties);
    reveal(obeys_cmp_partial_ord);
    reveal(obeys_cmp_ord);
    assert forall|a: T| #[trigger] equiv(a, a) by {
        assert(a.partial_cmp_spec(&a) == Some(a.cmp_spec(&a)));
    }
    assert forall|a: T, b: T| #[trigger] less_eq(a, b) <==> !less(b, a) by {
        assert(a.partial_cmp_spec(&b) == Some(a.cmp_spec(&b)));
        assert(b.partial_cmp_spec(&a) == Some(b.cmp_spec(&a)));
        if a.eq_spec(&b) {
            assert(b.eq_spec(&a));
        }
    }
    assert forall|a: T, b: T| #[trigger] equiv(a, b) <==> (less_eq(a, b) && less_eq(b, a)) by {
        assert(a.partial_cmp_spec(&b) == Some(a.cmp_spec(&b)));
        assert(b.partial_cmp_spec(&a) == Some(b.cmp_spec(&a)));
        if a.eq_spec(&b) {
            assert(b.eq_spec(&a));
        }
    }
    assert forall|a: T, b: T, c: T| #[trigger] less_eq(a, b) && #[trigger] less_eq(b, c) implies less_eq(a, c) by {
        assert(a.partial_cmp_spec(&c) == Some(a.cmp_spec(&c)));
        assert(c.partial_cmp_spec(&a) == Some(c.cmp_spec(&a)));
        assert(b.partial_cmp_spec(&a) == Some(b.cmp_spec(&a)));
        assert(c.partial_cmp_spec(&b) == Some(c.cmp_spec(&b)));
        if a.eq_spec(&b) && b.eq_spec(&c) {
        } else if a.eq_spec(&b) {
            assert(b.eq_spec(&a));
            if c.partial_cmp_spec(&a) == Some(Ordering::Less) {
                assert(c.partial_cmp_spec(&b) == Some(Ordering::Less));
            }
        } else if b.eq_spec(&c) {
            assert(c.eq_spec(&b));
            if c.partial_cmp_spec(&a) == Some(Ordering::Less) {
                assert(b.partial_cmp_spec(&a) == Some(Ordering::Less));
            }
        }
    }
    assert forall|a: T, b: T, c: T| #[trigger] less_eq(a, b) && #[trigger] less(b, c) implies less(a, c) by {
        assert(a.partial_cmp_spec(&c) == Some(a.cmp_spec(&c)));
        assert(c.partial_cmp_spec(&a) == Some(c.cmp_spec(&a)));
        assert(c.partial_cmp_spec(&b) == Some(c.cmp_spec(&b)));
        if a.eq_spec(&b) {
            assert(b.eq_spec(&a));
            if a.eq_spec(&c) {
                assert(b.eq_spec(&c));
            }
            if c.partial_cmp_spec(&a) == Some(Ordering::Less) {
                assert(c.partial_cmp_spec(&b) == Some(Ordering::Less));
            }
        } else {
            if a.eq_spec(&c) {
                assert(c.eq_spec(&a));
                assert(c.partial_cmp_spec(&b) == Some(Ordering::Less));
            }
            if c.partial_cmp_spec(&a) == Some(Ordering::Less) {
                assert(b.partial_cmp_spec(&a) == Some(Ordering::Less));
            }
        }
    }
    assert forall|a: T, b: T, c: T| #[trigger] less(a, b) && #[trigger] less_eq(b, c) implies less(a, c) by {
        assert(a.partial_cmp_spec(&c) == Some(a.cmp_spec(&c)));
        assert(c.partial_cmp_spec(&a) == Some(c.cmp_spec(&a)));
        assert(b.partial_cmp_spec(&a) == Some(b.cmp_spec(&a)));
        if b.eq_spec(&c) {
            assert(c.eq_spec(&b));
            if a.eq_spec(&c) {
                assert(c.eq_spec(&a));
                assert(b.eq_spec(&a));
            }
            if c.partial_cmp_spec(&a) == Some(Ordering::Less) {
                assert(b.partial_cmp_spec(&a) == Some(Ordering::Less));
            }
        } else {
            if a.eq_spec(&c) {
                assert(c.eq_spec(&a));
                assert(c.partial_cmp_spec(&b) == Some(Ordering::Less));
            }
            if c.partial_cmp_spec(&a) == Some(Ordering::Less) {
                assert(c.partial_cmp_spec(&b) == Some(Ordering::Less));
            }
        }
    }
}

} // verus!
