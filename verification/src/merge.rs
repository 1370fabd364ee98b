//! Merging two lists into one sorted list.

use core::cmp::Ordering;
use vstd::laws_cmp::{
    obeys_cmp, obeys_cmp_ord, obeys_cmp_partial_ord, obeys_partial_cmp_spec_properties,
};
use vstd::laws_eq::{obeys_concrete_eq, obeys_eq_spec_properties};
use vstd::prelude::*;
use vstd::relations::{sorted_by, total_ordering};
use vstd::seq_lib::lemma_sorted_unique;
use vstd::std_specs::cmp::{OrdSpec, PartialEqSpec, PartialOrdSpec};

verus! {

/// `a` does not come behind `b` in the order of `T`.
pub open spec fn at_most<T: Ord>(a: T, b: T) -> bool {
    a.cmp_spec(&b) != Ordering::Greater
}

/// No element comes behind a later one.
pub open spec fn sorted<T: Ord>(values: Seq<T>) -> bool {
    forall|i: int, j: int| 0 <= i <= j < values.len() ==> at_most(values[i], values[j])
}

/// Where equal elements of `T` are the same element, a sorted list is
/// determined by what it holds: two sorted lists with the same elements,
/// each as often in the one as in the other, are the same list.
pub proof fn lemma_sorted_is_determined<T: Ord>(a: Seq<T>, b: Seq<T>)
    requires
        obeys_cmp::<T>(),
        obeys_concrete_eq::<T>(),
        sorted(a),
        sorted(b),
        a.to_multiset() == b.to_multiset(),
    ensures
        a == b,
{
    reveal(obeys_concrete_eq);
    reveal(obeys_eq_spec_properties);
    reveal(obeys_partial_cmp_spec_properties);
    reveal(obeys_cmp_partial_ord);
    reveal(obeys_cmp_ord);
    let leq = |x: T, y: T| at_most(x, y);
    assert forall|x: T, y: T| #[trigger] at_most(x, y) && #[trigger] at_most(y, x) implies x
        == y by {
        assert(x.partial_cmp_spec(&y) == Some(x.cmp_spec(&y)));
        assert(y.partial_cmp_spec(&x) == Some(y.cmp_spec(&x)));
    }
    assert forall|x: T, y: T| #[trigger] at_most(x, y) || #[trigger] at_most(y, x) by {
        assert(x.partial_cmp_spec(&y) == Some(x.cmp_spec(&y)));
        assert(y.partial_cmp_spec(&x) == Some(y.cmp_spec(&x)));
    }
    assert forall|x: T| #[trigger] at_most(x, x) by {
        assert(x.partial_cmp_spec(&x) == Some(x.cmp_spec(&x)));
    }
    assert forall|x: T, y: T, z: T| #[trigger] at_most(x, y) && #[trigger] at_most(y, z) implies at_most(
        x,
        z,
    ) by {
        assert(x.partial_cmp_spec(&y) == Some(x.cmp_spec(&y)));
        assert(y.partial_cmp_spec(&z) == Some(y.cmp_spec(&z)));
        assert(x.partial_cmp_spec(&z) == Some(x.cmp_spec(&z)));
    }
    assert(total_ordering(leq));
    assert(sorted_by(a, leq));
    assert(sorted_by(b, leq));
    lemma_sorted_unique(a, b, leq);
}

/// Calls `sort` of the standard library on the elements of `values`.
///
/// Trusted: where the order of `T` is a total order, the call returns, and
/// it leaves the same elements, each as often as before, in ascending
/// order.
#[verifier::external_body]
fn sort_in_place<T: Ord>(values: &mut Vec<T>)
    requires
        obeys_cmp::<T>(),
    ensures
        sorted(final(values)@),
        final(values)@.to_multiset() == old(values)@.to_multiset(),
{
    values.sort();
}

/// Merges two lists into one sorted list.
///
/// The result holds the elements of `left` and of `right`, each as often as
/// the two together do, in ascending order, whether or not the two were
/// sorted.
pub fn merge_two_lists<T>(left: Vec<T>, right: Vec<T>) -> (merged: Vec<T>) where T: Ord, T: Clone
    requires
        obeys_cmp::<T>(),
    ensures
        sorted(merged@),
        merged@.to_multiset() == (left@ + right@).to_multiset(),
        merged.len() == left.len() + right.len(),
{
    let mut merged = left;
    let mut rest = right;
    merged.append(&mut rest);
    sort_in_place(&mut merged);
    proof {
        merged@.to_multiset_ensures();
        (left@ + right@).to_multiset_ensures();
    }
    merged
}

} // verus!
