//! Sequences of offsets, as the contracts of this crate speak of them.

use vstd::prelude::*;

verus! {

/// The mathematical integers that a sequence of `i64` holds.
pub open spec fn ints(values: Seq<i64>) -> Seq<int> {
    values.map_values(|v: i64| v as int)
}

/// Each element is less than the one behind it.
pub open spec fn strictly_increasing(values: Seq<int>) -> bool {
    forall|i: int, j: int| 0 <= i < j < values.len() ==> values[i] < values[j]
}

/// Appending to what is held appends to the integers.
pub proof fn lemma_ints_push(values: Seq<i64>, value: i64)
    ensures
        ints(values.push(value)) == ints(values).push(value as int),
{
    assert(ints(values.push(value)) =~= ints(values).push(value as int));
}

} // verus!
