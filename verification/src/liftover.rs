//! From offsets on the aligned read to reference coordinates.

use vstd::prelude::*;
use crate::offsets::{ints, lemma_ints_push};
use crate::record::{AlignedBlock, AlignmentRecord};

verus! {

/// What stands for the reference coordinate of an offset that lies on no
/// aligned base.
pub const UNRESOLVED: i64 = -1;

/// The reference coordinate of `offset` in the first block from index
/// `from` on that holds it, [`UNRESOLVED`] if none does.
pub open spec fn lift_from(blocks: Seq<AlignedBlock>, offset: int, from: int) -> int
    decreases blocks.len() - from,
{
    if from < 0 || from >= blocks.len() {
        UNRESOLVED as int
    } else if blocks[from].holds(offset) {
        blocks[from].ref_start + (offset - blocks[from].query_start)
    } else {
        lift_from(blocks, offset, from + 1)
    }
}

/// The reference coordinate of the aligned base at `offset`:
/// [`UNRESOLVED`] if the offset lies in no block.
pub open spec fn lift_exact(blocks: Seq<AlignedBlock>, offset: int) -> int {
    lift_from(blocks, offset, 0)
}

/// The reference coordinates of `offsets`, one for each and in their order.
pub open spec fn lift_all(blocks: Seq<AlignedBlock>, offsets: Seq<int>) -> Seq<int> {
    Seq::new(offsets.len(), |i: int| lift_exact(blocks, offsets[i]))
}

/// From index `from` on: the result is [`UNRESOLVED`] exactly if no block
/// holds the offset, and a resolved one fits `i64` and is not negative.
proof fn lemma_lift_from(blocks: Seq<AlignedBlock>, offset: int, from: int)
    requires
        0 <= from <= blocks.len(),
        forall|k: int| 0 <= k < blocks.len() ==> (#[trigger] blocks[k]).wf(),
    ensures
        lift_from(blocks, offset, from) == UNRESOLVED <==> forall|k: int|
            from <= k < blocks.len() ==> !(#[trigger] blocks[k]).holds(offset),
        lift_from(blocks, offset, from) != UNRESOLVED ==> 0 <= lift_from(blocks, offset, from)
            <= i64::MAX,
    decreases blocks.len() - from,
{
    if from < blocks.len() {
        lemma_lift_from(blocks, offset, from + 1);
        assert(blocks[from].wf());
    }
}

/// An offset is unresolved exactly if it lies in no block; the reference
/// coordinate of a resolved one is not negative and fits `i64`.
pub proof fn lemma_lift_exact(blocks: Seq<AlignedBlock>, offset: int)
    requires
        forall|k: int| 0 <= k < blocks.len() ==> (#[trigger] blocks[k]).wf(),
    ensures
        lift_exact(blocks, offset) == UNRESOLVED <==> forall|k: int|
            0 <= k < blocks.len() ==> !(#[trigger] blocks[k]).holds(offset),
        lift_exact(blocks, offset) != UNRESOLVED ==> 0 <= lift_exact(blocks, offset) <= i64::MAX,
{
    lemma_lift_from(blocks, offset, 0);
}

/// The blocks follow one another, without overlap, on the read and on the
/// reference, as the blocks of one alignment do.
pub open spec fn blocks_ascend(blocks: Seq<AlignedBlock>) -> bool {
    forall|a: int, b: int|
        0 <= a < b < blocks.len() ==> (#[trigger] blocks[a]).query_end <= (
        #[trigger] blocks[b]).query_start && blocks[a].ref_start + (blocks[a].query_end
            - blocks[a].query_start) <= blocks[b].ref_start
}

/// The block that gives a resolved offset its reference coordinate.
proof fn lemma_lifting_block(blocks: Seq<AlignedBlock>, offset: int, from: int) -> (k: int)
    requires
        0 <= from <= blocks.len(),
        forall|k: int| 0 <= k < blocks.len() ==> (#[trigger] blocks[k]).wf(),
        lift_from(blocks, offset, from) != UNRESOLVED,
    ensures
        from <= k < blocks.len(),
        blocks[k].holds(offset),
        lift_from(blocks, offset, from) == blocks[k].ref_start + (offset - blocks[k].query_start),
    decreases blocks.len() - from,
{
    if blocks[from].holds(offset) {
        from
    } else {
        lemma_lifting_block(blocks, offset, from + 1)
    }
}

/// Over blocks that follow one another, lifting keeps the order of the
/// offsets that it resolves: of two resolved offsets the greater has the
/// greater reference coordinate.
pub proof fn lemma_lift_keeps_order(blocks: Seq<AlignedBlock>, low: int, high: int)
    requires
        forall|k: int| 0 <= k < blocks.len() ==> (#[trigger] blocks[k]).wf(),
        blocks_ascend(blocks),
        low < high,
        lift_exact(blocks, low) != UNRESOLVED,
        lift_exact(blocks, high) != UNRESOLVED,
    ensures
        lift_exact(blocks, low) < lift_exact(blocks, high),
{
    let a = lemma_lifting_block(blocks, low, 0);
    let b = lemma_lifting_block(blocks, high, 0);
    assert(blocks[a].wf() && blocks[b].wf());
    if b < a {
        assert(blocks[b].query_end <= blocks[a].query_start);
    } else if a < b {
        assert(blocks[a].ref_start + (blocks[a].query_end - blocks[a].query_start)
            <= blocks[b].ref_start);
    }
}

/// Lifts one offset.
fn lift_one(blocks: &[AlignedBlock], offset: i64) -> (lifted: i64)
    requires
        forall|k: int| 0 <= k < blocks.len() ==> (#[trigger] blocks[k]).wf(),
    ensures
        lifted == lift_exact(blocks@, offset as int),
{
    let mut k: usize = 0;
    while k < blocks.len()
        invariant
            k <= blocks.len(),
            forall|i: int| 0 <= i < blocks.len() ==> (#[trigger] blocks[i]).wf(),
            lift_exact(blocks@, offset as int) == lift_from(blocks@, offset as int, k as int),
        decreases blocks.len() - k,
    {
        let block = &blocks[k];
        assert(block.wf());
        if block.query_start <= offset && offset < block.query_end {
            return block.ref_start + (offset - block.query_start);
        }
        k += 1;
    }
    UNRESOLVED
}

/// Lifts offsets on the aligned read of `record` to reference coordinates:
/// for each offset, in order, the coordinate of the aligned base it lies
/// on, or [`UNRESOLVED`] where it lies on none.
pub fn liftover_exact(record: &AlignmentRecord, positions: &[i64]) -> (lifted: Vec<i64>)
    requires
        record@.wf(),
    ensures
        ints(lifted@) == lift_all(record@.blocks, ints(positions@)),
        lifted.len() == positions.len(),
{
    let ghost wanted = lift_all(record@.blocks, ints(positions@));
    let mut lifted: Vec<i64> = Vec::new();
    let mut k: usize = 0;
    while k < positions.len()
        invariant
            k <= positions.len(),
            record@.wf(),
            wanted == lift_all(record@.blocks, ints(positions@)),
            ints(lifted@) == wanted.take(k as int),
        decreases positions.len() - k,
    {
        let one = lift_one(record.blocks.as_slice(), positions[k]);
        proof {
            lemma_ints_push(lifted@, one);
            assert(wanted.take(k as int).push(wanted[k as int]) =~= wanted.take(k as int + 1));
        }
        lifted.push(one);
        k += 1;
    }
    proof {
        assert(wanted.take(k as int) =~= wanted);
        assert(ints(lifted@).len() == lifted.len());
    }
    lifted
}

} // verus!
