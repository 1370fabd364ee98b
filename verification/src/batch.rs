//! Extraction over many records, in chunks of bounded size.

use vstd::pervasive::unreached;
use vstd::prelude::*;
use vstd::slice::slice_to_vec;
use crate::basemods::BaseMods;
use crate::fault::DecodeFault;
use crate::offsets::ints;
use crate::record::{AlignmentRecord, RecordModel};

verus! {

/// How many records make a full chunk.
pub const CHUNK_SIZE: usize = 10000;

impl RecordModel {
    /// What extraction gives for this record: where reference projection
    /// is asked for and the record is mapped, the reference coordinates of
    /// the first group of its tag; else, and where the tag has no group,
    /// nothing.
    pub open spec fn extracted(self, reference: bool) -> Seq<int> {
        if reference && !self.unmapped && self.base_mods().len() > 0 {
            self.base_mods()[0].modified_reference_positions
        } else {
            Seq::empty()
        }
    }

    /// The record is well formed and its tag can be decoded.
    pub open spec fn decodable(self) -> bool {
        self.wf() && self.fault() is None
    }
}

/// Extracts the reference coordinates of the modified bases of `record`:
/// those of the first group of its tag, where `reference` is set and the
/// record is mapped; nothing else. Returns the fault where the tag cannot
/// be decoded, whatever `reference` is and whether or not the record is
/// mapped.
pub fn try_extract_from_record(record: &AlignmentRecord, reference: bool) -> (r: Result<
    Vec<i64>,
    DecodeFault,
>)
    requires
        record@.wf(),
    ensures
        match r {
            Ok(positions) => record@.fault() is None && ints(positions@) == record@.extracted(
                reference,
            ),
            Err(fault) => record@.fault() == Some(fault),
        },
{
    let mods = match BaseMods::try_new(record) {
        Ok(mods) => mods,
        Err(fault) => {
            return Err(fault);
        },
    };
    if reference && !record.unmapped && mods.len() > 0 {
        let first = &mods[0];
        assert(first@ == record@.base_mods()[0]);
        Ok(slice_to_vec(first.modified_reference_positions.as_slice()))
    } else {
        let positions: Vec<i64> = Vec::new();
        assert(ints(positions@) =~= Seq::<int>::empty());
        Ok(positions)
    }
}

/// Extracts the reference coordinates of the modified bases of a record
/// whose tag can be decoded: those of the first group of its tag, where
/// `reference` is set and the record is mapped; nothing else.
pub fn extract_from_record(record: &AlignmentRecord, reference: bool) -> (positions: Vec<i64>)
    requires
        record@.decodable(),
    ensures
        ints(positions@) == record@.extracted(reference),
{
    match try_extract_from_record(record, reference) {
        Ok(positions) => positions,
        Err(_) => unreached(),
    }
}

/// What extraction gives for each record of `records`, in their order.
pub open spec fn extracted_all(records: Seq<AlignmentRecord>, reference: bool) -> Seq<Seq<int>> {
    Seq::new(records.len(), |i: int| records[i]@.extracted(reference))
}

/// The integers of each list of `lists`.
pub open spec fn ints_of_each(lists: Seq<Vec<i64>>) -> Seq<Seq<int>> {
    Seq::new(lists.len(), |i: int| ints(lists[i]@))
}

/// Extracts from every record of a chunk, in the order of the chunk.
pub fn extract_chunk(chunk: &[AlignmentRecord], reference: bool) -> (positions: Vec<Vec<i64>>)
    requires
        forall|i: int| 0 <= i < chunk.len() ==> (#[trigger] chunk[i])@.decodable(),
    ensures
        ints_of_each(positions@) == extracted_all(chunk@, reference),
        positions.len() == chunk.len(),
{
    let ghost wanted = extracted_all(chunk@, reference);
    let mut positions: Vec<Vec<i64>> = Vec::new();
    let mut k: usize = 0;
    while k < chunk.len()
        invariant
            k <= chunk.len(),
            forall|i: int| 0 <= i < chunk.len() ==> (#[trigger] chunk[i])@.decodable(),
            wanted == extracted_all(chunk@, reference),
            ints_of_each(positions@) == wanted.take(k as int),
        decreases chunk.len() - k,
    {
        let one = extract_from_record(&chunk[k], reference);
        proof {
            assert(ints_of_each(positions@.push(one)) =~= ints_of_each(positions@).push(
                ints(one@),
            ));
            assert(wanted.take(k as int).push(wanted[k as int]) =~= wanted.take(k as int + 1));
        }
        positions.push(one);
        k += 1;
    }
    proof {
        assert(wanted.take(k as int) =~= wanted);
        assert(ints_of_each(positions@).len() == positions.len());
    }
    positions
}

/// Gathers the records of a stream into chunks of [`CHUNK_SIZE`].
///
/// Records are handed in one by one; the extractor keeps them until a chunk
/// is full and then hands the chunk out whole. What is left when the stream
/// ends is handed out by [`BatchExtractor::finish`].
pub struct BatchExtractor {
    reference: bool,
    pending: Vec<AlignmentRecord>,
}

impl BatchExtractor {
    /// The chunk that is being filled is never full.
    #[verifier::type_invariant]
    spec fn inv(self) -> bool {
        self.pending.len() < CHUNK_SIZE
    }

    /// The records of the chunk that is being filled, in the order in which
    /// they came.
    pub closed spec fn pending(self) -> Seq<AlignmentRecord> {
        self.pending@
    }

    /// Whether reference projection is asked for.
    pub closed spec fn wants_reference(self) -> bool {
        self.reference
    }

    /// An extractor that holds no record yet.
    pub fn new(reference: bool) -> (extractor: BatchExtractor)
        ensures
            extractor.pending() == Seq::<AlignmentRecord>::empty(),
            extractor.wants_reference() == reference,
    {
        BatchExtractor { reference, pending: Vec::new() }
    }

    /// Whether reference projection is asked for.
    pub fn reference(&self) -> (reference: bool)
        ensures
            reference == self.wants_reference(),
    {
        self.reference
    }

    /// Takes the next record of the stream. Where it fills the chunk, the
    /// chunk is handed out, its records in the order in which they came,
    /// and a new chunk is begun; else the record is kept.
    pub fn push(&mut self, record: AlignmentRecord) -> (full: Option<Vec<AlignmentRecord>>)
        ensures
            final(self).wants_reference() == old(self).wants_reference(),
            old(self).pending().len() < CHUNK_SIZE,
            old(self).pending().len() + 1 == CHUNK_SIZE ==> full is Some && full->0@ == old(
                self,
            ).pending().push(record) && final(self).pending() == Seq::<AlignmentRecord>::empty(),
            old(self).pending().len() + 1 != CHUNK_SIZE ==> full is None && final(self).pending()
                == old(self).pending().push(record),
    {
        proof {
            use_type_invariant(&*self);
        }
        let mut held: Vec<AlignmentRecord> = Vec::new();
        core::mem::swap(&mut self.pending, &mut held);
        held.push(record);
        if held.len() == CHUNK_SIZE {
            Some(held)
        } else {
            self.pending = held;
            None
        }
    }

    /// Ends the stream: hands out the records that are still held, which
    /// are fewer than a full chunk and may be none.
    pub fn finish(self) -> (rest: Vec<AlignmentRecord>)
        ensures
            rest@ == self.pending(),
            rest.len() < CHUNK_SIZE,
    {
        proof {
            use_type_invariant(&self);
        }
        self.pending
    }
}

/// How many chunks a stream of `count` records makes: full ones, and one
/// more for what is left over, if anything is.
pub open spec fn chunk_count(count: int) -> int {
    (count + CHUNK_SIZE - 1) / (CHUNK_SIZE as int)
}

/// The records of chunk `c` of a stream.
pub open spec fn chunk_of(records: Seq<AlignmentRecord>, c: int) -> Seq<AlignmentRecord> {
    records.subrange(
        c * CHUNK_SIZE,
        if (c + 1) * CHUNK_SIZE <= records.len() {
            (c + 1) * CHUNK_SIZE
        } else {
            records.len() as int
        },
    )
}

/// What extraction over a stream gives: for each chunk, in the order of the
/// stream, what extraction gives for each of its records, in their order.
pub open spec fn batch_output(records: Seq<AlignmentRecord>, reference: bool) -> Seq<
    Seq<Seq<int>>,
> {
    Seq::new(
        chunk_count(records.len() as int) as nat,
        |c: int| extracted_all(chunk_of(records, c), reference),
    )
}

/// A stream makes no chunk exactly if it has no record; every chunk but
/// the last holds [`CHUNK_SIZE`] records, the last holds what is left, at
/// least one record; and the chunks hold the records of the stream in its
/// order.
pub proof fn lemma_chunk_lengths(records: Seq<AlignmentRecord>, c: int)
    requires
        0 <= c < chunk_count(records.len() as int),
    ensures
        chunk_count(records.len() as int) == 0 <==> records.len() == 0,
        c + 1 < chunk_count(records.len() as int) ==> chunk_of(records, c).len() == CHUNK_SIZE,
        c + 1 == chunk_count(records.len() as int) ==> chunk_of(records, c).len() == records.len()
            - c * CHUNK_SIZE,
        1 <= chunk_of(records, c).len() <= CHUNK_SIZE,
        forall|j: int|
            0 <= j < chunk_of(records, c).len() ==> #[trigger] chunk_of(records, c)[j]
                == records[c * CHUNK_SIZE + j],
{
}

/// The integers of each list of each chunk of `chunks`.
pub open spec fn ints_of_chunks(chunks: Seq<Vec<Vec<i64>>>) -> Seq<Seq<Seq<int>>> {
    Seq::new(chunks.len(), |c: int| ints_of_each(chunks[c]@))
}

/// Extracts from every record of a stream, chunk by chunk.
///
/// The records are taken in order and gathered into chunks of
/// [`CHUNK_SIZE`]; a chunk is worked through when it is full, and what is
/// left at the end of the stream makes a last, shorter chunk. A stream
/// without records gives no chunk.
pub fn extract_contained(records: Vec<AlignmentRecord>, reference: bool) -> (chunks: Vec<
    Vec<Vec<i64>>,
>)
    requires
        forall|i: int| 0 <= i < records.len() ==> (#[trigger] records[i])@.decodable(),
    ensures
        ints_of_chunks(chunks@) == batch_output(records@, reference),
        chunks.len() == chunk_count(records.len() as int),
{
    let ghost all = records@;
    let ghost wanted = batch_output(all, reference);
    let mut extractor = BatchExtractor::new(reference);
    let mut chunks: Vec<Vec<Vec<i64>>> = Vec::new();
    for record in it: records
        invariant
            all == records@,
            it.seq() == all,
            forall|i: int| 0 <= i < all.len() ==> (#[trigger] all[i])@.decodable(),
            wanted == batch_output(all, reference),
            chunks.len() * CHUNK_SIZE <= it.index(),
            it.index() - chunks.len() * CHUNK_SIZE < CHUNK_SIZE,
            extractor.pending() == all.subrange(chunks.len() * CHUNK_SIZE, it.index() as int),
            extractor.wants_reference() == reference,
            ints_of_chunks(chunks@) == wanted.take(chunks.len() as int),
    {
        let ghost c = chunks.len() as int;
        let ghost i = it.index() as int;
        proof {
            assert(all.subrange(c * CHUNK_SIZE, i).push(record) =~= all.subrange(
                c * CHUNK_SIZE,
                i + 1,
            ));
        }
        match extractor.push(record) {
            Some(chunk) => {
                proof {
                    assert(chunk@ == chunk_of(all, c));
                    assert forall|k: int| 0 <= k < chunk.len() implies (
                    #[trigger] chunk[k])@.decodable() by {
                        assert(chunk[k] == all[c * CHUNK_SIZE + k]);
                    }
                }
                let done = extract_chunk(chunk.as_slice(), extractor.reference());
                proof {
                    assert(ints_of_chunks(chunks@.push(done)) =~= ints_of_chunks(chunks@).push(
                        ints_of_each(done@),
                    ));
                    assert(wanted.take(c).push(wanted[c]) =~= wanted.take(c + 1));
                }
                chunks.push(done);
            },
            None => {},
        }
    }
    let ghost c = chunks.len() as int;
    let rest = extractor.finish();
    if rest.len() > 0 {
        proof {
            assert(rest@ == chunk_of(all, c));
            assert forall|k: int| 0 <= k < rest.len() implies (#[trigger] rest[k])@.decodable() by {
                assert(rest[k] == all[c * CHUNK_SIZE + k]);
            }
        }
        let done = extract_chunk(rest.as_slice(), reference);
        proof {
            assert(ints_of_chunks(chunks@.push(done)) =~= ints_of_chunks(chunks@).push(
                ints_of_each(done@),
            ));
            assert(wanted.take(c).push(wanted[c]) =~= wanted.take(c + 1));
            assert(wanted.take(c + 1) =~= wanted);
        }
        chunks.push(done);
    } else {
        proof {
            assert(wanted.take(c) =~= wanted);
        }
    }
    proof {
        assert(ints_of_chunks(chunks@).len() == chunks.len());
    }
    chunks
}

} // verus!
