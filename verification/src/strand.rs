//! Between the direction of sequencing and the direction of the alignment.
//!
//! The modification tag speaks of the read as it was sequenced. A read that
//! aligned to the reverse strand is stored reverse complemented, so its
//! stored bases are turned back before the tag is applied, and the offsets
//! found are turned again before they are lifted to the reference.

use vstd::prelude::*;
use vstd::slice::slice_to_vec;
use crate::offsets::{ints, lemma_ints_push, strictly_increasing};
use crate::record::{AlignmentRecord, RecordModel};

verus! {

/// The complement of an upper-case nucleotide code, ambiguity codes
/// included; `None` for any other byte.
pub open spec fn code_complement(code: u8) -> Option<u8> {
    if code == 'A' as u8 {
        Some('T' as u8)
    } else if code == 'G' as u8 {
        Some('C' as u8)
    } else if code == 'C' as u8 {
        Some('G' as u8)
    } else if code == 'T' as u8 {
        Some('A' as u8)
    } else if code == 'Y' as u8 {
        Some('R' as u8)
    } else if code == 'R' as u8 {
        Some('Y' as u8)
    } else if code == 'W' as u8 {
        Some('W' as u8)
    } else if code == 'S' as u8 {
        Some('S' as u8)
    } else if code == 'K' as u8 {
        Some('M' as u8)
    } else if code == 'M' as u8 {
        Some('K' as u8)
    } else if code == 'D' as u8 {
        Some('H' as u8)
    } else if code == 'V' as u8 {
        Some('B' as u8)
    } else if code == 'H' as u8 {
        Some('D' as u8)
    } else if code == 'B' as u8 {
        Some('V' as u8)
    } else if code == 'N' as u8 {
        Some('N' as u8)
    } else {
        None
    }
}

/// The complement of a base: that of its nucleotide code, in the case of
/// the base; a byte that is no nucleotide code is its own complement.
pub open spec fn complement(base: u8) -> u8 {
    if code_complement(base) is Some {
        code_complement(base)->0
    } else if base >= 32 && code_complement((base - 32) as u8) is Some {
        (code_complement((base - 32) as u8)->0 + 32) as u8
    } else {
        base
    }
}

/// The bases in reverse order, each replaced by its complement.
pub open spec fn reverse_complement(bases: Seq<u8>) -> Seq<u8> {
    Seq::new(bases.len(), |i: int| complement(bases[bases.len() - 1 - i]))
}

/// Calls `bio::alphabets::dna::revcomp`.
///
/// Trusted: the result has the length of `bases` and holds, in reverse
/// order, the complement of each base, where the complement swaps A with T,
/// C with G, Y with R, K with M, D with H and V with B, in either case, and
/// leaves every other byte as it is.
#[verifier::external_body]
fn revcomp(bases: &[u8]) -> (out: Vec<u8>)
    ensures
        out@ == reverse_complement(bases@),
{
    bio::alphabets::dna::revcomp(bases)
}

impl RecordModel {
    /// The bases in the direction of sequencing.
    pub open spec fn forward_bases(self) -> Seq<u8> {
        if self.reverse {
            reverse_complement(self.seq)
        } else {
            self.seq
        }
    }
}

impl AlignmentRecord {
    /// The bases in the direction of sequencing: the stored bases, reverse
    /// complemented where the read aligned to the reverse strand.
    pub fn forward_bases(&self) -> (bases: Vec<u8>)
        ensures
            bases@ == self@.forward_bases(),
            bases.len() == self.seq.len(),
    {
        if self.reverse {
            revcomp(self.seq.as_slice())
        } else {
            slice_to_vec(self.seq.as_slice())
        }
    }
}

/// Offsets on a read of length `len`, moved between the direction of
/// sequencing and the direction of the alignment: on the reverse strand
/// each offset `p` becomes `len - p` and the order is reversed, on the
/// forward strand nothing changes.
pub open spec fn project(reverse: bool, len: int, offsets: Seq<int>) -> Seq<int> {
    if reverse {
        Seq::new(offsets.len(), |i: int| len - offsets[offsets.len() - 1 - i])
    } else {
        offsets
    }
}

/// Projecting twice on the reverse strand, for one read length, gives the
/// offsets back.
pub proof fn lemma_project_reverse_twice(len: int, offsets: Seq<int>)
    ensures
        project(true, len, project(true, len, offsets)) == offsets,
{
    assert(project(true, len, project(true, len, offsets)) =~= offsets);
}

/// Projecting keeps the number of offsets, and on the reverse strand turns
/// strictly increasing offsets into strictly increasing ones.
pub proof fn lemma_project_keeps_order(reverse: bool, len: int, offsets: Seq<int>)
    requires
        strictly_increasing(offsets),
    ensures
        project(reverse, len, offsets).len() == offsets.len(),
        strictly_increasing(project(reverse, len, offsets)),
{
}

/// Moves offsets on the read of `record` from the direction of sequencing
/// to the direction of the alignment.
pub fn positions_on_complimented_sequence(
    record: &AlignmentRecord,
    input_positions: &[i64],
) -> (positions: Vec<i64>)
    requires
        record.reverse ==> record.seq.len() <= i64::MAX,
        record.reverse ==> forall|i: int|
            0 <= i < input_positions.len() ==> record.seq.len() - #[trigger] input_positions[i]
                <= i64::MAX,
    ensures
        ints(positions@) == project(
            record.reverse,
            record.seq.len() as int,
            ints(input_positions@),
        ),
        positions.len() == input_positions.len(),
{
    if !record.reverse {
        return slice_to_vec(input_positions);
    }
    let seq_len: i64 = record.seq.len() as i64;
    let count: usize = input_positions.len();
    let ghost wanted = project(true, seq_len as int, ints(input_positions@));
    let mut positions: Vec<i64> = Vec::new();
    let mut k: usize = 0;
    while k < count
        invariant
            k <= count == input_positions.len(),
            0 <= seq_len == record.seq.len(),
            forall|i: int|
                0 <= i < input_positions.len() ==> seq_len - #[trigger] input_positions[i]
                    <= i64::MAX,
            wanted == project(true, seq_len as int, ints(input_positions@)),
            ints(positions@) == wanted.take(k as int),
        decreases count - k,
    {
        let p: i64 = input_positions[count - 1 - k];
        proof {
            lemma_ints_push(positions@, (seq_len - p) as i64);
            assert(wanted.take(k as int).push(wanted[k as int]) =~= wanted.take(k as int + 1));
        }
        positions.push(seq_len - p);
        k += 1;
    }
    proof {
        assert(wanted.take(k as int) =~= wanted);
        assert(ints(positions@).len() == positions.len());
    }
    positions
}

} // verus!
