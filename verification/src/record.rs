//! The alignment record as this crate reads it: bases, flags, auxiliary
//! fields and the ungapped blocks of the alignment.

use vstd::prelude::*;
use crate::offsets::{ints, lemma_ints_push};

verus! {

/// One ungapped stretch of an alignment: the read offsets
/// `query_start..query_end` lie, base by base, on the reference coordinates
/// that start at `ref_start`.
#[derive(Clone, Copy, Debug, PartialEq, Eq)]
pub struct AlignedBlock {
    pub query_start: i64,
    pub query_end: i64,
    pub ref_start: i64,
}

impl AlignedBlock {
    /// The block spans a range of read offsets that starts at or after zero,
    /// and its reference range starts at or after zero and ends within `i64`.
    pub open spec fn wf(self) -> bool {
        &&& 0 <= self.query_start <= self.query_end
        &&& 0 <= self.ref_start
        &&& self.ref_start + (self.query_end - self.query_start) <= i64::MAX
    }

    /// Whether `offset` is one of the read offsets of this block.
    pub open spec fn holds(self, offset: int) -> bool {
        self.query_start <= offset < self.query_end
    }

    /// Tests [`AlignedBlock::wf`].
    pub fn is_well_formed(&self) -> (ok: bool)
        ensures
            ok == self.wf(),
    {
        0 <= self.query_start && self.query_start <= self.query_end && 0 <= self.ref_start
            && self.query_end - self.query_start <= i64::MAX - self.ref_start
    }
}

/// The value of an auxiliary field, as far as this crate tells values apart.
#[derive(Clone, Debug, PartialEq, Eq)]
pub enum AuxValue {
    /// A string value.
    Text(Vec<u8>),
    /// An array of unsigned 32-bit numbers.
    ArrayU32(Vec<u32>),
    /// A value of any other type.
    Other,
}

/// The mathematical value of an [`AuxValue`].
pub enum AuxModel {
    Text(Seq<u8>),
    ArrayU32(Seq<u32>),
    Other,
}

impl View for AuxValue {
    type V = AuxModel;

    open spec fn view(&self) -> AuxModel {
        match self {
            AuxValue::Text(text) => AuxModel::Text(text@),
            AuxValue::ArrayU32(values) => AuxModel::ArrayU32(values@),
            AuxValue::Other => AuxModel::Other,
        }
    }
}

/// An auxiliary field of a record: a two-character key and a value.
#[derive(Clone, Debug, PartialEq, Eq)]
pub struct AuxField {
    pub tag: [u8; 2],
    pub value: AuxValue,
}

/// The mathematical value of an [`AuxField`].
pub struct AuxFieldModel {
    pub tag: (u8, u8),
    pub value: AuxModel,
}

impl View for AuxField {
    type V = AuxFieldModel;

    open spec fn view(&self) -> AuxFieldModel {
        AuxFieldModel { tag: (self.tag@[0], self.tag@[1]), value: self.value@ }
    }
}

/// An aligned read.
#[derive(Clone, Debug, PartialEq, Eq)]
pub struct AlignmentRecord {
    /// The bases as the alignment stores them: for a read on the reverse
    /// strand, the reverse complement of what was sequenced.
    pub seq: Vec<u8>,
    /// The read aligned to the reverse strand.
    pub reverse: bool,
    /// The read has no alignment.
    pub unmapped: bool,
    /// The auxiliary fields, in the order of the record.
    pub aux: Vec<AuxField>,
    /// The ungapped blocks of the alignment.
    pub blocks: Vec<AlignedBlock>,
}

/// The mathematical value of an [`AlignmentRecord`].
pub struct RecordModel {
    pub seq: Seq<u8>,
    pub reverse: bool,
    pub unmapped: bool,
    pub aux: Seq<AuxFieldModel>,
    pub blocks: Seq<AlignedBlock>,
}

impl View for AlignmentRecord {
    type V = RecordModel;

    open spec fn view(&self) -> RecordModel {
        RecordModel {
            seq: self.seq@,
            reverse: self.reverse,
            unmapped: self.unmapped,
            aux: self.aux@.map_values(|field: AuxField| field@),
            blocks: self.blocks@,
        }
    }
}

/// The key of the field that carries the modification calls.
pub open spec fn mm_key() -> (u8, u8) {
    ('M' as u8, 'M' as u8)
}

/// The value of the first field from index `from` on whose key is `tag`.
pub open spec fn aux_from(aux: Seq<AuxFieldModel>, tag: (u8, u8), from: int) -> Option<AuxModel>
    decreases aux.len() - from,
{
    if from < 0 || from >= aux.len() {
        None
    } else if aux[from].tag == tag {
        Some(aux[from].value)
    } else {
        aux_from(aux, tag, from + 1)
    }
}

impl RecordModel {
    /// The read is no longer than `i64` can count, and every block is well
    /// formed.
    pub open spec fn wf(self) -> bool {
        &&& self.seq.len() <= i64::MAX
        &&& forall|k: int| 0 <= k < self.blocks.len() ==> (#[trigger] self.blocks[k]).wf()
    }

    /// The value of the first field whose key is `tag`.
    pub open spec fn aux_value(self, tag: (u8, u8)) -> Option<AuxModel> {
        aux_from(self.aux, tag, 0)
    }

    /// The text of the modification tag, where the record has one and it is
    /// a string.
    pub open spec fn tag_text(self) -> Option<Seq<u8>> {
        match self.aux_value(mm_key()) {
            Some(AuxModel::Text(text)) => Some(text),
            _ => None,
        }
    }

    /// The numbers of the field `tag`, where the record has it and it is an
    /// array of unsigned 32-bit numbers; else none.
    pub open spec fn u32_array(self, tag: (u8, u8)) -> Seq<int> {
        match self.aux_value(tag) {
            Some(AuxModel::ArrayU32(values)) => values.map_values(|v: u32| v as int),
            _ => Seq::empty(),
        }
    }
}

impl AlignmentRecord {
    /// Tests [`RecordModel::wf`].
    pub fn is_well_formed(&self) -> (ok: bool)
        ensures
            ok == self@.wf(),
    {
        if self.seq.len() as u64 > i64::MAX as u64 {
            return false;
        }
        let mut k: usize = 0;
        while k < self.blocks.len()
            invariant
                k <= self.blocks.len(),
                forall|i: int| 0 <= i < k ==> (#[trigger] self.blocks@[i]).wf(),
            decreases self.blocks.len() - k,
        {
            if !self.blocks[k].is_well_formed() {
                assert(!self@.blocks[k as int].wf());
                return false;
            }
            k += 1;
        }
        true
    }

    /// The value of the first field whose key is `tag`.
    pub fn aux_value(&self, tag: &[u8; 2]) -> (r: Option<&AuxValue>)
        ensures
            match r {
                Some(value) => self@.aux_value((tag@[0], tag@[1])) == Some(value@),
                None => self@.aux_value((tag@[0], tag@[1])) is None,
            },
    {
        let ghost key = (tag@[0], tag@[1]);
        let mut k: usize = 0;
        while k < self.aux.len()
            invariant
                k <= self.aux.len(),
                key == (tag@[0], tag@[1]),
                aux_from(self@.aux, key, 0) == aux_from(self@.aux, key, k as int),
            decreases self.aux.len() - k,
        {
            let field = &self.aux[k];
            assert(self@.aux[k as int] == field@);
            if field.tag[0] == tag[0] && field.tag[1] == tag[1] {
                return Some(&field.value);
            }
            k += 1;
        }
        None
    }
}

/// The numbers of the field `tag` of a record: those of the first field
/// with that key, where it is an array of unsigned 32-bit numbers; none
/// where the record has no such field or its value is of another type.
pub fn get_u32_tag(record: &AlignmentRecord, tag: &[u8; 2]) -> (values: Vec<i64>)
    ensures
        ints(values@) == record@.u32_array((tag@[0], tag@[1])),
{
    match record.aux_value(tag) {
        Some(AuxValue::ArrayU32(array)) => {
            let ghost wanted = array@.map_values(|v: u32| v as int);
            let mut values: Vec<i64> = Vec::new();
            let mut k: usize = 0;
            while k < array.len()
                invariant
                    k <= array.len(),
                    wanted == array@.map_values(|v: u32| v as int),
                    ints(values@) == wanted.take(k as int),
                decreases array.len() - k,
            {
                proof {
                    lemma_ints_push(values@, array@[k as int] as i64);
                    assert(wanted.take(k as int).push(wanted[k as int]) =~= wanted.take(
                        k as int + 1,
                    ));
                }
                values.push(array[k] as i64);
                k += 1;
            }
            proof {
                assert(wanted.take(k as int) =~= wanted);
            }
            values
        },
        _ => {
            let values: Vec<i64> = Vec::new();
            proof {
                assert(ints(values@) =~= Seq::<int>::empty());
            }
            values
        },
    }
}

} // verus!
