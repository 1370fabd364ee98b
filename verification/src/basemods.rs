//! The modification calls of a record, group by group.

use vstd::pervasive::unreached;
use vstd::prelude::*;
use crate::fault::DecodeFault;
use crate::liftover::{
    blocks_ascend, lemma_lift_keeps_order, lift_all, liftover_exact, UNRESOLVED,
};
use crate::offsets::{ints, strictly_increasing};
use crate::record::{AlignmentRecord, AuxValue, RecordModel};
use crate::resolve::{
    is_resolution, lemma_resolution_increasing, resolution, resolvable, resolve_positions,
};
use crate::strand::{lemma_project_keeps_order, positions_on_complimented_sequence, project};
use crate::tag::{decode_tag, distances_fit, group_models, tag_groups, TagGroup, TagGroupModel};

verus! {

/// The modified bases of one group of a record's modification tag.
#[derive(Clone, Debug, PartialEq, Eq)]
pub struct BaseMods {
    /// The canonical base the modification is defined on.
    pub modified_base: u8,
    /// The strand sign of the group, `+` or `-`.
    pub strand: char,
    /// The first character of the modification code.
    pub modification_type: char,
    /// The offsets of the modified bases on the forward read, ascending.
    pub modified_positions: Vec<i64>,
    /// Their reference coordinates, in the order of the alignment; each is
    /// [`crate::liftover::UNRESOLVED`] where the base is not aligned.
    pub modified_reference_positions: Vec<i64>,
}

/// The mathematical value of a [`BaseMods`].
pub struct BaseModsModel {
    pub modified_base: u8,
    pub strand: char,
    pub modification_type: char,
    pub modified_positions: Seq<int>,
    pub modified_reference_positions: Seq<int>,
}

impl View for BaseMods {
    type V = BaseModsModel;

    open spec fn view(&self) -> BaseModsModel {
        BaseModsModel {
            modified_base: self.modified_base,
            strand: self.strand,
            modification_type: self.modification_type,
            modified_positions: ints(self.modified_positions@),
            modified_reference_positions: ints(self.modified_reference_positions@),
        }
    }
}

/// The models of a sequence of groups, in order.
pub open spec fn base_mods_models(groups: Seq<BaseMods>) -> Seq<BaseModsModel> {
    groups.map_values(|g: BaseMods| g@)
}

impl RecordModel {
    /// The groups of the modification tag; none where the record has no tag.
    pub open spec fn tag_groups(self) -> Seq<TagGroupModel> {
        match self.tag_text() {
            Some(text) => tag_groups(text, 0),
            None => Seq::empty(),
        }
    }

    /// The read has occurrences of the group's base for all its distances.
    pub open spec fn group_resolvable(self, group: TagGroupModel) -> bool {
        resolvable(self.forward_bases(), group.modified_base, group.distances)
    }

    /// Some group of the tag has distances that the read has no room for.
    pub open spec fn inconsistent(self) -> bool {
        exists|g: int|
            0 <= g < self.tag_groups().len() && !self.group_resolvable(
                #[trigger] self.tag_groups()[g],
            )
    }

    /// Why the modification calls cannot be decoded, if they cannot: a
    /// distance beyond `i64` anywhere in the tag comes first, then a group
    /// whose distances the read has no room for.
    pub open spec fn fault(self) -> Option<DecodeFault> {
        if !distances_fit(self.tag_groups()) {
            Some(DecodeFault::Malformed)
        } else if self.inconsistent() {
            Some(DecodeFault::Inconsistent)
        } else {
            None
        }
    }

    /// Offsets on the forward read, moved to the direction of the alignment
    /// and lifted to the reference.
    pub open spec fn reference_positions(self, positions: Seq<int>) -> Seq<int> {
        lift_all(self.blocks, project(self.reverse, self.seq.len() as int, positions))
    }

    /// The modified bases that `group` calls on this record.
    pub open spec fn group_mods(self, group: TagGroupModel) -> BaseModsModel {
        let positions = resolution(self.forward_bases(), group.modified_base, group.distances);
        BaseModsModel {
            modified_base: group.modified_base,
            strand: group.strand,
            modification_type: group.modification_type,
            modified_positions: positions,
            modified_reference_positions: self.reference_positions(positions),
        }
    }

    /// The modified bases of the record, one entry for each group of its
    /// tag, in the order of the tag.
    pub open spec fn base_mods(self) -> Seq<BaseModsModel> {
        Seq::new(self.tag_groups().len(), |g: int| self.group_mods(self.tag_groups()[g]))
    }
}

/// Of a record whose tag can be decoded, every group has one offset for
/// each of its distances, on the read and strictly increasing, and one
/// reference coordinate for each offset.
pub proof fn lemma_group_mods_shape(record: RecordModel, g: int)
    requires
        record.fault() is None,
        0 <= g < record.tag_groups().len(),
    ensures
        record.base_mods()[g].modified_positions.len() == record.tag_groups()[g].distances.len(),
        record.base_mods()[g].modified_reference_positions.len()
            == record.base_mods()[g].modified_positions.len(),
        strictly_increasing(record.base_mods()[g].modified_positions),
        forall|k: int|
            0 <= k < record.base_mods()[g].modified_positions.len() ==> 0
                <= #[trigger] record.base_mods()[g].modified_positions[k] < record.seq.len(),
        is_resolution(
            record.forward_bases(),
            record.tag_groups()[g].modified_base,
            record.tag_groups()[g].distances,
            record.base_mods()[g].modified_positions,
        ),
{
    let group = record.tag_groups()[g];
    assert(record.group_resolvable(group));
    let positions = resolution(record.forward_bases(), group.modified_base, group.distances);
    lemma_resolution_increasing(
        record.forward_bases(),
        group.modified_base,
        group.distances,
        positions,
    );
}

/// Of a record whose tag can be decoded and whose blocks follow one
/// another, the reference coordinates of a group ascend over the modified
/// bases that lie on aligned bases.
pub proof fn lemma_reference_positions_ascend(record: RecordModel, g: int, i: int, j: int)
    requires
        record.wf(),
        record.fault() is None,
        blocks_ascend(record.blocks),
        0 <= g < record.tag_groups().len(),
        0 <= i < j < record.base_mods()[g].modified_reference_positions.len(),
        record.base_mods()[g].modified_reference_positions[i] != UNRESOLVED,
        record.base_mods()[g].modified_reference_positions[j] != UNRESOLVED,
    ensures
        record.base_mods()[g].modified_reference_positions[i]
            < record.base_mods()[g].modified_reference_positions[j],
{
    lemma_group_mods_shape(record, g);
    let positions = record.base_mods()[g].modified_positions;
    let offsets = project(record.reverse, record.seq.len() as int, positions);
    lemma_project_keeps_order(record.reverse, record.seq.len() as int, positions);
    lemma_lift_keeps_order(record.blocks, offsets[i], offsets[j]);
}

/// The groups of the modification tag of `record`.
fn record_tag_groups(record: &AlignmentRecord) -> (r: Result<Vec<TagGroup>, DecodeFault>)
    ensures
        match r {
            Ok(groups) => distances_fit(record@.tag_groups()) && group_models(groups@)
                == record@.tag_groups(),
            Err(fault) => fault == DecodeFault::Malformed && !distances_fit(
                record@.tag_groups(),
            ),
        },
{
    let key: [u8; 2] = ['M' as u8, 'M' as u8];
    match record.aux_value(&key) {
        Some(AuxValue::Text(text)) => decode_tag(text.as_slice()),
        _ => {
            let groups: Vec<TagGroup> = Vec::new();
            proof {
                assert(group_models(groups@) =~= Seq::<TagGroupModel>::empty());
            }
            Ok(groups)
        },
    }
}

impl BaseMods {
    /// Decodes the modification calls of `record`.
    ///
    /// Returns one entry for each group of the record's modification tag, in
    /// the order of the tag, with the offsets of the modified bases on the
    /// forward read and their reference coordinates; no entry where the
    /// record has no tag. Returns the fault where the tag cannot be decoded.
    pub fn try_new(record: &AlignmentRecord) -> (r: Result<Vec<BaseMods>, DecodeFault>)
        requires
            record@.wf(),
        ensures
            match r {
                Ok(groups) => record@.fault() is None && base_mods_models(groups@)
                    == record@.base_mods(),
                Err(fault) => record@.fault() == Some(fault),
            },
    {
        let groups = match record_tag_groups(record) {
            Ok(groups) => groups,
            Err(fault) => {
                return Err(fault);
            },
        };
        let forward = record.forward_bases();
        let ghost wanted = record@.base_mods();
        let mut mods: Vec<BaseMods> = Vec::new();
        let mut g: usize = 0;
        while g < groups.len()
            invariant
                g <= groups.len(),
                record@.wf(),
                forward@ == record@.forward_bases(),
                forward.len() == record.seq.len(),
                group_models(groups@) == record@.tag_groups(),
                wanted == record@.base_mods(),
                base_mods_models(mods@) == wanted.take(g as int),
                forall|i: int|
                    0 <= i < g ==> record@.group_resolvable(#[trigger] record@.tag_groups()[i]),
            decreases groups.len() - g,
        {
            let group = &groups[g];
            assert(record@.tag_groups()[g as int] == group@);
            let positions = match resolve_positions(
                forward.as_slice(),
                group.modified_base,
                group.distances.as_slice(),
            ) {
                Some(positions) => positions,
                None => {
                    return Err(DecodeFault::Inconsistent);
                },
            };
            proof {
                lemma_resolution_increasing(
                    forward@,
                    group.modified_base,
                    ints(group.distances@),
                    ints(positions@),
                );
                assert forall|i: int| 0 <= i < positions.len() implies record.seq.len()
                    - #[trigger] positions[i] <= i64::MAX by {
                    assert(0 <= ints(positions@)[i]);
                }
            }
            let mut entry = BaseMods {
                modified_base: group.modified_base,
                strand: group.strand,
                modification_type: group.modification_type,
                modified_positions: positions,
                modified_reference_positions: Vec::new(),
            };
            entry.add_reference_positions(record);
            proof {
                assert(entry@ == record@.group_mods(group@));
                assert(base_mods_models(mods@.push(entry)) =~= base_mods_models(mods@).push(
                    entry@,
                ));
                assert(wanted.take(g as int).push(wanted[g as int]) =~= wanted.take(g as int + 1));
            }
            mods.push(entry);
            g += 1;
        }
        proof {
            assert(wanted.take(g as int) =~= wanted);
        }
        Ok(mods)
    }

    /// Decodes the modification calls of a record whose tag can be decoded:
    /// one entry for each group of the tag, in the order of the tag.
    pub fn new(record: &AlignmentRecord) -> (groups: Vec<BaseMods>)
        requires
            record@.wf(),
            record@.fault() is None,
        ensures
            base_mods_models(groups@) == record@.base_mods(),
    {
        match BaseMods::try_new(record) {
            Ok(groups) => groups,
            Err(_) => unreached(),
        }
    }

    /// Sets the reference coordinates of the modified bases from their
    /// offsets on the forward read and the alignment of `record`.
    pub fn add_reference_positions(&mut self, record: &AlignmentRecord)
        requires
            record@.wf(),
            record.reverse ==> forall|i: int|
                0 <= i < old(self).modified_positions.len() ==> record.seq.len()
                    - #[trigger] old(self).modified_positions[i] <= i64::MAX,
        ensures
            final(self)@ == (BaseModsModel {
                modified_reference_positions: record@.reference_positions(
                    old(self)@.modified_positions,
                ),
                ..old(self)@
            }),
    {
        let positions = positions_on_complimented_sequence(
            record,
            self.modified_positions.as_slice(),
        );
        self.modified_reference_positions = liftover_exact(record, positions.as_slice());
    }
}

} // verus!
