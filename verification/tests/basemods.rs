use basemod_extract::{
    AlignedBlock, AlignmentRecord, AuxField, AuxValue, BaseMods, DecodeFault, UNRESOLVED,
};

const FORWARD: &[u8] = b"AACGATAACGAAACGATAACGA";
const STORED_REVERSE: &[u8] = b"TCGTTATCGTTTCGTTATCGTT";

fn tagged(seq: &[u8], reverse: bool, tag: &[u8], blocks: Vec<(i64, i64, i64)>) -> AlignmentRecord {
    AlignmentRecord {
        seq: seq.to_vec(),
        reverse,
        unmapped: false,
        aux: vec![
            AuxField { tag: *b"ns", value: AuxValue::ArrayU32(vec![1, 2]) },
            AuxField { tag: *b"MM", value: AuxValue::Text(tag.to_vec()) },
        ],
        blocks: blocks
            .into_iter()
            .map(|(query_start, query_end, ref_start)| AlignedBlock {
                query_start,
                query_end,
                ref_start,
            })
            .collect(),
    }
}

#[test]
fn forward_read_with_one_group() {
    let record = tagged(FORWARD, false, b"A+a,5,2;", vec![(0, 22, 1000)]);
    let mods = BaseMods::try_new(&record).unwrap();
    assert_eq!(mods.len(), 1);
    assert_eq!(mods[0].modified_base, b'A');
    assert_eq!(mods[0].strand, '+');
    assert_eq!(mods[0].modification_type, 'a');
    assert_eq!(mods[0].modified_positions, vec![10, 15]);
    assert_eq!(mods[0].modified_reference_positions, vec![1010, 1015]);
}

#[test]
fn forward_read_with_two_groups() {
    let record = tagged(FORWARD, false, b"C+m,0,2;A-a?,5,2;", vec![(0, 22, 1000)]);
    let mods = BaseMods::new(&record);
    assert_eq!(mods.len(), 2);
    assert_eq!(mods[0].modified_base, b'C');
    assert_eq!(mods[0].strand, '+');
    assert_eq!(mods[0].modification_type, 'm');
    assert_eq!(mods[0].modified_positions, vec![2, 19]);
    assert_eq!(mods[0].modified_reference_positions, vec![1002, 1019]);
    assert_eq!(mods[1].modified_base, b'A');
    assert_eq!(mods[1].strand, '-');
    assert_eq!(mods[1].modification_type, 'a');
    assert_eq!(mods[1].modified_positions, vec![10, 15]);
    assert_eq!(mods[1].modified_reference_positions, vec![1010, 1015]);
}

#[test]
fn reverse_read_is_decoded_in_the_direction_of_sequencing() {
    let record = tagged(STORED_REVERSE, true, b"A+a,5,2;", vec![(0, 10, 100), (12, 22, 200)]);
    let mods = BaseMods::try_new(&record).unwrap();
    assert_eq!(mods.len(), 1);
    assert_eq!(mods[0].modified_positions, vec![10, 15]);
    assert_eq!(mods[0].modified_reference_positions, vec![107, 200]);
}

#[test]
fn reverse_read_with_an_offset_at_the_read_length() {
    let record = tagged(STORED_REVERSE, true, b"C+m,0,2;", vec![(0, 10, 100), (12, 22, 200)]);
    let mods = BaseMods::new(&record);
    assert_eq!(mods[0].modified_positions, vec![2, 19]);
    assert_eq!(mods[0].modified_reference_positions, vec![103, 208]);
    let first = tagged(STORED_REVERSE, true, b"A+a,0;", vec![(0, 22, 500)]);
    let mods = BaseMods::new(&first);
    assert_eq!(mods[0].modified_positions, vec![0]);
    assert_eq!(mods[0].modified_reference_positions, vec![UNRESOLVED]);
}

#[test]
fn bases_off_the_alignment_are_unresolved() {
    let record = tagged(FORWARD, false, b"A+a,0,0,0,0;", vec![(1, 4, 50), (6, 22, 70)]);
    let mods = BaseMods::new(&record);
    assert_eq!(mods[0].modified_positions, vec![0, 1, 4, 6]);
    assert_eq!(mods[0].modified_reference_positions, vec![-1, 50, -1, 70]);
}

#[test]
fn record_without_tag_has_no_group() {
    let mut record = tagged(FORWARD, false, b"", vec![]);
    assert_eq!(BaseMods::try_new(&record).unwrap().len(), 0);
    record.aux.clear();
    assert_eq!(BaseMods::try_new(&record).unwrap().len(), 0);
    assert_eq!(BaseMods::new(&record).len(), 0);
}

#[test]
fn tag_of_another_type_is_no_tag() {
    let mut record = tagged(FORWARD, false, b"A+a,0;", vec![]);
    record.aux = vec![
        AuxField { tag: *b"MM", value: AuxValue::Other },
        AuxField { tag: *b"MM", value: AuxValue::Text(b"A+a,0;".to_vec()) },
    ];
    assert_eq!(BaseMods::try_new(&record).unwrap().len(), 0);
    record.aux = vec![AuxField { tag: *b"MM", value: AuxValue::ArrayU32(vec![0]) }];
    assert_eq!(BaseMods::try_new(&record).unwrap().len(), 0);
}

#[test]
fn group_without_distances_has_no_position() {
    let record = tagged(FORWARD, false, b"C+m;", vec![(0, 22, 0)]);
    let mods = BaseMods::try_new(&record).unwrap();
    assert_eq!(mods.len(), 1);
    assert_eq!(mods[0].modified_positions, Vec::<i64>::new());
    assert_eq!(mods[0].modified_reference_positions, Vec::<i64>::new());
}

#[test]
fn more_distances_than_bases_is_inconsistent() {
    let record = tagged(FORWARD, false, b"C+m,0,0,0,0,0;", vec![(0, 22, 0)]);
    assert_eq!(BaseMods::try_new(&record).err(), Some(DecodeFault::Inconsistent));
    let record = tagged(FORWARD, false, b"A+a,0;T+t,2;", vec![(0, 22, 0)]);
    assert_eq!(BaseMods::try_new(&record).err(), Some(DecodeFault::Inconsistent));
    let record = tagged(b"", false, b"A+a,0;", vec![]);
    assert_eq!(BaseMods::try_new(&record).err(), Some(DecodeFault::Inconsistent));
}

#[test]
fn stored_bases_of_a_reverse_read_are_not_what_the_tag_counts() {
    let record = tagged(STORED_REVERSE, true, b"A+a,0,0,0,0;", vec![]);
    assert_eq!(BaseMods::try_new(&record).unwrap()[0].modified_positions, vec![0, 1, 4, 6]);
    let record = tagged(STORED_REVERSE, false, b"A+a,0,0,0,0;", vec![]);
    assert_eq!(BaseMods::try_new(&record).err(), Some(DecodeFault::Inconsistent));
}

#[test]
fn distance_beyond_the_range_is_reported_first() {
    let record = tagged(FORWARD, false, b"C+m,99999999999999999999;", vec![(0, 22, 0)]);
    assert_eq!(BaseMods::try_new(&record).err(), Some(DecodeFault::Malformed));
    let record = tagged(FORWARD, false, b"T+t,9;C+m,99999999999999999999;", vec![(0, 22, 0)]);
    assert_eq!(BaseMods::try_new(&record).err(), Some(DecodeFault::Malformed));
}

#[test]
fn reference_positions_follow_the_positions() {
    let record = tagged(STORED_REVERSE, true, b"", vec![(0, 10, 100), (12, 22, 200)]);
    let mut mods = BaseMods {
        modified_base: b'A',
        strand: '+',
        modification_type: 'a',
        modified_positions: vec![1, 10, 11, 15, 22],
        modified_reference_positions: vec![7, 7, 7],
    };
    mods.add_reference_positions(&record);
    assert_eq!(mods.modified_positions, vec![1, 10, 11, 15, 22]);
    assert_eq!(mods.modified_reference_positions, vec![100, 107, -1, 200, 209]);
    assert_eq!(mods.modified_base, b'A');
    assert_eq!(mods.strand, '+');
    assert_eq!(mods.modification_type, 'a');
}

#[test]
fn resolved_groups_have_as_many_reference_positions_as_positions() {
    let record = tagged(FORWARD, false, b"A+a,1,1,1;C+m,0;G-g,0,0,0,0;", vec![(2, 9, 40)]);
    for group in BaseMods::new(&record) {
        assert_eq!(group.modified_positions.len(), group.modified_reference_positions.len());
        for pair in group.modified_positions.windows(2) {
            assert!(pair[0] < pair[1]);
        }
    }
}
