use basemod_extract::{liftover_exact, AlignedBlock, AlignmentRecord, UNRESOLVED};

fn aligned(blocks: Vec<AlignedBlock>) -> AlignmentRecord {
    AlignmentRecord { seq: vec![b'A'; 30], reverse: false, unmapped: false, aux: vec![], blocks }
}

fn block(query_start: i64, query_end: i64, ref_start: i64) -> AlignedBlock {
    AlignedBlock { query_start, query_end, ref_start }
}

#[test]
fn offset_inside_a_block() {
    let record = aligned(vec![block(5, 10, 100)]);
    assert_eq!(liftover_exact(&record, &[7]), vec![102]);
    assert_eq!(liftover_exact(&record, &[5, 9]), vec![100, 104]);
}

#[test]
fn offset_outside_every_block_is_unresolved() {
    let record = aligned(vec![block(5, 10, 100), block(12, 20, 300)]);
    assert_eq!(UNRESOLVED, -1);
    assert_eq!(liftover_exact(&record, &[4, 10, 11, 20, 25]), vec![-1, -1, -1, -1, -1]);
    assert_eq!(liftover_exact(&record, &[-3]), vec![UNRESOLVED]);
}

#[test]
fn offsets_over_several_blocks_keep_their_order() {
    let record = aligned(vec![block(0, 10, 1000), block(12, 22, 2000)]);
    assert_eq!(
        liftover_exact(&record, &[0, 9, 10, 11, 12, 21, 22]),
        vec![1000, 1009, -1, -1, 2000, 2009, -1]
    );
    assert_eq!(liftover_exact(&record, &[21, 0]), vec![2009, 1000]);
}

#[test]
fn no_block_resolves_nothing() {
    let record = aligned(vec![]);
    assert_eq!(liftover_exact(&record, &[0, 1]), vec![-1, -1]);
    assert_eq!(liftover_exact(&record, &[]), Vec::<i64>::new());
}

#[test]
fn empty_block_holds_nothing() {
    let record = aligned(vec![block(3, 3, 50), block(3, 4, 70)]);
    assert_eq!(liftover_exact(&record, &[3]), vec![70]);
}

#[test]
fn block_at_the_end_of_the_coordinate_range() {
    let record = aligned(vec![block(0, 7, i64::MAX - 7)]);
    assert!(record.is_well_formed());
    assert_eq!(liftover_exact(&record, &[6]), vec![i64::MAX - 1]);
}

#[test]
fn well_formed_blocks() {
    assert!(block(0, 0, 0).is_well_formed());
    assert!(block(2, 9, 4).is_well_formed());
    assert!(!block(-1, 9, 4).is_well_formed());
    assert!(!block(9, 2, 4).is_well_formed());
    assert!(!block(2, 9, -4).is_well_formed());
    assert!(!block(0, 8, i64::MAX - 7).is_well_formed());
    assert!(aligned(vec![block(0, 3, 1), block(3, 4, 9)]).is_well_formed());
    assert!(!aligned(vec![block(0, 3, 1), block(4, 3, 9)]).is_well_formed());
}
