use basemod_extract::resolve_positions;

#[test]
fn sixth_and_ninth_occurrence() {
    let seq = b"AACGATAACGAAACGATAACGA";
    assert_eq!(seq.iter().filter(|b| **b == b'A').count(), 12);
    let positions = resolve_positions(seq, b'A', &[5, 2]);
    assert_eq!(positions, Some(vec![10, 15]));
}

#[test]
fn zero_distances_take_consecutive_occurrences() {
    let positions = resolve_positions(b"AACGATAACGA", b'A', &[0, 0, 0]);
    assert_eq!(positions, Some(vec![0, 1, 4]));
}

#[test]
fn distances_count_only_the_groups_base() {
    let positions = resolve_positions(b"AACGATAACGAAACGATAACGA", b'C', &[1, 0, 0]);
    assert_eq!(positions, Some(vec![8, 13, 19]));
}

#[test]
fn no_distance_gives_no_position() {
    assert_eq!(resolve_positions(b"ACGT", b'A', &[]), Some(vec![]));
    assert_eq!(resolve_positions(b"", b'A', &[]), Some(vec![]));
}

#[test]
fn last_occurrence_can_be_taken() {
    assert_eq!(resolve_positions(b"CCA", b'A', &[0]), Some(vec![2]));
    assert_eq!(resolve_positions(b"ACA", b'A', &[1]), Some(vec![2]));
}

#[test]
fn too_many_distances_are_inconsistent() {
    assert_eq!(resolve_positions(b"ACA", b'A', &[0, 0, 0]), None);
    assert_eq!(resolve_positions(b"ACA", b'A', &[2]), None);
    assert_eq!(resolve_positions(b"", b'A', &[0]), None);
    assert_eq!(resolve_positions(b"CCGT", b'A', &[0]), None);
}

#[test]
fn negative_distance_is_never_reached() {
    assert_eq!(resolve_positions(b"AAAA", b'A', &[-1]), None);
    assert_eq!(resolve_positions(b"AAAA", b'A', &[0, -3]), None);
}

#[test]
fn resolved_positions_are_one_per_distance_and_ascending() {
    let seq = b"GATTACAGATTACAGATTACAAAGGGTTTCCCAAA";
    let distances = [1, 0, 2, 0, 0, 3];
    let positions = resolve_positions(seq, b'A', &distances).unwrap();
    assert_eq!(positions.len(), distances.len());
    for pair in positions.windows(2) {
        assert!(pair[0] < pair[1]);
    }
    for p in &positions {
        assert_eq!(seq[*p as usize], b'A');
    }
    assert_eq!(positions, vec![4, 6, 13, 15, 18, 32]);
}
