use basemod_extract::{positions_on_complimented_sequence, AlignmentRecord};

fn read(seq: &[u8], reverse: bool) -> AlignmentRecord {
    AlignmentRecord { seq: seq.to_vec(), reverse, unmapped: false, aux: vec![], blocks: vec![] }
}

#[test]
fn reverse_strand_of_length_twenty() {
    let record = read(&[b'A'; 20], true);
    assert_eq!(positions_on_complimented_sequence(&record, &[3, 7]), vec![13, 17]);
}

#[test]
fn forward_strand_keeps_offsets() {
    let record = read(&[b'A'; 20], false);
    assert_eq!(positions_on_complimented_sequence(&record, &[3, 7]), vec![3, 7]);
    assert_eq!(positions_on_complimented_sequence(&record, &[]), Vec::<i64>::new());
}

#[test]
fn reverse_strand_twice_gives_offsets_back() {
    let record = read(&[b'C'; 31], true);
    let offsets = vec![0, 1, 5, 8, 13, 21, 30];
    let once = positions_on_complimented_sequence(&record, &offsets);
    assert_eq!(once, vec![1, 10, 18, 23, 26, 30, 31]);
    let twice = positions_on_complimented_sequence(&record, &once);
    assert_eq!(twice, offsets);
}

#[test]
fn reverse_strand_of_empty_input() {
    let record = read(b"ACGT", true);
    assert_eq!(positions_on_complimented_sequence(&record, &[]), Vec::<i64>::new());
    assert_eq!(positions_on_complimented_sequence(&record, &[4]), vec![0]);
    assert_eq!(positions_on_complimented_sequence(&record, &[0]), vec![4]);
}

#[test]
fn forward_bases_of_forward_read_are_the_stored_ones() {
    let record = read(b"AACGATN", false);
    assert_eq!(record.forward_bases(), b"AACGATN".to_vec());
}

#[test]
fn forward_bases_of_reverse_read_are_reverse_complemented() {
    let record = read(b"TCGTTATCGTTTCGTTATCGTT", true);
    assert_eq!(record.forward_bases(), b"AACGATAACGAAACGATAACGA".to_vec());
}

#[test]
fn complement_of_every_nucleotide_code() {
    assert_eq!(read(b"AGCTYRWSKMDVHBN", true).forward_bases(), b"NVDBHKMSWYRAGCT".to_vec());
    assert_eq!(read(b"agctyrwskmdvhbn", true).forward_bases(), b"nvdbhkmswyragct".to_vec());
}

#[test]
fn complement_leaves_other_bytes() {
    assert_eq!(read(b"AcgU-x9", true).forward_bases(), b"9x-UcgT".to_vec());
    let pairs = b"AGCTYRWSKMDVHBNagctyrwskmdvhbn";
    for b in 0..=255u8 {
        let got = read(&[b], true).forward_bases();
        if pairs.contains(&b) {
            assert_eq!(got.len(), 1);
        } else {
            assert_eq!(got, vec![b]);
        }
    }
}
