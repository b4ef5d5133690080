use approvals_db::{
    block_entry_key, blocks_at_height_key, candidate_entry_key, load_block_entry,
    load_blocks_at_height, load_candidate_entry, load_stored_blocks, stored_blocks_key,
    ApprovalEntry, Bitfield, BlockAssignments, BlockEntry, CandidateEntry, CandidateReceipt,
    Error, OurAssignment, Stored, StoredBlockRange, TrancheEntry, H256,
};

#[test]
fn keys_are_a_prefix_and_what_they_are_of() {
    assert_eq!(stored_blocks_key()[..], b"Approvals_StoredBlocks"[..]);
    let mut expected = b"Approvals_blck".to_vec();
    expected.extend([7u8; 32]);
    assert_eq!(block_entry_key(&[7; 32])[..], expected[..]);
    let mut expected = b"Approvals_cand".to_vec();
    expected.extend([8u8; 32]);
    assert_eq!(candidate_entry_key(&[8; 32])[..], expected[..]);
    let mut expected = b"Approvals_at".to_vec();
    expected.extend([4u8, 3, 2, 1]);
    assert_eq!(blocks_at_height_key(0x0102_0304)[..], expected[..]);
}

#[test]
fn keys_differ() {
    assert_ne!(block_entry_key(&[7; 32])[..], candidate_entry_key(&[7; 32])[..]);
    assert_ne!(blocks_at_height_key(1), blocks_at_height_key(256));
    assert_ne!(block_entry_key(&[7; 32]), block_entry_key(&[8; 32]));
    assert_ne!(candidate_entry_key(&[7; 32]), candidate_entry_key(&[8; 32]));
}

#[test]
fn the_length_of_a_list_is_written_in_compact_form() {
    let list = |n: usize| -> Vec<H256> { vec![[5; 32]; n] };
    assert_eq!(list(0).write(), vec![0]);
    assert_eq!(list(1).write()[..2], [4, 5]);
    assert_eq!(list(63).write()[..2], [252, 5]);
    assert_eq!(list(64).write()[..3], [1, 1, 5]);
    assert_eq!(list(64).write().len(), 2 + 64 * 32);
    assert_eq!(list(16383).write()[..3], [253, 255, 5]);
    assert_eq!(list(16384).write()[..5], [2, 0, 1, 0, 5]);
    assert_eq!(load_blocks_at_height(Some(list(16384).write())), Ok(list(16384)));
}

#[test]
fn a_length_that_is_not_in_its_shortest_form_is_refused() {
    // A length of one, in two bytes.
    let mut raw = vec![5, 0];
    raw.extend([5u8; 32]);
    let text = |desc: &str| {
        let prefix = "Failed to decode item in approvals DB: ";
        Err(Error::Storage(format!("{}Error {{ cause: None, desc: {:?} }}", prefix, desc)))
    };
    let bad_length = "out of range decoding Compact<u32>";
    assert_eq!(load_blocks_at_height(Some(raw)), text(bad_length));
    // 63 in two bytes, 16383 in four, 2^30 - 1 in five, and more than four bytes.
    assert_eq!(load_blocks_at_height(Some(vec![253, 0])), text(bad_length));
    assert_eq!(load_blocks_at_height(Some(vec![254, 255, 0, 0])), text(bad_length));
    assert_eq!(load_blocks_at_height(Some(vec![3, 255, 255, 255, 63])), text(bad_length));
    assert_eq!(load_blocks_at_height(Some(vec![7])), text(bad_length));
    let too_few = "Not enough data to fill buffer";
    for raw in [vec![], vec![4, 1], vec![1], vec![253], vec![2, 0, 0], vec![3, 0, 0, 0]] {
        assert_eq!(load_blocks_at_height(Some(raw)), text(too_few));
    }
}

#[test]
fn what_follows_an_entry_is_not_looked_at() {
    assert_eq!(
        load_stored_blocks(Some(vec![1, 0, 0, 0, 2, 0, 0, 0, 99])),
        Ok(Some(StoredBlockRange(1, 2)))
    );
    assert_eq!(load_blocks_at_height(Some(vec![0, 1, 2])), Ok(vec![]));
}

fn entry() -> BlockEntry {
    BlockEntry {
        block_hash: [1; 32],
        session: 0x0102_0304,
        slot: 0x0102_0304_0506_0708,
        relay_vrf_story: [2; 32],
        candidates: vec![(3, [4; 32])],
        approved_bitfield: Bitfield::from_bytes(vec![1], 1).unwrap(),
        children: vec![[5; 32]],
    }
}

fn entry_bytes() -> Vec<u8> {
    let mut raw = vec![1u8; 32];
    raw.extend([4u8, 3, 2, 1]);
    raw.extend([8u8, 7, 6, 5, 4, 3, 2, 1]);
    raw.extend([2u8; 32]);
    raw.extend([4u8, 3, 0, 0, 0]);
    raw.extend([4u8; 32]);
    raw.extend([4u8, 1]);
    raw.push(4);
    raw.extend([5u8; 32]);
    raw
}

#[test]
fn a_block_entry_is_written_field_by_field() {
    assert_eq!(entry().write(), entry_bytes());
    assert_eq!(load_block_entry(Some(entry_bytes())), Ok(Some(entry())));
    let mut short = entry_bytes();
    short.pop();
    assert!(matches!(load_block_entry(Some(short)), Err(Error::Storage(_))));
}

fn approval(group: u32) -> ApprovalEntry {
    ApprovalEntry {
        tranches: vec![TrancheEntry { tranche: 6, assignments: vec![(7, 8)] }],
        backing_group: group,
        next_wakeup: 9,
        our_assignment: Some(OurAssignment {}),
        assignments: Bitfield::from_bytes(vec![0xff, 1], 9).unwrap(),
        approved: true,
    }
}

fn approval_bytes(group: u8) -> Vec<u8> {
    let mut raw = vec![4u8, 6, 0, 0, 0, 4, 7, 0, 0, 0, 8, 0, 0, 0, 0, 0, 0, 0];
    raw.extend([group, 0, 0, 0]);
    raw.extend([9u8, 0, 0, 0, 0, 0, 0, 0]);
    raw.push(1);
    raw.extend([36u8, 0xff, 1]);
    raw.push(1);
    raw
}

fn candidate(pairs: Vec<(H256, ApprovalEntry)>) -> CandidateEntry {
    let mut block_assignments = BlockAssignments::new();
    for (hash, entry) in pairs {
        block_assignments.insert(hash, entry);
    }
    CandidateEntry {
        candidate: CandidateReceipt { encoded: vec![10, 11] },
        session: 12,
        block_assignments,
        approvals: Bitfield::zeros(3),
    }
}

fn candidate_bytes(pairs: &[(u8, u8)]) -> Vec<u8> {
    let mut raw = vec![8u8, 10, 11, 12, 0, 0, 0, pairs.len() as u8 * 4];
    for (hash, group) in pairs {
        raw.extend([*hash; 32]);
        raw.extend(approval_bytes(*group));
    }
    raw.extend([12u8, 0]);
    raw
}

#[test]
fn a_candidate_entry_is_written_in_ascending_order_of_its_blocks() {
    let c = candidate(vec![([2; 32], approval(20)), ([1; 32], approval(10))]);
    assert_eq!(c.block_assignments.len(), 2);
    assert_eq!(c.write(), candidate_bytes(&[(1, 10), (2, 20)]));
    assert_eq!(load_candidate_entry(Some(c.write())), Ok(Some(c)));
}

#[test]
fn a_candidate_entry_may_be_read_in_any_order_and_the_last_one_counts() {
    let raw = candidate_bytes(&[(2, 20), (1, 10), (2, 30)]);
    let c = candidate(vec![([1; 32], approval(10)), ([2; 32], approval(30))]);
    assert_eq!(load_candidate_entry(Some(raw)), Ok(Some(c)));
}

#[test]
fn approval_entries_are_found_by_their_block() {
    let mut c = candidate(vec![([2; 32], approval(20)), ([1; 32], approval(10))]).block_assignments;
    assert_eq!(c.get(&[2; 32]), Some(&approval(20)));
    assert_eq!(c.get(&[3; 32]), None);
    c.insert([2; 32], approval(21));
    assert_eq!(c.get(&[2; 32]), Some(&approval(21)));
    assert_eq!(c.len(), 2);
    c.remove(&[2; 32]);
    c.remove(&[2; 32]);
    assert!(!c.is_empty());
    c.remove(&[1; 32]);
    assert!(c.is_empty());
}

#[test]
fn bit_vectors_keep_their_bytes() {
    let b = Bitfield::zeros(9);
    assert_eq!(b.len(), 9);
    assert_eq!(b.to_bytes(), vec![0, 0]);
    let b = Bitfield::from_bytes(vec![0xff, 0xff], 9).unwrap();
    assert_eq!(b.len(), 9);
    assert_eq!(b.to_bytes(), vec![0xff, 0xff]);
    assert_eq!(Bitfield::from_bytes(vec![0xff], 9), None);
    assert_eq!(Bitfield::from_bytes(vec![0xff, 1], 8), None);
    assert_eq!(Bitfield::from_bytes(vec![], 0), Some(Bitfield::zeros(0)));
    assert_ne!(Bitfield::from_bytes(vec![1], 8), Some(Bitfield::zeros(8)));
}

#[test]
fn entries_can_be_copied() {
    let b = Bitfield::from_bytes(vec![0xff, 0xff], 9).unwrap();
    assert_eq!(b.clone(), b);
    assert_eq!(b.clone().len(), 9);
    assert_eq!(b.clone().to_bytes(), vec![0xff, 0xff]);
    assert_eq!(Bitfield::zeros(0).clone(), Bitfield::zeros(0));
    assert_eq!(entry().clone(), entry());
    let c = candidate(vec![([2; 32], approval(20)), ([1; 32], approval(10))]);
    assert_eq!(c.clone().write(), c.write());
}

#[test]
fn bits_beyond_the_end_are_written_and_read_back() {
    let mut e = entry();
    e.approved_bitfield = Bitfield::from_bytes(vec![0xff], 1).unwrap();
    let raw = e.write();
    assert_eq!(raw[raw.len() - 35..raw.len() - 33], [4, 0xff]);
    let back = load_block_entry(Some(raw)).unwrap().unwrap();
    assert_eq!(back.approved_bitfield.to_bytes(), vec![0xff]);
}

#[test]
fn a_bit_vector_that_is_too_long_is_refused() {
    let mut raw = entry_bytes();
    raw.truncate(32 + 4 + 8 + 32 + 5 + 32);
    // 0x2000_0000 bits.
    raw.extend([2u8, 0, 0, 0x80]);
    match load_block_entry(Some(raw)) {
        Err(Error::Storage(text)) => {
            assert!(text.starts_with("Failed to decode item in approvals DB: "))
        }
        other => panic!("{:?}", other),
    }
}
