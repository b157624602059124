use std::collections::HashMap;

use logrustate::engine::LogState;
use logrustate::ring::{OldLogState, ShiftPlan};

/// Executes a plan the way the daemon would: delete, rename in order, drop
/// the discarded chunks from the live file's head, then move one chunk-sized
/// head window at a time into its backup slot.
fn execute_plan(live: &mut Vec<u8>, ring: &mut HashMap<u64, Vec<u8>>, plan: &ShiftPlan, buf: usize) {
    for idx in &plan.remove {
        let gone = ring.remove(idx);
        assert!(gone.is_some(), "deletions only target files verified present");
    }
    for (from, to) in &plan.renames {
        let content = ring.remove(from);
        assert!(content.is_some(), "renames never miss their source");
        assert!(!ring.contains_key(to), "renames never clobber an occupied index");
        ring.insert(*to, content.unwrap());
    }
    let dropped = buf * plan.discarded_chunks;
    live.drain(0..dropped);
    for k in 0..plan.preserved_chunks {
        let window: Vec<u8> = live[0..buf].to_vec();
        ring.insert(plan.start_index + k as u64, window);
        live.drain(0..buf);
    }
}

fn patterned(len: usize) -> Vec<u8> {
    (0..len).map(|i| (i % 251) as u8).collect()
}

#[test]
fn scenario_two_chunks_into_empty_ring() {
    // chunk_size 4096, capacity 3, live file grown to 10000 bytes: two full
    // chunks are evicted into the empty ring and nothing is discarded
    let state = LogState::new(3, 4096);
    let plan = state.handle_plan(10000, &vec![]).expect("10000 > 4096 must rotate");
    assert_eq!(plan.preserved_chunks, 2);
    assert_eq!(plan.discarded_chunks, 0);
    assert_eq!(plan.start_index, 0);
    assert_eq!(plan.remove, Vec::<u64>::new());
    assert_eq!(plan.renames, Vec::<(u64, u64)>::new());

    let original = patterned(10000);
    let mut live = original.clone();
    let mut ring: HashMap<u64, Vec<u8>> = HashMap::new();
    execute_plan(&mut live, &mut ring, &plan, 4096);

    assert_eq!(live.len(), 10000 - 2 * 4096);
    assert_eq!(live[..], original[8192..]);
    assert_eq!(ring.len(), 2);
    assert_eq!(ring[&0], original[0..4096].to_vec());
    assert_eq!(ring[&1], original[4096..8192].to_vec());
}

#[test]
fn scenario_overflow_discards_oldest_chunk() {
    // same policy, live file grown to 20000 bytes: four chunks overflow a
    // three-slot ring, so the oldest chunk is dropped by direct collapse and
    // exactly three backups exist afterwards
    let state = LogState::new(3, 4096);
    let plan = state.handle_plan(20000, &vec![]).expect("20000 > 4096 must rotate");
    assert_eq!(plan.discarded_chunks, 1);
    assert_eq!(plan.preserved_chunks, 3);
    assert_eq!(plan.start_index, 0);
    assert_eq!(plan.remove, Vec::<u64>::new());

    let original = patterned(20000);
    let mut live = original.clone();
    let mut ring: HashMap<u64, Vec<u8>> = HashMap::new();
    execute_plan(&mut live, &mut ring, &plan, 4096);

    assert_eq!(live.len(), 20000 - 4 * 4096);
    assert_eq!(live[..], original[16384..]);
    assert_eq!(ring.len(), 3);
    // the first window is gone for good; the newest three are preserved
    assert_eq!(ring[&0], original[4096..8192].to_vec());
    assert_eq!(ring[&1], original[8192..12288].to_vec());
    assert_eq!(ring[&2], original[12288..16384].to_vec());
}

#[test]
fn full_ring_removes_exactly_chunks_oldest() {
    // ring already full, two chunks evicted: the two oldest backups are
    // deleted, the survivor is renumbered to index 0, the ring is full again
    let state = LogState::new(3, 4096);
    let plan = state.logrotate(9000, &vec![0, 1, 2]);
    assert_eq!(plan.preserved_chunks, 2);
    assert_eq!(plan.discarded_chunks, 0);
    assert_eq!(plan.remove, vec![0, 1]);
    assert_eq!(plan.renames, vec![(2, 0)]);
    assert_eq!(plan.start_index, 1);

    let original = patterned(9000);
    let mut live = original.clone();
    let mut ring: HashMap<u64, Vec<u8>> = HashMap::new();
    ring.insert(0, vec![10; 4096]);
    ring.insert(1, vec![11; 4096]);
    ring.insert(2, vec![12; 4096]);
    execute_plan(&mut live, &mut ring, &plan, 4096);

    assert_eq!(ring.len(), 3);
    assert_eq!(ring[&0], vec![12; 4096]);
    assert_eq!(ring[&1], original[0..4096].to_vec());
    assert_eq!(ring[&2], original[4096..8192].to_vec());
    assert_eq!(live[..], original[8192..]);
}

#[test]
fn overflow_on_full_ring_keeps_capacity_files() {
    // capacity 2, five chunks of overflow: three are discarded, both old
    // backups are deleted, and the two newest chunks fill the ring
    let policy = OldLogState::new(2);
    let plan = policy.shift_logs(&vec![0, 1], 5 * 4096 + 7, 4096);
    assert_eq!(plan.discarded_chunks, 3);
    assert_eq!(plan.preserved_chunks, 2);
    assert_eq!(plan.remove, vec![0, 1]);
    assert_eq!(plan.renames, Vec::<(u64, u64)>::new());
    assert_eq!(plan.start_index, 0);

    let original = patterned(5 * 4096 + 7);
    let mut live = original.clone();
    let mut ring: HashMap<u64, Vec<u8>> = HashMap::new();
    ring.insert(0, vec![1; 4096]);
    ring.insert(1, vec![2; 4096]);
    execute_plan(&mut live, &mut ring, &plan, 4096);

    assert_eq!(ring.len(), 2);
    assert_eq!(ring[&0], original[3 * 4096..4 * 4096].to_vec());
    assert_eq!(ring[&1], original[4 * 4096..5 * 4096].to_vec());
    assert_eq!(live[..], original[5 * 4096..]);
}

#[test]
fn partial_ring_is_compacted_from_index_zero() {
    // a ring missing some indices, as after a crash: rotation completes and
    // leaves a compact, contiguous ring from index 0
    let policy = OldLogState::new(5);
    let plan = policy.shift_logs(&vec![1, 3], 4097, 4096);
    assert_eq!(plan.preserved_chunks, 1);
    assert_eq!(plan.discarded_chunks, 0);
    assert_eq!(plan.remove, Vec::<u64>::new());
    assert_eq!(plan.renames, vec![(1, 0), (3, 1)]);
    assert_eq!(plan.start_index, 2);

    let original = patterned(4097);
    let mut live = original.clone();
    let mut ring: HashMap<u64, Vec<u8>> = HashMap::new();
    ring.insert(1, vec![21; 4096]);
    ring.insert(3, vec![23; 4096]);
    execute_plan(&mut live, &mut ring, &plan, 4096);

    assert_eq!(ring.len(), 3);
    assert!(ring.contains_key(&0) && ring.contains_key(&1) && ring.contains_key(&2));
    assert_eq!(ring[&0], vec![21; 4096]);
    assert_eq!(ring[&1], vec![23; 4096]);
    assert_eq!(ring[&2], original[0..4096].to_vec());
    assert_eq!(live[..], original[4096..]);
}

#[test]
fn within_threshold_is_a_no_op() {
    // at or below one chunk of data nothing is planned at all
    let state = LogState::new(3, 4096);
    assert!(state.handle_plan(0, &vec![]).is_none());
    assert!(state.handle_plan(4095, &vec![]).is_none());
    assert!(state.handle_plan(4096, &vec![]).is_none());
    assert!(state.handle_plan(4097, &vec![]).is_some());
}

#[test]
fn one_chunk_just_past_threshold() {
    let state = LogState::new(3, 4096);
    let plan = state.handle_plan(8191, &vec![]).expect("8191 > 4096 must rotate");
    assert_eq!(plan.preserved_chunks, 1);
    assert_eq!(plan.discarded_chunks, 0);
    assert_eq!(plan.start_index, 0);
}

#[test]
fn skips_rename_whose_indices_coincide() {
    // survivors already contiguous from 0 are not renamed at all
    let policy = OldLogState::new(5);
    let plan = policy.shift_logs(&vec![0, 1], 4097, 4096);
    assert_eq!(plan.renames, Vec::<(u64, u64)>::new());
    assert_eq!(plan.start_index, 2);
}

#[test]
fn capacity_one_ring() {
    let policy = OldLogState::new(1);
    let plan = policy.shift_logs(&vec![0], 3 * 4096, 4096);
    assert_eq!(plan.discarded_chunks, 2);
    assert_eq!(plan.preserved_chunks, 1);
    assert_eq!(plan.remove, vec![0]);
    assert_eq!(plan.start_index, 0);
}
