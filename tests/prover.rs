use verkle_trie::memory_db::MemoryDb;
use verkle_trie::node::{BranchMeta, StemMeta, VerkleError};
use verkle_trie::prover::{
    create_prover_queries, create_verkle_proof, CommitmentEngine, ExtPresent, ProverQuery,
};
use verkle_trie::storage::WriteOnlyHigherDb;

struct CountingEngine;

impl CommitmentEngine for CountingEngine {
    fn open(&self, queries: Vec<ProverQuery>) -> Vec<u8> {
        vec![queries.len() as u8]
    }
}

const ROOT: [u8; 32] = [0xAA; 32];

fn stem(first: u8, fill: u8) -> [u8; 31] {
    let mut s = [fill; 31];
    s[0] = first;
    s
}

fn key(s: [u8; 31], suffix: u8) -> [u8; 32] {
    let mut k = [0u8; 32];
    k[..31].copy_from_slice(&s);
    k[31] = suffix;
    k
}

fn meta(tag: u8) -> StemMeta {
    StemMeta { c_1: [tag; 32], c_2: [tag + 1; 32], stem_commitment: [tag + 2; 32] }
}

fn one() -> [u8; 32] {
    let mut o = [0u8; 32];
    o[0] = 1;
    o
}

fn q(commitment: [u8; 32], point: usize, result: [u8; 32]) -> ProverQuery {
    ProverQuery { commitment, point, result }
}

/// A root with one stem `S = [5, 9, 9, ...]` at slot 5, holding suffixes 7 and 200.
fn single_stem_db() -> (MemoryDb, [u8; 31]) {
    let mut db = MemoryDb::new();
    let s = stem(5, 9);
    db.insert_branch(vec![], BranchMeta { commitment: ROOT }, 0);
    db.add_stem_as_branch_child(vec![5], s, 1);
    db.insert_stem(s, meta(10), 1);
    db.insert_leaf(key(s, 7), [0x77; 32], 1);
    db.insert_leaf(key(s, 200), [0xC8; 32], 1);
    (db, s)
}

#[test]
fn single_key_present() {
    let (db, s) = single_stem_db();
    let (queries, hint) = create_prover_queries(&db, vec![key(s, 7)]).unwrap();
    let m = meta(10);
    assert_eq!(
        queries,
        vec![
            q(ROOT, 5, m.stem_commitment),
            q(m.stem_commitment, 0, one()),
            q(m.stem_commitment, 1, key(s, 0)),
            q(m.stem_commitment, 2, m.c_1),
            q(m.c_1, 7, [0x77; 32]),
        ]
    );
    assert_eq!(hint.depths, vec![1]);
    assert_eq!(hint.extension_present, vec![ExtPresent::Present]);
    assert!(hint.diff_stem_no_proof.is_empty());
}

#[test]
fn two_keys_same_stem() {
    let (db, s) = single_stem_db();
    let (queries, hint) = create_prover_queries(&db, vec![key(s, 7), key(s, 200)]).unwrap();
    let m = meta(10);
    assert_eq!(
        queries,
        vec![
            q(ROOT, 5, m.stem_commitment),
            q(m.stem_commitment, 0, one()),
            q(m.stem_commitment, 1, key(s, 0)),
            q(m.stem_commitment, 2, m.c_1),
            q(m.stem_commitment, 3, m.c_2),
            q(m.c_1, 7, [0x77; 32]),
            q(m.c_2, 72, [0xC8; 32]),
        ]
    );
    assert_eq!(hint.depths, vec![1]);
    assert_eq!(hint.extension_present, vec![ExtPresent::Present]);
    let proof = create_verkle_proof(&db, vec![key(s, 7), key(s, 200)], &CountingEngine).unwrap();
    assert_eq!(proof.comms_sorted, vec![m.stem_commitment, m.c_1, m.c_2]);
    assert_eq!(proof.proof, vec![7]);
}

#[test]
fn other_stem_in_slot_proves_absence() {
    let (db, s) = single_stem_db();
    let t = stem(5, 1);
    let (queries, hint) = create_prover_queries(&db, vec![key(t, 7)]).unwrap();
    let m = meta(10);
    assert_eq!(
        queries,
        vec![
            q(ROOT, 5, m.stem_commitment),
            q(m.stem_commitment, 0, one()),
            q(m.stem_commitment, 1, key(s, 0)),
        ]
    );
    assert_eq!(hint.depths, vec![1]);
    assert_eq!(hint.extension_present, vec![ExtPresent::DifferentStem]);
    assert_eq!(hint.diff_stem_no_proof, vec![s]);
}

#[test]
fn foreign_stem_that_is_also_queried_is_not_foreign() {
    let (db, s) = single_stem_db();
    let t = stem(5, 1);
    let (_, hint) = create_prover_queries(&db, vec![key(t, 7), key(s, 7)]).unwrap();
    assert_eq!(hint.extension_present, vec![ExtPresent::DifferentStem, ExtPresent::Present]);
    assert!(hint.diff_stem_no_proof.is_empty());
}

#[test]
fn empty_slot_proves_absence() {
    let (db, _) = single_stem_db();
    let (queries, hint) = create_prover_queries(&db, vec![key(stem(9, 0), 1)]).unwrap();
    assert_eq!(queries, vec![q(ROOT, 9, [0u8; 32])]);
    assert_eq!(hint.depths, vec![1]);
    assert_eq!(hint.extension_present, vec![ExtPresent::Absent]);
}

#[test]
fn present_stem_absent_suffix_has_no_suffix_opening() {
    let (db, s) = single_stem_db();
    let (queries, hint) = create_prover_queries(&db, vec![key(s, 8)]).unwrap();
    assert_eq!(queries.len(), 3);
    assert_eq!(hint.extension_present, vec![ExtPresent::Present]);
}

#[test]
fn deeper_stems_open_each_level_once() {
    let mut db = MemoryDb::new();
    let inner = [0xBB; 32];
    db.insert_branch(vec![], BranchMeta { commitment: ROOT }, 0);
    db.insert_branch(vec![5], BranchMeta { commitment: inner }, 1);
    let a = stem(5, 1);
    let mut b = stem(5, 1);
    b[1] = 2;
    db.add_stem_as_branch_child(vec![5, 1], a, 2);
    db.add_stem_as_branch_child(vec![5, 2], b, 2);
    db.insert_stem(a, meta(20), 2);
    db.insert_stem(b, meta(30), 2);
    db.insert_leaf(key(a, 1), [1u8; 32], 2);
    db.insert_leaf(key(b, 129), [2u8; 32], 2);
    let keys = vec![key(a, 1), key(b, 129)];
    let (queries, hint) = create_prover_queries(&db, keys.clone()).unwrap();
    let (ma, mb) = (meta(20), meta(30));
    assert_eq!(
        queries,
        vec![
            q(ROOT, 5, inner),
            q(inner, 1, ma.stem_commitment),
            q(inner, 2, mb.stem_commitment),
            q(ma.stem_commitment, 0, one()),
            q(ma.stem_commitment, 1, key(a, 0)),
            q(ma.stem_commitment, 2, ma.c_1),
            q(ma.c_1, 1, [1u8; 32]),
            q(mb.stem_commitment, 0, one()),
            q(mb.stem_commitment, 1, key(b, 0)),
            q(mb.stem_commitment, 3, mb.c_2),
            q(mb.c_2, 1, [2u8; 32]),
        ]
    );
    assert_eq!(hint.depths, vec![2, 2]);
    let proof = create_verkle_proof(&db, keys, &CountingEngine).unwrap();
    assert!(!proof.comms_sorted.contains(&ROOT));
    assert_eq!(proof.comms_sorted, vec![inner, ma.stem_commitment, ma.c_1, mb.stem_commitment, mb.c_2]);
    assert_eq!(proof.comms_sorted[0], inner);
}

#[test]
fn queries_are_deterministic() {
    let (db, s) = single_stem_db();
    let keys = vec![key(s, 200), key(stem(5, 1), 3), key(stem(9, 9), 0), key(s, 7)];
    let first = create_prover_queries(&db, keys.clone()).unwrap();
    let second = create_prover_queries(&db, keys).unwrap();
    assert_eq!(first, second);
}

#[test]
fn hint_has_one_entry_per_distinct_stem() {
    let (db, s) = single_stem_db();
    let keys = vec![key(s, 200), key(stem(9, 9), 0), key(s, 7), key(stem(9, 9), 1)];
    let (_, hint) = create_prover_queries(&db, keys).unwrap();
    assert_eq!(hint.depths.len(), 2);
    assert_eq!(hint.extension_present, vec![ExtPresent::Present, ExtPresent::Absent]);
}

#[test]
fn first_query_is_root() {
    let (db, s) = single_stem_db();
    let (queries, _) = create_prover_queries(&db, vec![key(stem(9, 9), 0), key(s, 7)]).unwrap();
    assert_eq!(queries[0].commitment, ROOT);
    let proof = create_verkle_proof(&db, vec![key(s, 7)], &CountingEngine).unwrap();
    assert_eq!(proof.comms_sorted, vec![meta(10).stem_commitment, meta(10).c_1]);
}

#[test]
fn empty_key_set_is_rejected() {
    let (db, _) = single_stem_db();
    assert_eq!(create_verkle_proof(&db, vec![], &CountingEngine).unwrap_err(), VerkleError::EmptyKeySet);
    assert_eq!(create_prover_queries(&db, vec![]).unwrap_err(), VerkleError::EmptyKeySet);
}

#[test]
fn missing_root_is_missing_node() {
    let db = MemoryDb::new();
    assert_eq!(
        create_prover_queries(&db, vec![[0u8; 32]]).unwrap_err(),
        VerkleError::MissingExpectedNode
    );
}

#[test]
fn stem_at_root_is_path_mismatch() {
    let mut db = MemoryDb::new();
    db.add_stem_as_branch_child(vec![], stem(0, 0), 0);
    assert_eq!(create_prover_queries(&db, vec![[0u8; 32]]).unwrap_err(), VerkleError::PathMismatch);
}

#[test]
fn stem_without_metadata_is_missing_node() {
    let mut db = MemoryDb::new();
    db.insert_branch(vec![], BranchMeta { commitment: ROOT }, 0);
    db.add_stem_as_branch_child(vec![5], stem(5, 9), 1);
    assert_eq!(
        create_verkle_proof(&db, vec![key(stem(5, 9), 1)], &CountingEngine).unwrap_err(),
        VerkleError::MissingExpectedNode
    );
}

#[test]
fn branch_at_full_stem_depth_is_path_mismatch() {
    let mut db = MemoryDb::new();
    let s = stem(1, 1);
    for d in 0..=31 {
        db.insert_branch(s[..d].to_vec(), BranchMeta { commitment: [d as u8; 32] }, d as u8);
    }
    assert_eq!(create_prover_queries(&db, vec![key(s, 0)]).unwrap_err(), VerkleError::PathMismatch);
}

#[test]
fn same_half_is_opened_once() {
    let (mut db, s) = single_stem_db();
    db.insert_leaf(key(s, 8), [0x88; 32], 1);
    let (queries, _) = create_prover_queries(&db, vec![key(s, 8), key(s, 7)]).unwrap();
    let m = meta(10);
    assert_eq!(
        queries,
        vec![
            q(ROOT, 5, m.stem_commitment),
            q(m.stem_commitment, 0, one()),
            q(m.stem_commitment, 1, key(s, 0)),
            q(m.stem_commitment, 2, m.c_1),
            q(m.c_1, 7, [0x77; 32]),
            q(m.c_1, 8, [0x88; 32]),
        ]
    );
}

#[test]
fn queries_follow_path_order() {
    let (db, s) = single_stem_db();
    let (queries, _) = create_prover_queries(&db, vec![key(s, 7), key(stem(9, 0), 1)]).unwrap();
    let m = meta(10);
    assert_eq!(
        queries,
        vec![
            q(ROOT, 5, m.stem_commitment),
            q(ROOT, 9, [0u8; 32]),
            q(m.stem_commitment, 0, one()),
            q(m.stem_commitment, 1, key(s, 0)),
            q(m.stem_commitment, 2, m.c_1),
            q(m.c_1, 7, [0x77; 32]),
        ]
    );
    let (reversed, _) = create_prover_queries(&db, vec![key(stem(9, 0), 1), key(s, 7)]).unwrap();
    assert_eq!(reversed, queries);
}

#[test]
fn hint_lists_stems_in_ascending_order() {
    let (mut db, s) = single_stem_db();
    let far = stem(7, 0);
    db.add_stem_as_branch_child(vec![7], far, 1);
    db.insert_stem(far, meta(40), 1);
    let keys = vec![key(stem(9, 9), 0), key(stem(7, 3), 1), key(s, 7), key(stem(5, 0), 2)];
    let (_, hint) = create_prover_queries(&db, keys).unwrap();
    assert_eq!(
        hint.extension_present,
        vec![
            ExtPresent::DifferentStem,
            ExtPresent::Present,
            ExtPresent::DifferentStem,
            ExtPresent::Absent
        ]
    );
    assert_eq!(hint.depths, vec![1, 1, 1, 1]);
    assert_eq!(hint.diff_stem_no_proof, vec![far]);
}
