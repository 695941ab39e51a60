use verkle_trie::memory_db::MemoryDb;
use verkle_trie::node::{BranchChild, BranchMeta, StemMeta, VerkleError};
use verkle_trie::storage::{Flush, ReadOnlyHigherDb, WriteOnlyHigherDb};

fn stem(first: u8, fill: u8) -> [u8; 31] {
    let mut s = [fill; 31];
    s[0] = first;
    s
}

fn key(s: [u8; 31], suffix: u8) -> [u8; 32] {
    let mut k = [0u8; 32];
    k[..31].copy_from_slice(&s);
    k[31] = suffix;
    k
}

fn stem_meta(tag: u8) -> StemMeta {
    StemMeta { c_1: [tag; 32], c_2: [tag + 1; 32], stem_commitment: [tag + 2; 32] }
}

#[test]
fn new_db_is_empty() {
    let db = MemoryDb::new();
    assert_eq!(db.num_items(), 0);
    assert_eq!(db.get_leaf([0u8; 32]), None);
    assert_eq!(db.get_stem_meta([0u8; 31]), None);
    assert_eq!(db.get_branch_meta(&[]), Ok(None));
    assert!(db.get_branch_children(&[]).is_empty());
}

#[test]
fn round_trip_leaf_stem_branch() {
    let mut db = MemoryDb::new();
    let s = stem(3, 9);
    let k = key(s, 42);
    let v = [7u8; 32];
    assert_eq!(db.insert_branch(vec![], BranchMeta { commitment: [1u8; 32] }, 0), None);
    assert_eq!(db.add_stem_as_branch_child(vec![3], s, 1), None);
    assert_eq!(db.insert_stem(s, stem_meta(10), 1), None);
    assert_eq!(db.insert_leaf(k, v, 1), None);
    assert_eq!(db.get_leaf(k), Some(v));
    assert_eq!(db.get_stem_meta(s), Some(stem_meta(10)));
    assert_eq!(db.get_branch_meta(&[]), Ok(Some(BranchMeta { commitment: [1u8; 32] })));
    assert_eq!(db.get_branch_child(&[], 3), Some(BranchChild::Stem(s)));
    assert_eq!(db.num_items(), 4);
}

#[test]
fn inserts_report_previous_values() {
    let mut db = MemoryDb::new();
    let s = stem(1, 1);
    let k = key(s, 0);
    assert_eq!(db.insert_leaf(k, [1u8; 32], 0), None);
    assert_eq!(db.insert_leaf(k, [2u8; 32], 0), Some(vec![1u8; 32]));
    assert_eq!(db.get_leaf(k), Some([2u8; 32]));
    assert_eq!(db.insert_stem(s, stem_meta(1), 0), None);
    assert_eq!(db.insert_stem(s, stem_meta(5), 0), Some(stem_meta(1)));
    let m1 = BranchMeta { commitment: [4u8; 32] };
    let m2 = BranchMeta { commitment: [5u8; 32] };
    assert_eq!(db.insert_branch(vec![1, 2], m1, 2), None);
    assert_eq!(db.insert_branch(vec![1, 2], m2, 2), Some(m1));
    assert_eq!(db.num_items(), 3);
}

#[test]
fn insert_branch_over_stem_reports_nothing() {
    let mut db = MemoryDb::new();
    let s = stem(8, 8);
    assert_eq!(db.add_stem_as_branch_child(vec![8], s, 1), None);
    let m = BranchMeta { commitment: [6u8; 32] };
    assert_eq!(db.insert_branch(vec![8], m, 1), None);
    assert_eq!(db.get_branch_meta(&[8]), Ok(Some(m)));
    assert_eq!(
        db.add_stem_as_branch_child(vec![8], s, 1),
        Some(BranchChild::Branch(m))
    );
}

#[test]
fn branch_meta_on_stem_slot_is_path_mismatch() {
    let mut db = MemoryDb::new();
    db.add_stem_as_branch_child(vec![4], stem(4, 0), 1);
    assert_eq!(db.get_branch_meta(&[4]), Err(VerkleError::PathMismatch));
    assert_eq!(db.get_branch_meta(&[5]), Ok(None));
}

#[test]
fn branch_children_ascending_and_addressable() {
    let mut db = MemoryDb::new();
    let m = BranchMeta { commitment: [2u8; 32] };
    db.insert_branch(vec![], m, 0);
    db.add_stem_as_branch_child(vec![200], stem(200, 0), 1);
    db.insert_branch(vec![7], m, 1);
    db.add_stem_as_branch_child(vec![0], stem(0, 0), 1);
    db.add_stem_as_branch_child(vec![255], stem(255, 0), 1);
    db.add_stem_as_branch_child(vec![7, 1], stem(7, 1), 2);
    let children = db.get_branch_children(&[]);
    let indices: Vec<u8> = children.iter().map(|c| c.0).collect();
    assert_eq!(indices, vec![0, 7, 200, 255]);
    for (i, child) in &children {
        assert_eq!(db.get_branch_child(&[], *i), Some(*child));
    }
    assert_eq!(children[1].1, BranchChild::Branch(m));
    let deeper = db.get_branch_children(&[7]);
    assert_eq!(deeper, vec![(1u8, BranchChild::Stem(stem(7, 1)))]);
}

#[test]
fn stem_children_ascending() {
    let mut db = MemoryDb::new();
    let s = stem(2, 2);
    db.insert_leaf(key(s, 255), [3u8; 32], 1);
    db.insert_leaf(key(s, 0), [1u8; 32], 1);
    db.insert_leaf(key(s, 128), [2u8; 32], 1);
    db.insert_leaf(key(stem(2, 3), 5), [9u8; 32], 1);
    let children = db.get_stem_children(s);
    assert_eq!(children, vec![(0u8, [1u8; 32]), (128u8, [2u8; 32]), (255u8, [3u8; 32])]);
}

#[test]
fn clear_and_flush() {
    let mut db = MemoryDb::new();
    let s = stem(1, 2);
    db.insert_leaf(key(s, 1), [1u8; 32], 1);
    db.insert_stem(s, stem_meta(3), 1);
    db.flush();
    assert_eq!(db.get_leaf(key(s, 1)), Some([1u8; 32]));
    assert_eq!(db.num_items(), 2);
    db.clear();
    assert_eq!(db.num_items(), 0);
    assert_eq!(db.get_stem_meta(s), None);
}
