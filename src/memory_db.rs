use vstd::prelude::*;
use crate::bytes::{extend_path, key_of, to_vec};
use crate::node::{BranchChild, BranchMeta, StemMeta, VerkleError};
use crate::storage::{
    branch_meta_of, lists_children, DbModel, Flush, ReadOnlyHigherDb, WriteOnlyHigherDb,
};
use crate::table::{lookup, ByteTable};

verus! {

/// A trie store held entirely in memory.
pub struct MemoryDb {
    leaf_table: ByteTable<[u8; 32]>,
    stem_table: ByteTable<StemMeta>,
    branch_table: ByteTable<BranchChild>,
}

impl MemoryDb {
    /// An empty store.
    pub fn new() -> (r: Self)
        ensures
            r.inv(),
            r.model().leaves == Map::<Seq<u8>, [u8; 32]>::empty(),
            r.model().stems == Map::<Seq<u8>, StemMeta>::empty(),
            r.model().branches == Map::<Seq<u8>, BranchChild>::empty(),
    {
        MemoryDb { leaf_table: ByteTable::new(), stem_table: ByteTable::new(), branch_table: ByteTable::new() }
    }

    /// Number of leaves, stems and branch slots together.
    pub fn num_items(&self) -> (r: usize)
        requires
            self.inv(),
            self.model().leaves.len() + self.model().stems.len() + self.model().branches.len()
                <= usize::MAX,
        ensures
            r == self.model().leaves.len() + self.model().stems.len() + self.model().branches.len(),
    {
        self.leaf_table.len() + self.stem_table.len() + self.branch_table.len()
    }

    /// Removes everything.
    pub fn clear(&mut self)
        ensures
            final(self).inv(),
            final(self).model().leaves == Map::<Seq<u8>, [u8; 32]>::empty(),
            final(self).model().stems == Map::<Seq<u8>, StemMeta>::empty(),
            final(self).model().branches == Map::<Seq<u8>, BranchChild>::empty(),
    {
        self.leaf_table.clear();
        self.stem_table.clear();
        self.branch_table.clear();
    }
}

impl ReadOnlyHigherDb for MemoryDb {
    closed spec fn model(&self) -> DbModel {
        DbModel {
            leaves: self.leaf_table.view(),
            stems: self.stem_table.view(),
            branches: self.branch_table.view(),
        }
    }

    closed spec fn inv(&self) -> bool {
        self.leaf_table.wf() && self.stem_table.wf() && self.branch_table.wf()
    }

    proof fn lemma_model_finite(&self) {
        self.leaf_table.lemma_finite();
        self.stem_table.lemma_finite();
        self.branch_table.lemma_finite();
    }

    fn get_stem_meta(&self, stem_key: [u8; 31]) -> (r: Option<StemMeta>) {
        self.stem_table.get(&stem_key)
    }

    fn get_branch_meta(&self, key: &[u8]) -> (r: Result<Option<BranchMeta>, VerkleError>) {
        match self.branch_table.get(key) {
            None => Ok(None),
            Some(BranchChild::Stem(_)) => Err(VerkleError::PathMismatch),
            Some(BranchChild::Branch(b_meta)) => Ok(Some(b_meta)),
        }
    }

    fn get_leaf(&self, key: [u8; 32]) -> (r: Option<[u8; 32]>) {
        self.leaf_table.get(&key)
    }

    fn get_branch_children(&self, branch_id: &[u8]) -> (r: Vec<(u8, BranchChild)>) {
        let mut children: Vec<(u8, BranchChild)> = Vec::new();
        let mut i: u16 = 0;
        while i < 256
            invariant
                self.inv(),
                0 <= i <= 256,
                forall|j: int|
                    0 <= j < children@.len() ==> lookup(self.model().branches, branch_id@.push(
                        #[trigger] children@[j].0,
                    )) == Some(children@[j].1),
                forall|j: int| 0 <= j < children@.len() ==> (#[trigger] children@[j].0) < i,
                forall|a: int, b: int|
                    0 <= a < b < children@.len() ==> #[trigger] children@[a].0 < #[trigger] children@[b].0,
                forall|c: u8|
                    c < i && #[trigger] self.model().branches.contains_key(branch_id@.push(c))
                        ==> exists|j: int| 0 <= j < children@.len() && children@[j].0 == c,
            decreases 256 - i,
        {
            let idx = i as u8;
            let child = extend_path(branch_id, idx);
            let ghost prev = children@;
            if let Some(b_child) = self.branch_table.get(child.as_slice()) {
                children.push((idx, b_child));
                assert(children@[children@.len() - 1].0 == idx);
            }
            proof {
                assert forall|c: u8|
                    c <= idx && #[trigger] self.model().branches.contains_key(branch_id@.push(c)) implies exists|j: int|
                        0 <= j < children@.len() && children@[j].0 == c by {
                    if c < idx {
                        let j = choose|j: int| 0 <= j < prev.len() && prev[j].0 == c;
                        assert(children@[j] == prev[j]);
                    } else {
                        assert(children@[children@.len() - 1].0 == c);
                    }
                }
            }
            i = i + 1;
        }
        children
    }

    fn get_stem_children(&self, stem_key: [u8; 31]) -> (r: Vec<(u8, [u8; 32])>) {
        let mut children: Vec<(u8, [u8; 32])> = Vec::new();
        let mut i: u16 = 0;
        while i < 256
            invariant
                self.inv(),
                0 <= i <= 256,
                forall|j: int|
                    0 <= j < children@.len() ==> lookup(self.model().leaves, stem_key@.push(
                        #[trigger] children@[j].0,
                    )) == Some(children@[j].1),
                forall|j: int| 0 <= j < children@.len() ==> (#[trigger] children@[j].0) < i,
                forall|a: int, b: int|
                    0 <= a < b < children@.len() ==> #[trigger] children@[a].0 < #[trigger] children@[b].0,
                forall|c: u8|
                    c < i && #[trigger] self.model().leaves.contains_key(stem_key@.push(c))
                        ==> exists|j: int| 0 <= j < children@.len() && children@[j].0 == c,
            decreases 256 - i,
        {
            let idx = i as u8;
            let child = key_of(&stem_key, idx);
            let ghost prev = children@;
            if let Some(value) = self.leaf_table.get(&child) {
                children.push((idx, value));
                assert(children@[children@.len() - 1].0 == idx);
            }
            proof {
                assert forall|c: u8|
                    c <= idx && #[trigger] self.model().leaves.contains_key(stem_key@.push(c)) implies exists|j: int|
                        0 <= j < children@.len() && children@[j].0 == c by {
                    if c < idx {
                        let j = choose|j: int| 0 <= j < prev.len() && prev[j].0 == c;
                        assert(children@[j] == prev[j]);
                    } else {
                        assert(children@[children@.len() - 1].0 == c);
                    }
                }
            }
            i = i + 1;
        }
        children
    }

    fn get_branch_child(&self, branch_id: &[u8], index: u8) -> (r: Option<BranchChild>) {
        let child_index = extend_path(branch_id, index);
        self.branch_table.get(child_index.as_slice())
    }
}

impl WriteOnlyHigherDb for MemoryDb {
    fn insert_stem(&mut self, key: [u8; 31], meta: StemMeta, _depth: u8) -> (r: Option<StemMeta>) {
        self.stem_table.insert(to_vec(&key), meta)
    }

    fn insert_branch(&mut self, key: Vec<u8>, meta: BranchMeta, _depth: u8) -> (r: Option<BranchMeta>) {
        match self.branch_table.insert(key, BranchChild::Branch(meta)) {
            None => None,
            Some(BranchChild::Stem(_)) => None,
            Some(BranchChild::Branch(b_meta)) => Some(b_meta),
        }
    }

    fn insert_leaf(&mut self, key: [u8; 32], value: [u8; 32], _depth: u8) -> (r: Option<Vec<u8>>) {
        match self.leaf_table.insert(to_vec(&key), value) {
            None => None,
            Some(old_val) => Some(to_vec(&old_val)),
        }
    }

    fn add_stem_as_branch_child(&mut self, branch_child_id: Vec<u8>, stem_id: [u8; 31], _depth: u8) -> (r:
        Option<BranchChild>) {
        self.branch_table.insert(branch_child_id, BranchChild::Stem(stem_id))
    }
}

impl Flush for MemoryDb {
    /// Nothing to persist: everything already lives in memory.
    fn flush(&mut self) {
    }
}

} // verus!
