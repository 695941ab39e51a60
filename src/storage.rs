use vstd::prelude::*;
use crate::node::{BranchChild, BranchMeta, StemMeta, VerkleError};
use crate::table::lookup;

verus! {

/// The abstract state of a trie store: leaves by 32-byte key, stem metadata
/// by 31-byte stem, and branch slots by path.
pub struct DbModel {
    pub leaves: Map<Seq<u8>, [u8; 32]>,
    pub stems: Map<Seq<u8>, StemMeta>,
    pub branches: Map<Seq<u8>, BranchChild>,
}

impl DbModel {
    pub open spec fn with_leaf(self, key: Seq<u8>, value: [u8; 32]) -> DbModel {
        DbModel { leaves: self.leaves.insert(key, value), ..self }
    }

    pub open spec fn with_stem(self, stem: Seq<u8>, meta: StemMeta) -> DbModel {
        DbModel { stems: self.stems.insert(stem, meta), ..self }
    }

    pub open spec fn with_slot(self, path: Seq<u8>, child: BranchChild) -> DbModel {
        DbModel { branches: self.branches.insert(path, child), ..self }
    }
}

/// What `get_branch_meta` returns for the slot content `slot`.
pub open spec fn branch_meta_of(slot: Option<BranchChild>) -> Result<Option<BranchMeta>, VerkleError> {
    match slot {
        None => Ok(None),
        Some(BranchChild::Branch(m)) => Ok(Some(m)),
        Some(BranchChild::Stem(_)) => Err(VerkleError::PathMismatch),
    }
}

/// `children` lists, in strictly ascending index order, exactly the present
/// slots `prefix ++ [i]` of `m`, each with what `m` holds there.
pub open spec fn lists_children<V>(m: Map<Seq<u8>, V>, prefix: Seq<u8>, children: Seq<(u8, V)>) -> bool {
    &&& forall|j: int|
        0 <= j < children.len() ==> lookup(m, prefix.push(#[trigger] children[j].0)) == Some(children[j].1)
    &&& forall|a: int, b: int| 0 <= a < b < children.len() ==> #[trigger] children[a].0 < #[trigger] children[b].0
    &&& forall|i: u8|
        #[trigger] m.contains_key(prefix.push(i)) ==> exists|j: int| 0 <= j < children.len() && children[j].0 == i
}

/// Read access to a trie store.
pub trait ReadOnlyHigherDb {
    spec fn model(&self) -> DbModel;

    /// The store's internal well-formedness.
    spec fn inv(&self) -> bool;

    /// A well-formed store holds finitely many leaves, stems and slots.
    proof fn lemma_model_finite(&self)
        requires
            self.inv(),
        ensures
            self.model().leaves.dom().finite(),
            self.model().stems.dom().finite(),
            self.model().branches.dom().finite(),
    ;

    fn get_stem_meta(&self, stem_key: [u8; 31]) -> (r: Option<StemMeta>)
        requires
            self.inv(),
        ensures
            r == lookup(self.model().stems, stem_key@),
    ;

    /// Metadata of the branch at `key`; a stem in that slot is a `PathMismatch`.
    fn get_branch_meta(&self, key: &[u8]) -> (r: Result<Option<BranchMeta>, VerkleError>)
        requires
            self.inv(),
        ensures
            r == branch_meta_of(lookup(self.model().branches, key@)),
    ;

    fn get_leaf(&self, key: [u8; 32]) -> (r: Option<[u8; 32]>)
        requires
            self.inv(),
        ensures
            r == lookup(self.model().leaves, key@),
    ;

    /// The present children of the branch at `branch_id`, by ascending index.
    fn get_branch_children(&self, branch_id: &[u8]) -> (r: Vec<(u8, BranchChild)>)
        requires
            self.inv(),
        ensures
            lists_children(self.model().branches, branch_id@, r@),
    ;

    /// The present leaves under `stem_key`, by ascending suffix.
    fn get_stem_children(&self, stem_key: [u8; 31]) -> (r: Vec<(u8, [u8; 32])>)
        requires
            self.inv(),
        ensures
            lists_children(self.model().leaves, stem_key@, r@),
    ;

    fn get_branch_child(&self, branch_id: &[u8], index: u8) -> (r: Option<BranchChild>)
        requires
            self.inv(),
        ensures
            r == lookup(self.model().branches, branch_id@.push(index)),
    ;
}

/// Write access to a trie store. `depth` is a placement hint that a store
/// may ignore.
pub trait WriteOnlyHigherDb: ReadOnlyHigherDb {
    fn insert_stem(&mut self, key: [u8; 31], meta: StemMeta, depth: u8) -> (r: Option<StemMeta>)
        requires
            old(self).inv(),
        ensures
            final(self).inv(),
            final(self).model() == old(self).model().with_stem(key@, meta),
            r == lookup(old(self).model().stems, key@),
    ;

    /// Installs a branch at `key`; a stem that was there before is reported
    /// as no previous branch.
    fn insert_branch(&mut self, key: Vec<u8>, meta: BranchMeta, depth: u8) -> (r: Option<BranchMeta>)
        requires
            old(self).inv(),
        ensures
            final(self).inv(),
            final(self).model() == old(self).model().with_slot(key@, BranchChild::Branch(meta)),
            r == (match lookup(old(self).model().branches, key@) {
                Some(BranchChild::Branch(m)) => Some(m),
                _ => None,
            }),
    ;

    fn insert_leaf(&mut self, key: [u8; 32], value: [u8; 32], depth: u8) -> (r: Option<Vec<u8>>)
        requires
            old(self).inv(),
        ensures
            final(self).inv(),
            final(self).model() == old(self).model().with_leaf(key@, value),
            r.is_some() == old(self).model().leaves.contains_key(key@),
            r.is_some() ==> r.unwrap()@ == old(self).model().leaves[key@]@,
    ;

    /// Puts a reference to `stem_id` in the slot `branch_child_id`.
    fn add_stem_as_branch_child(&mut self, branch_child_id: Vec<u8>, stem_id: [u8; 31], depth: u8) -> (r:
        Option<BranchChild>)
        requires
            old(self).inv(),
        ensures
            final(self).inv(),
            final(self).model() == old(self).model().with_slot(branch_child_id@, BranchChild::Stem(stem_id)),
            r == lookup(old(self).model().branches, branch_child_id@),
    ;
}

/// Persisting buffered writes; never changes what the store holds.
pub trait Flush: ReadOnlyHigherDb {
    fn flush(&mut self)
        requires
            old(self).inv(),
        ensures
            final(self).inv(),
            final(self).model() == old(self).model(),
    ;
}

/// Every child that a listing names is found again by a single-slot lookup
/// of the listed path, and the listing is in strictly ascending index order.
pub proof fn lemma_children_addressable(m: DbModel, path: Seq<u8>, children: Seq<(u8, BranchChild)>)
    requires
        lists_children(m.branches, path, children),
    ensures
        forall|j: int|
            0 <= j < children.len() ==> lookup(m.branches, path.push(#[trigger] children[j].0)) == Some(
                children[j].1,
            ),
        forall|j: int| 0 < j < children.len() ==> children[j - 1].0 < #[trigger] children[j].0,
{
    assert forall|j: int| 0 < j < children.len() implies children[j - 1].0 < #[trigger] children[j].0 by {
        assert(children[j - 1].0 < children[j].0);
    }
}

/// A leaf written together with its stem and a branch on its path reads
/// back as written, whatever the store held before and in whichever order
/// the three writes come.
pub proof fn lemma_round_trip(
    m: DbModel,
    key: Seq<u8>,
    value: [u8; 32],
    meta: StemMeta,
    path: Seq<u8>,
    bmeta: BranchMeta,
)
    requires
        key.len() == 32,
    ensures
        ({
            let stored = m.with_leaf(key, value).with_stem(key.subrange(0, 31), meta).with_slot(
                path,
                BranchChild::Branch(bmeta),
            );
            &&& lookup(stored.leaves, key) == Some(value)
            &&& lookup(stored.stems, key.subrange(0, 31)) == Some(meta)
            &&& branch_meta_of(lookup(stored.branches, path)) == Ok::<Option<BranchMeta>, VerkleError>(Some(bmeta))
            &&& stored == m.with_slot(path, BranchChild::Branch(bmeta)).with_stem(key.subrange(0, 31), meta).with_leaf(
                key,
                value,
            )
        }),
{
}

} // verus!
