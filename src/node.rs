use vstd::prelude::*;

verus! {

/// A commitment, held as its 32-byte compressed encoding. Every commitment
/// of the trie (branch, stem, and the two half-stem commitments) uses this
/// one representation.
pub type Commitment = [u8; 32];

/// Metadata of a stem: the commitment to its extension, and the two
/// commitments to the lower (suffixes 0..128) and upper (128..256) halves of
/// its 256 values.
#[derive(Clone, Copy, Debug, PartialEq, Eq)]
pub struct StemMeta {
    pub c_1: Commitment,
    pub c_2: Commitment,
    pub stem_commitment: Commitment,
}

/// Metadata of an internal branch: the commitment to its children.
#[derive(Clone, Copy, Debug, PartialEq, Eq)]
pub struct BranchMeta {
    pub commitment: Commitment,
}

/// What a branch slot holds: a single stem, or a nested branch.
#[derive(Clone, Copy, Debug, PartialEq, Eq)]
pub enum BranchChild {
    Stem([u8; 31]),
    Branch(BranchMeta),
}

/// Errors of storage lookups and of proof construction.
#[derive(Clone, Copy, Debug, PartialEq, Eq, Structural)]
pub enum VerkleError {
    /// A proof was asked for with no keys.
    EmptyKeySet,
    /// A slot held a stem where a branch was expected, or the reverse.
    PathMismatch,
    /// A node that a positive proof step needs was absent.
    MissingExpectedNode,
}

} // verus!
