use vstd::prelude::*;

verus! {

/// The failure kinds of the trie operations: building, proof compilation and
/// proof replay. Every fallible function of this crate reports one of these.
#[derive(Clone, Copy, Debug, PartialEq, Eq, Structural)]
pub enum TrieError {
    /// Insertion was asked to store a value under a zero-length key.
    EmptyKeyError,
    /// Insertion reached a leaf whose remaining key already covers the
    /// incoming key in full.
    DuplicateKeyError,
    /// Insertion reached a node kind it cannot descend into (a hash
    /// placeholder or an empty slot used as a root).
    UnsupportedNodeError,
    /// Proof compilation reached a leaf whose key differs from the single
    /// requested key.
    KeyMismatchError,
    /// Proof compilation reached an extension whose fragment is not a prefix
    /// of every requested key.
    KeyNotInTreeError,
    /// Proof compilation was asked to prove keys against an empty slot.
    EmptyTreeError,
    /// Proof replay ran out of hashes or key/value records.
    ProofTruncatedError,
    /// Proof replay met a record that does not decode as a leaf, or finished
    /// with a stack depth other than one.
    MalformedProofError,
    /// Proof replay met an opcode that needs more stack entries than remain.
    StackUnderflowError,
    /// Proof replay was asked to fill a branch slot outside the 16-slot range.
    SlotOutOfRangeError,
    /// Proof replay was asked to fill a slot of a node that is not a full
    /// 16-slot node.
    TypeMismatchError,
    /// Proof compilation met a hash placeholder where a concrete node was
    /// required; a well-formed source tree never triggers this.
    InternalError,
}

} // verus!
