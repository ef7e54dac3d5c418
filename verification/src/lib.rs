//! A 16-ary Merkle Patricia trie with a compact multi-key proof protocol.
//!
//! A trie is built by repeated insertion of `(key, value)` pairs. From a
//! built trie, `make_multiproof` compiles a compact instruction stream that
//! carries just the hashes and leaf records needed along the requested keys,
//! and `rebuild` replays such a stream into a partial tree whose root
//! commitment can be checked against the original's.
//!
//! The protocol's laws are stated and proved alongside the functions: the
//! round trip of proving and replaying (`roundtrip`), determinism and
//! minimality of the compiler and the failure on empty trees (`prove`),
//! duplicate rejection and slot-wise insertion commutativity (`insert`), and
//! the small-record inlining rule (`hashing`).

pub mod codec;
pub mod errors;
pub mod hashing;
pub mod insert;
pub mod nibbles;
pub mod node;
pub mod prove;
pub mod rebuild;
pub mod roundtrip;

pub use errors::TrieError;
pub use insert::insert_leaf;
pub use nibbles::NibbleKey;
pub use node::{Instruction, Multiproof, Node};
pub use prove::make_multiproof;
pub use rebuild::rebuild;
