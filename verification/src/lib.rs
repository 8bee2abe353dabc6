//! A mutable, content-addressed radix trie over a hash-addressed byte store.
//!
//! The whole key-to-value mapping is summarised by one 256-bit root digest; two
//! tries that hold the same pairs have the same root, whatever the order in
//! which the pairs were written.
//!
//! Keys are hashed, and the 64 nibbles of the hash are the path of a key in the
//! trie. A node is a leaf, which ends a path and holds a value, or a branch,
//! which holds a prefix shared by all that lies below it and up to sixteen
//! children, one for each nibble that may follow the prefix. Nodes are never
//! changed: every insertion and removal writes the nodes along one path anew,
//! each under the digest of its written form, and sets the root to the digest
//! of the new topmost node.
//!
//! How to read the contracts:
//!
//! - [`subtrie::Subtrie`] is the trie as a mathematical tree, with
//!   [`subtrie::insert_into`], [`subtrie::remove_from`] and
//!   [`subtrie::Subtrie::lookup`] on it. [`subtrie::represents`] ties a root in
//!   a store to the one tree that it stands for.
//! - A handle is viewed as the map from paths to values that look-ups from its
//!   root find. [`triedbmut::TrieDBMut`] states of each operation what it
//!   returns, what map it leaves and what root, for every trie that the handle
//!   stands on.
//! - [`walk`] says the same of every store, whether it holds a trie or not: on
//!   which stores an operation fails and with which digest, and what it
//!   returns and writes where it goes through.
//! - Nothing can rule out that two byte strings have the same digest. What the
//!   store holds after a write is therefore stated under
//!   [`subtrie::clash_free`], which says of the byte strings at hand that no
//!   two of them do.
//! - [`laws`] holds what follows for all tries: that the contents decide the
//!   trie and so the root, that a value written is the value read, that a
//!   removal undoes an insertion, and that no branch is left with fewer than
//!   two children.

pub mod cache;
pub mod error;
pub mod hash;
pub mod hashdb;
pub mod laws;
pub mod nibbleslice;
pub mod node;
pub mod rlp;
pub mod subtrie;
pub mod triedb;
pub mod triedbmut;
pub mod walk;
