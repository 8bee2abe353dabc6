//! The two ways in which a trie operation fails.

use crate::hash::H256;
use vstd::prelude::*;

verus! {

/// Why a trie could not be opened, read or changed.
#[derive(Clone, Copy, Debug, PartialEq, Eq)]
pub enum TrieError {
    /// The store does not hold the root that a trie was to be opened at.
    InvalidStateRoot(H256),
    /// The store does not hold a usable node under a digest that the trie
    /// refers to.
    IncompleteDatabase(H256),
}

} // verus!
