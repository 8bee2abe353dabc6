//! The read-only view of a trie: look-up by walking down from the root.

use crate::error::TrieError;
use crate::hash::{blake256, blake_null_rlp, empty_root, H256};
use crate::hashdb::HashDB;
use crate::laws::lemma_stored_valid;
use crate::nibbleslice::NibbleSlice;
use crate::node::{children_view, decode_node, lemma_node_round_trip, Node, NodeView};
use crate::subtrie::{key_path, lookup, represents, Subtrie};
use crate::walk::{digest_view, found, lemma_read_at, read_at, start_of};
use vstd::prelude::*;
use vstd::slice::slice_to_vec;

verus! {

/// The bytes of an optional buffer.
pub open spec fn bytes_of(value: Option<Vec<u8>>) -> Option<Seq<u8>> {
    match value {
        Some(v) => Some(v@),
        None => None,
    }
}

/// Whether the outcome `r` of a look-up is the end `walk` of its walk: the value
/// found, or the error that names the digest of the node that is missing.
pub open spec fn reads(
    r: Result<Option<Vec<u8>>, TrieError>,
    walk: Result<Option<Seq<u8>>, Seq<u8>>,
) -> bool {
    match walk {
        Ok(v) => r is Ok && bytes_of(r->Ok_0) == v,
        Err(h) => r is Err && r->Err_0 is IncompleteDatabase && r->Err_0->IncompleteDatabase_0@
            == h,
    }
}

/// Whether `store` holds a readable node under `hash` and under every digest
/// that can be reached from it, through at most `depth` branches one below the
/// other.
pub open spec fn complete(store: Map<Seq<u8>, Seq<u8>>, hash: Seq<u8>, depth: nat) -> bool
    decreases depth,
{
    store.contains_key(hash) && (match decode_node(store[hash]) {
        Some(NodeView::Leaf { .. }) => true,
        Some(NodeView::Branch { partial, children }) => depth > 0 && forall|i: int|
            0 <= i < children.len() && (#[trigger] children[i]) is Some ==> complete(
                store,
                children[i]->0,
                (depth - 1) as nat,
            ),
        None => false,
    })
}

/// A store that holds a subtrie is complete below the digest of the subtrie.
pub proof fn lemma_stored_complete(
    s: Subtrie,
    store: Map<Seq<u8>, Seq<u8>>,
    height: nat,
    depth: nat,
)
    requires
        s.stored(store),
        s.height_ok(height),
        height <= depth,
    ensures
        complete(store, s.digest(), depth),
    decreases s,
{
    lemma_stored_valid(s, store, height);
    lemma_node_round_trip(s.node());
    match s {
        Subtrie::Leaf { .. } => {},
        Subtrie::Branch { partial, children } => {
            let slots = s.node()->Branch_children;
            assert forall|i: int| 0 <= i < slots.len() && (#[trigger] slots[i]) is Some implies complete(
                store,
                slots[i]->0,
                (depth - 1) as nat,
            ) by {
                assert(children[i] is Some);
                lemma_stored_complete(
                    children[i]->0,
                    store,
                    (height - partial.len() - 1) as nat,
                    (depth - 1) as nat,
                );
            }
        },
    }
}

/// A trie to read from: a store and the root to start at.
pub struct TrieDB<'db, D: HashDB> {
    pub db: &'db D,
    pub root: &'db H256,
}

impl<'db, D: HashDB> View for TrieDB<'db, D> {
    type V = Map<Seq<u8>, Seq<u8>>;

    /// What the look-ups find: a value for each path that the trie has.
    open spec fn view(&self) -> Map<Seq<u8>, Seq<u8>> {
        found(self.db.contents(), self.root@)
    }
}

impl<'db, D: HashDB> TrieDB<'db, D> {
    /// What the store holds.
    pub open spec fn store(&self) -> Map<Seq<u8>, Seq<u8>> {
        self.db.contents()
    }

    /// The root.
    pub open spec fn root_digest(&self) -> Seq<u8> {
        self.root@
    }

    /// Opens the trie at `root`. The root of the empty trie is taken as it is;
    /// any other must be in the store.
    pub fn try_new(db: &'db D, root: &'db H256) -> (r: Result<Self, TrieError>)
        ensures
            r is Ok <==> root@ == empty_root() || db.contents().contains_key(root@),
            r is Ok ==> r->Ok_0.store() == db.contents() && r->Ok_0.root_digest() == root@,
            r is Err ==> r->Err_0 == TrieError::InvalidStateRoot(*root),
    {
        if *root == blake_null_rlp() || db.contains(root) {
            Ok(TrieDB { db, root })
        } else {
            Err(TrieError::InvalidStateRoot(*root))
        }
    }

    /// The value at the end of `path` below the node at `cur_node_hash`.
    fn get_aux(&self, path: &NibbleSlice<'_>, cur_node_hash: Option<H256>) -> (r: Result<
        Option<Vec<u8>>,
        TrieError,
    >)
        ensures
            reads(r, read_at(self.store(), digest_view(cur_node_hash), path@)),
        decreases path@.len(),
    {
        let hash = match cur_node_hash {
            Some(hash) => hash,
            None => {
                return Ok(None);
            },
        };
        let node_rlp = match self.db.get(&hash) {
            Some(node_rlp) => node_rlp,
            None => {
                return Err(TrieError::IncompleteDatabase(hash));
            },
        };
        match Node::decoded(node_rlp.as_slice()) {
            Some(Node::Leaf(partial, value)) => {
                if partial.equals(path) {
                    Ok(Some(slice_to_vec(value)))
                } else {
                    Ok(None)
                }
            },
            Some(Node::Branch(partial, children)) => {
                if path.starts_with(&partial) && path.len() > partial.len() {
                    let slot: usize = path.at(partial.len()) as usize;
                    let sub = path.mid(partial.len() + 1);
                    assert(digest_view(children[slot as int]) == children_view(children@)[slot as int]);
                    self.get_aux(&sub, children[slot])
                } else {
                    Ok(None)
                }
            },
            None => Ok(None),
        }
    }

    /// Whether the store holds every node below the node at `hash`.
    fn is_complete_aux(&self, hash: &H256, depth: usize) -> (r: bool)
        ensures
            r == complete(self.store(), hash@, depth as nat),
        decreases depth,
    {
        let node_rlp = match self.db.get(hash) {
            Some(node_rlp) => node_rlp,
            None => {
                return false;
            },
        };
        match Node::decoded(node_rlp.as_slice()) {
            Some(Node::Leaf(_, _)) => true,
            Some(Node::Branch(partial, children)) => {
                if depth == 0 {
                    return false;
                }
                let ghost slots = children_view(children@);
                let mut i: usize = 0;
                while i < 16
                    invariant
                        i <= 16,
                        depth > 0,
                        slots == children_view(children@),
                        self.store().contains_key(hash@),
                        decode_node(self.store()[hash@]) == Some(
                            NodeView::Branch { partial: partial@, children: slots },
                        ),
                        forall|k: int|
                            0 <= k < i && (#[trigger] slots[k]) is Some ==> complete(
                                self.store(),
                                slots[k]->0,
                                (depth - 1) as nat,
                            ),
                    decreases 16 - i,
                {
                    match children[i] {
                        Some(child) => {
                            assert(slots[i as int] == Some(child@));
                            if !self.is_complete_aux(&child, depth - 1) {
                                return false;
                            }
                        },
                        None => {
                            assert(slots[i as int] is None);
                        },
                    }
                    i += 1;
                }
                true
            },
            None => false,
        }
    }

    /// Whether the store holds every node of the trie.
    pub fn is_complete(&self) -> (r: bool)
        ensures
            r == (self.root_digest() == empty_root() || complete(
                self.store(),
                self.root_digest(),
                64,
            )),
            forall|t: Option<Subtrie>| #[trigger]
                represents(self.store(), self.root_digest(), t) ==> r,
    {
        proof {
            assert forall|t: Option<Subtrie>| #[trigger]
                represents(self.store(), self.root_digest(), t) implies self.root_digest()
                == empty_root() || complete(self.store(), self.root_digest(), 64) by {
                if t is Some {
                    lemma_stored_complete(t->0, self.store(), 64, 64);
                }
            }
        }
        *self.root == blake_null_rlp() || self.is_complete_aux(self.root, 64)
    }

    /// The value that the trie holds for `key`, if any.
    pub fn get(&self, key: &[u8]) -> (r: Result<Option<Vec<u8>>, TrieError>)
        ensures
            reads(r, read_at(self.store(), start_of(self.root_digest()), key_path(key@))),
            r is Ok ==> bytes_of(r->Ok_0) == self@.get(key_path(key@)),
            forall|t: Option<Subtrie>| #[trigger]
                represents(self.store(), self.root_digest(), t) ==> r is Ok && bytes_of(r->Ok_0)
                    == lookup(t, key_path(key@)),
    {
        let hashed = blake256(key);
        let path = NibbleSlice::new(hashed.as_bytes().as_slice());
        let cur = if *self.root == blake_null_rlp() {
            None
        } else {
            Some(*self.root)
        };
        proof {
            path.lemma_nibbles();
            assert forall|t: Option<Subtrie>| #[trigger]
                represents(self.store(), self.root_digest(), t) implies read_at(
                self.store(),
                start_of(self.root_digest()),
                key_path(key@),
            ) == Ok::<Option<Seq<u8>>, Seq<u8>>(lookup(t, key_path(key@))) by {
                lemma_read_at(self.store(), t, key_path(key@));
            }
        }
        self.get_aux(&path, cur)
    }
}

} // verus!
