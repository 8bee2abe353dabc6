use merkle_trie::error::TrieError;
use merkle_trie::hash::{blake_null_rlp, H256};
use merkle_trie::hashdb::{HashDB, MemoryDB};
use merkle_trie::nibbleslice::NibbleSlice;
use merkle_trie::node::Node;
use merkle_trie::triedb::TrieDB;
use merkle_trie::triedbmut::TrieDBMut;

fn digest(data: &[u8]) -> [u8; 32] {
    let hash = blake2b_simd::Params::new().hash_length(32).hash(data);
    let mut out = [0u8; 32];
    out.copy_from_slice(hash.as_bytes());
    out
}

fn pairs(n: u32) -> Vec<(Vec<u8>, Vec<u8>)> {
    let mut out = Vec::new();
    for i in 0..n {
        let key = vec![(i % 7) as u8, (i / 7) as u8, (i * 31 % 256) as u8];
        let value = vec![i as u8, (i >> 8) as u8, 0xaa];
        out.push((key, value));
    }
    out
}

fn root_of(entries: &[(Vec<u8>, Vec<u8>)]) -> H256 {
    let mut db = MemoryDB::new();
    let mut root = H256::zero();
    {
        let mut t = TrieDBMut::new(&mut db, &mut root);
        for (key, value) in entries {
            t.insert(key, value).unwrap();
        }
    }
    root
}

fn check_branches(db: &MemoryDB, hash: &H256, depth: usize) -> usize {
    let bytes = db.get(hash).expect("every node that is referred to is stored");
    match Node::decoded(&bytes).expect("every stored node can be read") {
        Node::Leaf(partial, _) => {
            assert_eq!(depth + partial.len(), 64);
            1
        },
        Node::Branch(partial, children) => {
            let taken = children.iter().filter(|c| c.is_some()).count();
            assert!(taken >= 2, "a branch with {} children", taken);
            let mut leaves = 0;
            for child in children.iter().flatten() {
                leaves += check_branches(db, child, depth + partial.len() + 1);
            }
            leaves
        },
    }
}

#[test]
fn same_entries_in_any_order_give_the_same_root() {
    let x = pairs(40);
    let mut reversed = x.clone();
    reversed.reverse();
    let mut rotated = x.clone();
    rotated.rotate_left(17);
    let mut interleaved: Vec<(Vec<u8>, Vec<u8>)> = Vec::new();
    for i in 0..20 {
        interleaved.push(x[39 - i].clone());
        interleaved.push(x[i].clone());
    }
    let root = root_of(&x);
    assert_ne!(root, blake_null_rlp());
    assert_eq!(root_of(&reversed), root);
    assert_eq!(root_of(&rotated), root);
    assert_eq!(root_of(&interleaved), root);
    assert_ne!(root_of(&x[..39]), root);
}

#[test]
fn root_does_not_remember_what_was_removed() {
    let x = pairs(30);
    let mut db = MemoryDB::new();
    let mut root = H256::zero();
    {
        let mut t = TrieDBMut::new(&mut db, &mut root);
        for (key, value) in &x {
            t.insert(key, value).unwrap();
        }
        for (key, _) in &x[10..20] {
            t.remove(key).unwrap();
        }
    }
    let mut kept: Vec<(Vec<u8>, Vec<u8>)> = x[20..].to_vec();
    kept.extend_from_slice(&x[..10]);
    assert_eq!(root, root_of(&kept));
}

#[test]
fn a_value_is_read_after_it_was_written() {
    let x = pairs(60);
    let mut db = MemoryDB::new();
    let mut root = H256::zero();
    let mut t = TrieDBMut::new(&mut db, &mut root);
    for (key, value) in &x {
        t.insert(key, value).unwrap();
        assert_eq!(t.get(key), Ok(Some(value.clone())));
    }
    for (key, value) in &x {
        assert_eq!(t.get(key), Ok(Some(value.clone())));
    }
    assert_eq!(t.get(&[0xff, 0xff, 0xff, 0xff]), Ok(None));
}

#[test]
fn a_removed_key_is_gone_and_the_others_stay() {
    let x = pairs(20);
    let mut db = MemoryDB::new();
    let mut root = H256::zero();
    let mut t = TrieDBMut::new(&mut db, &mut root);
    for (key, value) in &x {
        t.insert(key, value).unwrap();
    }
    t.remove(&x[5].0).unwrap();
    assert_eq!(t.get(&x[5].0), Ok(None));
    for (i, (key, value)) in x.iter().enumerate() {
        if i != 5 {
            assert_eq!(t.get(key), Ok(Some(value.clone())));
        }
    }
}

#[test]
fn removing_the_only_key_empties_the_trie() {
    let mut db = MemoryDB::new();
    let mut root = H256::zero();
    let mut t = TrieDBMut::new(&mut db, &mut root);
    assert!(t.is_empty());
    t.insert(b"key", b"value").unwrap();
    assert!(!t.is_empty());
    t.remove(b"key").unwrap();
    assert!(t.is_empty());
    assert_eq!(*t.root(), blake_null_rlp());
    assert_eq!(t.get(b"key"), Ok(None));
}

#[test]
fn insert_hands_back_the_value_it_replaces() {
    let mut db = MemoryDB::new();
    let mut root = H256::zero();
    let mut t = TrieDBMut::new(&mut db, &mut root);
    assert_eq!(t.insert(b"k", b"one"), Ok(None));
    assert_eq!(t.insert(b"k", b"two"), Ok(Some(b"one".to_vec())));
    assert_eq!(t.insert(b"k", b"three"), Ok(Some(b"two".to_vec())));
    assert_eq!(t.insert(b"other", b"x"), Ok(None));
    assert_eq!(t.get(b"k"), Ok(Some(b"three".to_vec())));
}

#[test]
fn remove_hands_back_the_value_it_takes_out() {
    let mut db = MemoryDB::new();
    let mut root = H256::zero();
    let mut t = TrieDBMut::new(&mut db, &mut root);
    t.insert(b"k", b"one").unwrap();
    t.insert(b"l", b"two").unwrap();
    assert_eq!(t.remove(b"k"), Ok(Some(b"one".to_vec())));
    assert_eq!(t.remove(b"k"), Ok(None));
    assert_eq!(t.remove(b"l"), Ok(Some(b"two".to_vec())));
    assert_eq!(t.remove(b"l"), Ok(None));
}

#[test]
fn removing_an_absent_key_changes_nothing() {
    let x = pairs(25);
    let mut db = MemoryDB::new();
    let mut root = H256::zero();
    let mut t = TrieDBMut::new(&mut db, &mut root);
    assert_eq!(t.remove(b"absent"), Ok(None));
    assert_eq!(*t.root(), blake_null_rlp());
    for (key, value) in &x {
        t.insert(key, value).unwrap();
    }
    let before = *t.root();
    for probe in 0..50u8 {
        assert_eq!(t.remove(&[0xf0, probe]), Ok(None));
        assert_eq!(*t.root(), before);
    }
}

#[test]
fn all_removed_in_any_order_leaves_the_empty_root() {
    let x = pairs(50);
    let mut orders: Vec<Vec<(Vec<u8>, Vec<u8>)>> = Vec::new();
    orders.push(x.clone());
    let mut reversed = x.clone();
    reversed.reverse();
    orders.push(reversed);
    let mut rotated = x.clone();
    rotated.rotate_left(23);
    orders.push(rotated);
    for order in orders {
        let mut db = MemoryDB::new();
        let mut root = H256::zero();
        let mut t = TrieDBMut::new(&mut db, &mut root);
        for (key, value) in &x {
            t.insert(key, value).unwrap();
        }
        for (key, value) in &order {
            assert_eq!(t.remove(key), Ok(Some(value.clone())));
        }
        assert!(t.is_empty());
        assert_eq!(*t.root(), blake_null_rlp());
    }
}

#[test]
fn a_written_trie_is_opened_again() {
    let x = pairs(12);
    let mut db = MemoryDB::new();
    let mut root = H256::zero();
    {
        let mut t = TrieDBMut::new(&mut db, &mut root);
        for (key, value) in &x[..8] {
            t.insert(key, value).unwrap();
        }
    }
    let written = root;
    {
        let mut t = TrieDBMut::from_existing(&mut db, &mut root).unwrap();
        assert_eq!(*t.root(), written);
        for (key, value) in &x[..8] {
            assert_eq!(t.get(key), Ok(Some(value.clone())));
        }
        for (key, value) in &x[8..] {
            t.insert(key, value).unwrap();
        }
    }
    assert_eq!(root, root_of(&x));
}

#[test]
fn an_unknown_root_is_refused() {
    let mut root = H256([0x5a; 32]);
    let mut db = MemoryDB::new();
    match TrieDBMut::from_existing(&mut db, &mut root) {
        Err(e) => assert_eq!(e, TrieError::InvalidStateRoot(H256([0x5a; 32]))),
        Ok(_) => panic!("the store holds nothing under this root"),
    }
    assert_eq!(root, H256([0x5a; 32]));

    let mut db = MemoryDB::new();
    let mut other = H256::zero();
    {
        let mut t = TrieDBMut::new(&mut db, &mut other);
        t.insert(b"k", b"v").unwrap();
    }
    assert!(TrieDBMut::from_existing(&mut db, &mut root).is_err());
    assert!(TrieDBMut::from_existing(&mut db, &mut other).is_ok());
    let mut empty = blake_null_rlp();
    assert!(TrieDBMut::from_existing(&mut db, &mut empty).is_ok());
}

#[test]
fn no_branch_has_fewer_than_two_children() {
    let x = pairs(80);
    let mut db = MemoryDB::new();
    let mut root = H256::zero();
    {
        let mut t = TrieDBMut::new(&mut db, &mut root);
        for (key, value) in &x {
            t.insert(key, value).unwrap();
        }
    }
    assert_eq!(check_branches(&db, &root, 0), 80);
    for round in 0..7 {
        {
            let mut t = TrieDBMut::from_existing(&mut db, &mut root).unwrap();
            for (key, _) in &x[round * 10..round * 10 + 10] {
                t.remove(key).unwrap();
            }
        }
        assert_eq!(check_branches(&db, &root, 0), 70 - round * 10);
    }
}

#[test]
fn a_missing_node_stops_the_walk_and_leaves_the_root() {
    let mut full = MemoryDB::new();
    let mut root = H256::zero();
    {
        let mut t = TrieDBMut::new(&mut full, &mut root);
        t.insert(&[0x01u8, 0x23], &[0x01u8, 0x23]).unwrap();
        t.insert(&[0xf1u8, 0x23], &[0xf1u8, 0x23]).unwrap();
    }
    let top = full.get(&root).unwrap();
    let children = match Node::decoded(&top) {
        Some(Node::Branch(_, children)) => children,
        _ => panic!("two keys make a branch"),
    };
    let missing: Vec<H256> = children.iter().flatten().cloned().collect();
    assert_eq!(missing.len(), 2);

    let mut partial = MemoryDB::new();
    assert_eq!(partial.insert(&top), root);
    let before = root;
    {
        let mut t = TrieDBMut::from_existing(&mut partial, &mut root).unwrap();
        assert!(!t.is_complete());
        match t.get(&[0x01u8, 0x23]) {
            Err(TrieError::IncompleteDatabase(h)) => assert!(missing.contains(&h)),
            other => panic!("{:?}", other),
        }
        match t.insert(&[0x01u8, 0x23], &[0x00]) {
            Err(TrieError::IncompleteDatabase(h)) => assert!(missing.contains(&h)),
            other => panic!("{:?}", other),
        }
        assert_eq!(*t.root(), before);
        match t.remove(&[0xf1u8, 0x23]) {
            Err(TrieError::IncompleteDatabase(h)) => assert!(missing.contains(&h)),
            other => panic!("{:?}", other),
        }
        assert_eq!(*t.root(), before);
    }
    assert_eq!(root, before);
}

#[test]
fn a_missing_last_child_stops_the_removal() {
    let mut full = MemoryDB::new();
    let mut root = H256::zero();
    {
        let mut t = TrieDBMut::new(&mut full, &mut root);
        t.insert(&[0x01u8, 0x23], &[0x01u8, 0x23]).unwrap();
        t.insert(&[0xf1u8, 0x23], &[0xf1u8, 0x23]).unwrap();
    }
    let top = full.get(&root).unwrap();
    let path = digest(&[0x01u8, 0x23]);
    let slot = (path[0] >> 4) as usize;
    let kept = match Node::decoded(&top) {
        Some(Node::Branch(partial, children)) => {
            assert!(partial.is_empty());
            children[slot].unwrap()
        },
        _ => panic!("two keys that part at once make a branch without a prefix"),
    };
    let mut partial = MemoryDB::new();
    partial.insert(&top);
    partial.insert(&full.get(&kept).unwrap());
    let before = root;
    let mut t = TrieDBMut::from_existing(&mut partial, &mut root).unwrap();
    assert_eq!(t.get(&[0x01u8, 0x23]), Ok(Some(vec![0x01u8, 0x23])));
    assert_eq!(t.remove(&[0x01u8, 0x23]), Err(TrieError::IncompleteDatabase(before)));
    assert_eq!(*t.root(), before);
}

#[test]
fn a_raw_leaf_is_set_in_as_insert_writes_it() {
    let x = pairs(10);
    let mut db = MemoryDB::new();
    let mut root = H256::zero();
    {
        let mut t = TrieDBMut::new(&mut db, &mut root);
        for (key, value) in &x {
            let path = digest(key);
            assert_eq!(t.insert_raw(Node::Leaf(NibbleSlice::new(&path), value)), Ok(None));
        }
        for (key, value) in &x {
            assert_eq!(t.get(key), Ok(Some(value.clone())));
        }
    }
    assert_eq!(root, root_of(&x));
}

#[test]
fn a_raw_leaf_hands_back_the_written_leaf_it_replaces() {
    let mut db = MemoryDB::new();
    let mut root = H256::zero();
    let mut t = TrieDBMut::new(&mut db, &mut root);
    let path = digest(b"key");
    let first = Node::Leaf(NibbleSlice::new(&path), b"one");
    let second = Node::Leaf(NibbleSlice::new(&path), b"two");
    assert_eq!(t.insert_raw(first), Ok(None));
    assert_eq!(t.insert_raw(second), Ok(Some(Node::encoded(first))));
    assert_eq!(t.get(b"key"), Ok(Some(b"two".to_vec())));
    // below a branch the leaf is written without the nibbles that lie above it
    t.insert(b"other", b"x").unwrap();
    let other = digest(b"other");
    let shared = NibbleSlice::new(&path).common_prefix(&NibbleSlice::new(&other));
    let below = Node::Leaf(NibbleSlice::new(&path).mid(shared + 1), b"two");
    assert_eq!(t.insert_raw(first), Ok(Some(Node::encoded(below))));
    assert_eq!(t.get(b"key"), Ok(Some(b"one".to_vec())));
    assert_eq!(t.get(b"other"), Ok(Some(b"x".to_vec())));
}

#[test]
fn a_raw_branch_brings_its_subtrie_along() {
    // two keys whose paths share their first nibble, so that one branch with a
    // prefix holds them both
    let mut a: Vec<u8> = Vec::new();
    let mut b: Vec<u8> = Vec::new();
    for i in 0..=255u8 {
        for j in 0..=255u8 {
            if i != j && digest(&[i])[0] >> 4 == digest(&[j])[0] >> 4 && b.is_empty() {
                a = vec![i];
                b = vec![j];
            }
        }
    }
    assert!(!b.is_empty());
    let other: Vec<u8> = (0..=255u8).map(|k| vec![k]).find(|k| digest(k)[0] >> 4 != digest(&a)[0] >> 4).unwrap();

    let mut db = MemoryDB::new();
    let mut sub_root = H256::zero();
    {
        let mut t = TrieDBMut::new(&mut db, &mut sub_root);
        t.insert(&a, b"a").unwrap();
        t.insert(&b, b"b").unwrap();
    }
    let top = db.get(&sub_root).unwrap();
    let graft = Node::decoded(&top).unwrap();
    assert!(graft.partial().len() >= 1);

    let mut root = H256::zero();
    {
        let mut t = TrieDBMut::new(&mut db, &mut root);
        t.insert(&other, b"o").unwrap();
        assert_eq!(t.insert_raw(graft), Ok(None));
        assert_eq!(t.get(&a), Ok(Some(b"a".to_vec())));
        assert_eq!(t.get(&b), Ok(Some(b"b".to_vec())));
        assert_eq!(t.get(&other), Ok(Some(b"o".to_vec())));
        assert!(t.is_complete());
    }
    assert_eq!(root, root_of(&[(a, b"a".to_vec()), (b, b"b".to_vec()), (other, b"o".to_vec())]));
}

#[test]
fn completeness_is_told_of_the_whole_trie() {
    let x = pairs(15);
    let mut db = MemoryDB::new();
    let mut root = H256::zero();
    let mut t = TrieDBMut::new(&mut db, &mut root);
    assert!(t.is_complete());
    for (key, value) in &x {
        t.insert(key, value).unwrap();
        assert!(t.is_complete());
    }
    let mut nowhere = H256([1; 32]);
    let mut empty = MemoryDB::new();
    assert!(TrieDB::try_new(&empty, &nowhere).is_err());
    let _ = &mut nowhere;
    let _ = &mut empty;
}

#[test]
fn read_only_view_reads_what_was_written() {
    let x = pairs(9);
    let mut db = MemoryDB::new();
    let mut root = H256::zero();
    {
        let mut t = TrieDBMut::new(&mut db, &mut root);
        for (key, value) in &x {
            t.insert(key, value).unwrap();
        }
    }
    let t = TrieDB::try_new(&db, &root).unwrap();
    for (key, value) in &x {
        assert_eq!(t.get(key), Ok(Some(value.clone())));
    }
    assert_eq!(t.get(b"absent"), Ok(None));
    assert!(t.is_complete());
    let zero = H256::zero();
    match TrieDB::try_new(&db, &zero) {
        Err(e) => assert_eq!(e, TrieError::InvalidStateRoot(zero)),
        Ok(_) => panic!("nothing is stored under the zero digest"),
    }
    let empty = blake_null_rlp();
    let t = TrieDB::try_new(&db, &empty).unwrap();
    assert_eq!(t.get(&x[0].0), Ok(None));
    assert!(t.is_complete());
}

#[test]
fn more_nodes_than_the_cache_holds() {
    let mut entries: Vec<(Vec<u8>, Vec<u8>)> = Vec::new();
    for i in 0..1200u32 {
        entries.push((vec![i as u8, (i >> 8) as u8, 0x33], vec![(i % 251) as u8; 3]));
    }
    let mut db = MemoryDB::new();
    let mut root = H256::zero();
    {
        let mut t = TrieDBMut::new(&mut db, &mut root);
        for (key, value) in &entries {
            assert_eq!(t.insert(key, value), Ok(None));
        }
        for (key, value) in &entries {
            assert_eq!(t.insert(key, value), Ok(Some(value.clone())));
        }
        for (key, value) in &entries[..600] {
            assert_eq!(t.remove(key), Ok(Some(value.clone())));
        }
        for (key, value) in &entries[600..] {
            assert_eq!(t.get(key), Ok(Some(value.clone())));
        }
    }
    assert_eq!(check_branches(&db, &root, 0), 600);
    let mut again = MemoryDB::new();
    let mut second = H256::zero();
    {
        let mut t = TrieDBMut::new(&mut again, &mut second);
        for (key, value) in entries[600..].iter().rev() {
            t.insert(key, value).unwrap();
        }
    }
    assert_eq!(root, second);
}

#[test]
fn the_root_slot_holds_the_root_when_the_handle_is_gone() {
    let mut db = MemoryDB::new();
    let mut root = H256::zero();
    let seen;
    {
        let mut t = TrieDBMut::new(&mut db, &mut root);
        t.insert(b"k", b"v").unwrap();
        seen = *t.root();
    }
    assert_eq!(root, seen);
    assert!(db.contains(&root));
}

#[test]
fn digests_are_made_of_32_bytes() {
    assert_eq!(H256::zero(), H256([0u8; 32]));
    assert_eq!(H256::zero().as_bytes(), &[0u8; 32]);
    let bytes: Vec<u8> = (0..32).collect();
    let h = H256::from_slice(&bytes).unwrap();
    assert_eq!(&h.as_bytes()[..], &bytes[..]);
    assert!(H256::from_slice(&bytes[..31]).is_none());
    assert!(H256::from_slice(&[]).is_none());
    assert!(h != H256::zero());
    let mut other = h;
    other.0[31] ^= 1;
    assert!(h != other);
    assert!(h == H256::from_slice(&bytes).unwrap());
}

#[test]
fn store_gives_each_value_its_own_digest() {
    let mut db = MemoryDB::new();
    let a = db.insert(b"a");
    let b = db.insert(b"b");
    assert_ne!(a, b);
    assert_eq!(a, H256(digest(b"a")));
    assert_eq!(db.insert(b"a"), a);
    assert_eq!(db.get(&a), Some(b"a".to_vec()));
    assert_eq!(db.get(&b), Some(b"b".to_vec()));
    assert_ne!(a, H256(*b"a\0\0\0\0\0\0\0\0\0\0\0\0\0\0\0\0\0\0\0\0\0\0\0\0\0\0\0\0\0\0\0"));
}

#[test]
fn a_leaf_that_ends_within_the_path_stops_insertion() {
    let path = digest(b"key");
    let short = Node::encoded(Node::Leaf(NibbleSlice::new(&path[..10]), b"v"));
    let mut db = MemoryDB::new();
    let mut root = db.insert(&short);
    let before = root;
    let mut t = TrieDBMut::from_existing(&mut db, &mut root).unwrap();
    assert_eq!(t.insert(b"key", b"w"), Err(TrieError::IncompleteDatabase(before)));
    assert_eq!(*t.root(), before);
    // the look-up compares whole paths and finds none
    assert_eq!(t.get(b"key"), Ok(None));
    // the removal leaves a leaf with another path alone
    assert_eq!(t.remove(b"key"), Ok(None));
    assert_eq!(*t.root(), before);
}

#[test]
fn a_branch_whose_prefix_is_the_whole_path_stops_the_walk() {
    let path = digest(b"key");
    let mut children = merkle_trie::node::empty_children();
    children[0] = Some(H256([1; 32]));
    children[1] = Some(H256([2; 32]));
    let odd = Node::encoded(Node::Branch(NibbleSlice::new(&path), children));
    let mut db = MemoryDB::new();
    let mut root = db.insert(&odd);
    let before = root;
    let mut t = TrieDBMut::from_existing(&mut db, &mut root).unwrap();
    assert_eq!(t.insert(b"key", b"w"), Err(TrieError::IncompleteDatabase(before)));
    assert_eq!(t.remove(b"key"), Err(TrieError::IncompleteDatabase(before)));
    assert_eq!(t.get(b"key"), Ok(None));
    assert_eq!(*t.root(), before);
    assert!(!t.is_complete());
}

#[test]
fn bytes_that_are_no_node_count_as_nothing() {
    let mut db = MemoryDB::new();
    let mut root = db.insert(b"not a node");
    let before = root;
    let mut t = TrieDBMut::from_existing(&mut db, &mut root).unwrap();
    assert_eq!(t.get(b"key"), Ok(None));
    assert_eq!(t.remove(b"key"), Ok(None));
    assert_eq!(*t.root(), before);
    assert!(!t.is_complete());
    assert_eq!(t.insert(b"key", b"value"), Ok(None));
    assert_eq!(t.get(b"key"), Ok(Some(b"value".to_vec())));
    assert_eq!(*t.root(), root_of(&[(b"key".to_vec(), b"value".to_vec())]));
}

#[test]
fn a_failed_change_writes_nothing() {
    let mut full = MemoryDB::new();
    let mut root = H256::zero();
    {
        let mut t = TrieDBMut::new(&mut full, &mut root);
        t.insert(&[0x01u8, 0x23], &[0x01u8, 0x23]).unwrap();
        t.insert(&[0xf1u8, 0x23], &[0xf1u8, 0x23]).unwrap();
    }
    let top = full.get(&root).unwrap();
    let mut partial = MemoryDB::new();
    partial.insert(&top);
    {
        let mut t = TrieDBMut::from_existing(&mut partial, &mut root).unwrap();
        assert!(t.insert(&[0x01u8, 0x23], &[0x00]).is_err());
        assert!(t.remove(&[0x01u8, 0x23]).is_err());
    }
    // nothing but the topmost node is in the store
    let leaf = Node::encoded(Node::Leaf(NibbleSlice::new(&digest(&[0x01u8, 0x23])).mid(1), &[0x00]));
    assert!(!partial.contains(&H256(digest(&leaf))));
    assert!(partial.contains(&root));
    let mut probe = MemoryDB::new();
    probe.insert(&top);
    assert_eq!(probe.get(&root), partial.get(&root));
}

#[test]
fn two_long_values_removed_in_either_order_leave_the_empty_root() {
    let big_value0 = b"00000000000000000000000000000000";
    let big_value1 = b"11111111111111111111111111111111";
    for first_goes_first in [true, false] {
        let mut db = MemoryDB::new();
        let mut root = H256::zero();
        let mut t = TrieDBMut::new(&mut db, &mut root);
        t.insert(&[0x01, 0x23], big_value0).unwrap();
        t.insert(&[0x01, 0x34], big_value1).unwrap();
        assert_ne!(*t.root(), blake_null_rlp());
        if first_goes_first {
            assert_eq!(t.remove(&[0x01, 0x23]), Ok(Some(big_value0.to_vec())));
            assert_eq!(t.remove(&[0x01, 0x34]), Ok(Some(big_value1.to_vec())));
        } else {
            assert_eq!(t.remove(&[0x01, 0x34]), Ok(Some(big_value1.to_vec())));
            assert_eq!(t.remove(&[0x01, 0x23]), Ok(Some(big_value0.to_vec())));
        }
        assert_eq!(*t.root(), blake_null_rlp());
        assert!(t.is_empty());
    }
}

#[test]
fn the_last_child_takes_the_place_of_its_branch() {
    let x = pairs(3);
    let mut db = MemoryDB::new();
    let mut root = H256::zero();
    {
        let mut t = TrieDBMut::new(&mut db, &mut root);
        for (key, value) in &x {
            t.insert(key, value).unwrap();
        }
        t.remove(&x[0].0).unwrap();
        t.remove(&x[2].0).unwrap();
    }
    assert_eq!(root, root_of(&x[1..2]));
    match Node::decoded(&db.get(&root).unwrap()) {
        Some(Node::Leaf(partial, value)) => {
            assert_eq!(partial.to_vec().len(), 64);
            assert_eq!(value, &x[1].1[..]);
        },
        _ => panic!("a single key is a single leaf"),
    }
}
