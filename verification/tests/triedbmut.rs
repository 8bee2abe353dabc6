use merkle_trie::hash::{blake_null_rlp, H256};
use merkle_trie::hashdb::{HashDB, MemoryDB};
use merkle_trie::triedbmut::TrieDBMut;
use rlp::RlpStream;
use std::collections::BTreeMap;
use trie_standardmap::{Alphabet, StandardMap, ValueMode};

fn digest(data: &[u8]) -> [u8; 32] {
    let hash = blake2b_simd::Params::new().hash_length(32).hash(data);
    let mut out = [0u8; 32];
    out.copy_from_slice(hash.as_bytes());
    out
}

fn nibbles(bytes: &[u8]) -> Vec<u8> {
    let mut out = Vec::new();
    for b in bytes {
        out.push(b >> 4);
        out.push(b & 15);
    }
    out
}

fn packed(path: &[u8], leaf: bool) -> Vec<u8> {
    let flag = if leaf { 0x20u8 } else { 0 };
    let mut out = Vec::new();
    let rest = if path.len() % 2 == 1 {
        out.push(flag | 0x10 | path[0]);
        &path[1..]
    } else {
        out.push(flag);
        path
    };
    for pair in rest.chunks(2) {
        out.push((pair[0] << 4) | pair[1]);
    }
    out
}

fn subtree_root(entries: &[(Vec<u8>, Vec<u8>)], from: usize) -> Option<[u8; 32]> {
    if entries.is_empty() {
        return None;
    }
    if entries.len() == 1 {
        let mut stream = RlpStream::new_list(2);
        stream.append(&packed(&entries[0].0[from..], true));
        stream.append(&entries[0].1);
        return Some(digest(&stream.out()));
    }
    let first = &entries[0].0;
    let last = &entries[entries.len() - 1].0;
    let mut shared = 0;
    while first[from + shared] == last[from + shared] {
        shared += 1;
    }
    let mut stream = RlpStream::new_list(17);
    stream.append(&packed(&first[from..from + shared], false));
    for nibble in 0..16u8 {
        let below: Vec<(Vec<u8>, Vec<u8>)> =
            entries.iter().filter(|e| e.0[from + shared] == nibble).cloned().collect();
        match subtree_root(&below, from + shared + 1) {
            Some(hash) => stream.append(&hash.to_vec()),
            None => stream.append_empty_data(),
        };
    }
    Some(digest(&stream.out()))
}

fn trie_root(input: Vec<(Vec<u8>, Vec<u8>)>) -> H256 {
    let mut sorted: BTreeMap<Vec<u8>, Vec<u8>> = BTreeMap::new();
    for (key, value) in input {
        sorted.insert(nibbles(&digest(&key)), value);
    }
    let entries: Vec<(Vec<u8>, Vec<u8>)> = sorted.into_iter().collect();
    match subtree_root(&entries, 0) {
        Some(hash) => H256(hash),
        None => H256(digest(&[0x80])),
    }
}

fn populate_trie<'db>(
    db: &'db mut MemoryDB,
    root: &'db mut H256,
    v: &[(Vec<u8>, Vec<u8>)],
) -> TrieDBMut<'db, MemoryDB> {
    let mut t = TrieDBMut::new(db, root);
    for (key, val) in v {
        t.insert(key, val).unwrap();
    }
    t
}

fn unpopulate_trie(t: &mut TrieDBMut<'_, MemoryDB>, v: &[(Vec<u8>, Vec<u8>)]) {
    for i in v {
        let key: &[u8] = &i.0;
        t.remove(key).unwrap();
    }
}

#[test]
fn playpen() {
    let mut seed = [0u8; 32];
    for test_i in 0..10 {
        if test_i % 50 == 0 {
            println!("{:?} of 10000 stress tests done", test_i);
        }
        let x = StandardMap {
            alphabet: Alphabet::Custom(b"@QWERTYUIOPASDFGHJKLZXCVBNM[/]^_".to_vec()),
            min_key: 5,
            journal_key: 0,
            value_mode: ValueMode::Index,
            count: 100,
        }
        .make_with(&mut seed);

        let real = trie_root(x.clone());
        let mut memdb = MemoryDB::new();
        let mut root = H256::zero();
        let mut memtrie = populate_trie(&mut memdb, &mut root, &x);

        if *memtrie.root() != real {
            println!("TRIE MISMATCH");
            println!();
            println!("{:?} vs {:?}", memtrie.root(), real);
            for i in &x {
                println!("{:?} -> {:?}", i.0, i.1);
            }
        }
        assert_eq!(*memtrie.root(), real);
        unpopulate_trie(&mut memtrie, &x);

        if *memtrie.root() != blake_null_rlp() {
            println!("- TRIE MISMATCH");
            println!();
            println!("{:?} vs {:?}", memtrie.root(), real);
            for i in &x {
                println!("{:?} -> {:?}", i.0, i.1);
            }
        }
        assert_eq!(*memtrie.root(), blake_null_rlp());
    }
}

#[test]
fn init() {
    let mut memdb = MemoryDB::new();
    let mut root = H256::zero();
    let t = TrieDBMut::new(&mut memdb, &mut root);
    assert_eq!(*t.root(), blake_null_rlp());
}

#[test]
fn insert_on_empty() {
    let mut memdb = MemoryDB::new();
    let mut root = H256::zero();
    let mut t = TrieDBMut::new(&mut memdb, &mut root);
    t.insert(&[0x01u8, 0x23], &[0x01u8, 0x23]).unwrap();
    assert_eq!(*t.root(), trie_root(vec![(vec![0x01u8, 0x23], vec![0x01u8, 0x23])]));
}

#[test]
fn remove_to_empty() {
    let big_value = b"00000000000000000000000000000000";

    let mut memdb = MemoryDB::new();
    let mut root = H256::zero();
    let mut t1 = TrieDBMut::new(&mut memdb, &mut root);
    t1.insert(&[0x01, 0x23], big_value).unwrap();
    t1.insert(&[0x01, 0x34], big_value).unwrap();
    let mut memdb2 = MemoryDB::new();
    let mut root2 = H256::zero();
    let mut t2 = TrieDBMut::new(&mut memdb2, &mut root2);
    t2.insert(&[0x01], big_value).unwrap();
    t2.insert(&[0x01, 0x23], big_value).unwrap();
    t2.insert(&[0x01, 0x34], big_value).unwrap();
    t2.remove(&[0x01]).unwrap();
}

#[test]
fn insert_replace_root() {
    let mut memdb = MemoryDB::new();
    let mut root = H256::zero();
    let mut t = TrieDBMut::new(&mut memdb, &mut root);
    t.insert(&[0x01u8, 0x23], &[0x01u8, 0x23]).unwrap();
    t.insert(&[0x01u8, 0x23], &[0x23u8, 0x45]).unwrap();
    assert_eq!(*t.root(), trie_root(vec![(vec![0x01u8, 0x23], vec![0x23u8, 0x45])]));
}

#[test]
fn insert_make_branch_root() {
    let mut memdb = MemoryDB::new();
    let mut root = H256::zero();
    let mut t = TrieDBMut::new(&mut memdb, &mut root);
    t.insert(&[0x01u8, 0x23], &[0x01u8, 0x23]).unwrap();
    t.insert(&[0x11u8, 0x23], &[0x11u8, 0x23]).unwrap();
    assert_eq!(
        *t.root(),
        trie_root(vec![(vec![0x01u8, 0x23], vec![0x01u8, 0x23]), (vec![0x11u8, 0x23], vec![0x11u8, 0x23])])
    );
}

#[test]
fn insert_into_branch_root() {
    let mut memdb = MemoryDB::new();
    let mut root = H256::zero();
    let mut t = TrieDBMut::new(&mut memdb, &mut root);
    t.insert(&[0x01u8, 0x23], &[0x01u8, 0x23]).unwrap();
    t.insert(&[0xf1u8, 0x23], &[0xf1u8, 0x23]).unwrap();
    t.insert(&[0x81u8, 0x23], &[0x81u8, 0x23]).unwrap();
    assert_eq!(
        *t.root(),
        trie_root(vec![
            (vec![0x01u8, 0x23], vec![0x01u8, 0x23]),
            (vec![0x81u8, 0x23], vec![0x81u8, 0x23]),
            (vec![0xf1u8, 0x23], vec![0xf1u8, 0x23]),
        ])
    );
}

#[test]
fn insert_value_into_branch_root() {
    let mut memdb = MemoryDB::new();
    let mut root = H256::zero();
    let mut t = TrieDBMut::new(&mut memdb, &mut root);
    t.insert(&[0x01u8, 0x23], &[0x01u8, 0x23]).unwrap();
    t.insert(&[], &[0x0]).unwrap();
    assert_eq!(*t.root(), trie_root(vec![(vec![], vec![0x0]), (vec![0x01u8, 0x23], vec![0x01u8, 0x23])]));
}

#[test]
fn insert_split_leaf() {
    let mut memdb = MemoryDB::new();
    let mut root = H256::zero();
    let mut t = TrieDBMut::new(&mut memdb, &mut root);
    t.insert(&[0x01u8, 0x23], &[0x01u8, 0x23]).unwrap();
    t.insert(&[0x01u8, 0x34], &[0x01u8, 0x34]).unwrap();
    assert_eq!(
        *t.root(),
        trie_root(vec![(vec![0x01u8, 0x23], vec![0x01u8, 0x23]), (vec![0x01u8, 0x34], vec![0x01u8, 0x34])])
    );
}

#[test]
fn insert_split_extenstion() {
    let mut memdb = MemoryDB::new();
    let mut root = H256::zero();
    let mut t = TrieDBMut::new(&mut memdb, &mut root);
    t.insert(&[0x01, 0x23, 0x45], &[0x01]).unwrap();
    t.insert(&[0x01, 0xf3, 0x45], &[0x02]).unwrap();
    t.insert(&[0x01, 0xf3, 0xf5], &[0x03]).unwrap();
    assert_eq!(
        *t.root(),
        trie_root(vec![
            (vec![0x01, 0x23, 0x45], vec![0x01]),
            (vec![0x01, 0xf3, 0x45], vec![0x02]),
            (vec![0x01, 0xf3, 0xf5], vec![0x03]),
        ])
    );
}

#[test]
fn insert_big_value() {
    let big_value0 = b"00000000000000000000000000000000";
    let big_value1 = b"11111111111111111111111111111111";

    let mut memdb = MemoryDB::new();
    let mut root = H256::zero();
    let mut t = TrieDBMut::new(&mut memdb, &mut root);
    t.insert(&[0x01u8, 0x23], big_value0).unwrap();
    t.insert(&[0x11u8, 0x23], big_value1).unwrap();
    assert_eq!(
        *t.root(),
        trie_root(vec![(vec![0x01u8, 0x23], big_value0.to_vec()), (vec![0x11u8, 0x23], big_value1.to_vec())])
    );
}

#[test]
fn insert_duplicate_value() {
    let big_value = b"00000000000000000000000000000000";

    let mut memdb = MemoryDB::new();
    let mut root = H256::zero();
    let mut t = TrieDBMut::new(&mut memdb, &mut root);
    t.insert(&[0x01u8, 0x23], big_value).unwrap();
    t.insert(&[0x11u8, 0x23], big_value).unwrap();
    assert_eq!(
        *t.root(),
        trie_root(vec![(vec![0x01u8, 0x23], big_value.to_vec()), (vec![0x11u8, 0x23], big_value.to_vec())])
    );
}

#[test]
fn empty() {
    let mut memdb = MemoryDB::new();
    let mut root = H256::zero();
    let t = TrieDBMut::new(&mut memdb, &mut root);
    assert_eq!(t.get(&[0x5]), Ok(None));
}

#[test]
fn one() {
    let mut memdb = MemoryDB::new();
    let mut root = H256::zero();
    let mut t = TrieDBMut::new(&mut memdb, &mut root);
    t.insert(&[0x01u8, 0x23], &[0x01u8, 0x23]).unwrap();
    assert_eq!(t.get(&[0x1, 0x23]).unwrap().unwrap(), vec![0x1u8, 0x23]);

    assert_eq!(t.get(&[0x1, 0x23]).unwrap().unwrap(), vec![0x1u8, 0x23]);
}

#[test]
fn three() {
    let mut memdb = MemoryDB::new();
    let mut root = H256::zero();
    let mut t = TrieDBMut::new(&mut memdb, &mut root);
    t.insert(&[0x01u8, 0x23], &[0x01u8, 0x23]).unwrap();
    t.insert(&[0xf1u8, 0x23], &[0xf1u8, 0x23]).unwrap();
    t.insert(&[0x81u8, 0x23], &[0x81u8, 0x23]).unwrap();
    assert_eq!(t.get(&[0x01, 0x23]).unwrap().unwrap(), vec![0x01u8, 0x23]);
    assert_eq!(t.get(&[0xf1, 0x23]).unwrap().unwrap(), vec![0xf1u8, 0x23]);
    assert_eq!(t.get(&[0x81, 0x23]).unwrap().unwrap(), vec![0x81u8, 0x23]);
    assert_eq!(t.get(&[0x82, 0x23]), Ok(None));

    assert_eq!(t.get(&[0x01, 0x23]).unwrap().unwrap(), vec![0x01u8, 0x23]);
    assert_eq!(t.get(&[0xf1, 0x23]).unwrap().unwrap(), vec![0xf1u8, 0x23]);
    assert_eq!(t.get(&[0x81, 0x23]).unwrap().unwrap(), vec![0x81u8, 0x23]);
    assert_eq!(t.get(&[0x82, 0x23]), Ok(None));
}

#[test]
fn stress() {
    let mut seed = [0u8; 32];
    for _ in 0..50 {
        let x = StandardMap {
            alphabet: Alphabet::Custom(b"@QWERTYUIOPASDFGHJKLZXCVBNM[/]^_".to_vec()),
            min_key: 5,
            journal_key: 0,
            value_mode: ValueMode::Index,
            count: 4,
        }
        .make_with(&mut seed);

        let real = trie_root(x.clone());
        let mut memdb = MemoryDB::new();
        let mut root = H256::zero();
        let memtrie = populate_trie(&mut memdb, &mut root, &x);
        let mut y = x.clone();
        y.sort_by(|ref a, ref b| a.0.cmp(&b.0));
        let mut memdb2 = MemoryDB::new();
        let mut root2 = H256::zero();
        let memtrie_sorted = populate_trie(&mut memdb2, &mut root2, &y);
        if *memtrie.root() != real || *memtrie_sorted.root() != real {
            println!("TRIE MISMATCH");
            println!();
            println!("ORIGINAL... {:?}", memtrie.root());
            for i in &x {
                println!("{:?} -> {:?}", i.0, i.1);
            }
            println!("SORTED... {:?}", memtrie_sorted.root());
            for i in &y {
                println!("{:?} -> {:?}", i.0, i.1);
            }
        }
        assert_eq!(*memtrie.root(), real);
        assert_eq!(*memtrie_sorted.root(), real);
    }
}

#[test]
fn trie_existing() {
    let mut root = H256::zero();
    let mut db = MemoryDB::new();
    {
        let mut t = TrieDBMut::new(&mut db, &mut root);
        t.insert(&[0x01u8, 0x23], &[0x01u8, 0x23]).unwrap();
    }

    {
        let _ = TrieDBMut::from_existing(&mut db, &mut root);
    }
}

#[test]
fn from_null_rlp_succeeds() {
    let mut root = blake_null_rlp();
    let mut db = MemoryDB::new();
    TrieDBMut::from_existing(&mut db, &mut root).unwrap();
}

#[test]
#[should_panic]
fn from_zero_fails() {
    let mut root = H256::zero();
    let mut db = MemoryDB::new();
    TrieDBMut::from_existing(&mut db, &mut root).unwrap();
}

#[test]
fn return_old_values() {
    let mut seed = [0u8; 32];
    let x = StandardMap {
        alphabet: Alphabet::Custom(b"@QWERTYUIOPASDFGHJKLZXCVBNM[/]^_".to_vec()),
        min_key: 5,
        journal_key: 0,
        value_mode: ValueMode::Index,
        count: 4,
    }
    .make_with(&mut seed);

    let mut db = MemoryDB::new();
    let mut root = H256::zero();
    let mut t = TrieDBMut::new(&mut db, &mut root);
    for &(ref key, ref value) in &x {
        assert!(t.insert(key, value).unwrap().is_none());
        assert_eq!(t.insert(key, value).unwrap(), Some(value.clone()));
    }

    for (key, value) in x {
        assert_eq!(t.remove(&key).unwrap(), Some(value));
        assert!(t.remove(&key).unwrap().is_none());
    }
}

#[test]
fn store_keeps_bytes_under_their_digest() {
    let mut db = MemoryDB::new();
    let hash = db.insert(&[0x80]);
    assert_eq!(hash, blake_null_rlp());
    assert!(db.contains(&hash));
    assert_eq!(db.get(&hash), Some(vec![0x80]));
    assert!(!db.contains(&H256::zero()));
    assert_eq!(db.get(&H256::zero()), None);
}
