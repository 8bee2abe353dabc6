use merkle_trie::hash::H256;
use merkle_trie::nibbleslice::NibbleSlice;
use merkle_trie::node::{empty_children, Node};
use merkle_trie::rlp::{append_length, append_string, decode_list, wrap_list};
use rlp::RlpStream;

fn leaf_by_rlp(packed: &[u8], value: &[u8]) -> Vec<u8> {
    let mut stream = RlpStream::new_list(2);
    stream.append(&packed.to_vec());
    stream.append(&value.to_vec());
    stream.out().to_vec()
}

fn branch_by_rlp(packed: &[u8], children: &[Option<H256>; 16]) -> Vec<u8> {
    let mut stream = RlpStream::new_list(17);
    stream.append(&packed.to_vec());
    for child in children.iter() {
        match child {
            Some(hash) => stream.append(&hash.0.to_vec()),
            None => stream.append_empty_data(),
        };
    }
    stream.out().to_vec()
}

#[test]
fn short_string_is_written_behind_one_byte() {
    let mut out = Vec::new();
    append_string(&mut out, b"dog");
    assert_eq!(out, vec![0x83, b'd', b'o', b'g']);
}

#[test]
fn single_low_byte_stands_for_itself() {
    let mut out = vec![0xff];
    append_string(&mut out, &[0x7f]);
    assert_eq!(out, vec![0xff, 0x7f]);
    let mut out = Vec::new();
    append_string(&mut out, &[0x80]);
    assert_eq!(out, vec![0x81, 0x80]);
    let mut out = Vec::new();
    append_string(&mut out, &[]);
    assert_eq!(out, vec![0x80]);
    let mut out = Vec::new();
    append_string(&mut out, &[0x00]);
    assert_eq!(out, vec![0x00]);
}

#[test]
fn long_string_is_written_behind_its_length() {
    let value = vec![7u8; 56];
    let mut out = Vec::new();
    append_string(&mut out, &value);
    assert_eq!(out.len(), 58);
    assert_eq!(&out[..2], &[0xb8, 56]);
    assert_eq!(&out[2..], &value[..]);

    let value = vec![9u8; 55];
    let mut out = Vec::new();
    append_string(&mut out, &value);
    assert_eq!(out.len(), 56);
    assert_eq!(out[0], 0x80 + 55);

    let value = vec![1u8; 1024];
    let mut out = Vec::new();
    append_string(&mut out, &value);
    assert_eq!(&out[..3], &[0xb9, 0x04, 0x00]);
    assert_eq!(out.len(), 1027);
}

#[test]
fn length_prefix_of_a_list() {
    let mut out = Vec::new();
    append_length(&mut out, 192, 0);
    assert_eq!(out, vec![0xc0]);
    let mut out = Vec::new();
    append_length(&mut out, 192, 55);
    assert_eq!(out, vec![0xf7]);
    let mut out = Vec::new();
    append_length(&mut out, 192, 56);
    assert_eq!(out, vec![0xf8, 56]);
    let mut out = Vec::new();
    append_length(&mut out, 192, 65536);
    assert_eq!(out, vec![0xfa, 0x01, 0x00, 0x00]);
    assert_eq!(wrap_list(vec![0x83, b'c', b'a', b't']), vec![0xc4, 0x83, b'c', b'a', b't']);
}

#[test]
fn list_of_strings_is_read_back() {
    let mut payload = Vec::new();
    append_string(&mut payload, b"cat");
    append_string(&mut payload, &[]);
    append_string(&mut payload, &[0x05]);
    append_string(&mut payload, &vec![3u8; 100]);
    let written = wrap_list(payload);
    let items = decode_list(&written).unwrap();
    assert_eq!(items.len(), 4);
    assert_eq!(items[0], b"cat");
    assert_eq!(items[1], b"");
    assert_eq!(items[2], &[0x05]);
    assert_eq!(items[3], &vec![3u8; 100][..]);
}

#[test]
fn what_is_no_list_is_not_read() {
    assert!(decode_list(&[]).is_none());
    assert!(decode_list(&[0x80]).is_none());
    assert!(decode_list(&[0x83, b'c', b'a', b't']).is_none());
    // the list announces more than there is
    assert!(decode_list(&[0xc4, 0x83, b'c', b'a']).is_none());
    // more than the list announces
    assert!(decode_list(&[0xc1, 0x01, 0x02]).is_none());
    // a string that runs over the end of the list
    assert!(decode_list(&[0xc2, 0x83, b'c']).is_none());
    // a list within the list
    assert!(decode_list(&[0xc1, 0xc0]).is_none());
    // a length that announces more bytes of length than there are
    assert!(decode_list(&[0xf9, 0x01]).is_none());
    assert_eq!(decode_list(&[0xc0]).unwrap().len(), 0);
}

#[test]
fn leaf_is_written_as_the_rlp_crate_writes_it() {
    let path = [0x01u8, 0x23, 0x45];
    let value = b"value";
    let node = Node::Leaf(NibbleSlice::new(&path), value);
    assert_eq!(Node::encoded(node), leaf_by_rlp(&[0x20, 0x01, 0x23, 0x45], value));
    let node = Node::Leaf(NibbleSlice::new_offset(&path, 1), value);
    assert_eq!(Node::encoded(node), leaf_by_rlp(&[0x31, 0x23, 0x45], value));

    let long = vec![0x55u8; 300];
    let node = Node::Leaf(NibbleSlice::new(&path), &long);
    assert_eq!(Node::encoded(node), leaf_by_rlp(&[0x20, 0x01, 0x23, 0x45], &long));
    let node = Node::Leaf(NibbleSlice::new(&path), &[]);
    assert_eq!(Node::encoded(node), vec![0xc6, 0x84, 0x20, 0x01, 0x23, 0x45, 0x80]);
}

#[test]
fn branch_is_written_as_the_rlp_crate_writes_it() {
    let path = [0xabu8];
    let mut children = empty_children();
    children[3] = Some(H256([0x11; 32]));
    children[15] = Some(H256([0xee; 32]));
    let node = Node::Branch(NibbleSlice::new(&path), children);
    let written = Node::encoded(node);
    assert_eq!(written, branch_by_rlp(&[0x00, 0xab], &children));
    assert_eq!(written.len(), 2 + 3 + 14 + 2 * 33);

    let node = Node::Branch(NibbleSlice::new_offset(&path, 2), empty_children());
    assert_eq!(Node::encoded(node), branch_by_rlp(&[0x00], &empty_children()));
}

#[test]
fn node_is_written_with_a_shortened_prefix() {
    let path = [0x01u8, 0x23, 0x45];
    let mut children = empty_children();
    children[0] = Some(H256([0x22; 32]));
    let node = Node::Branch(NibbleSlice::new(&path), children);
    assert_eq!(Node::encoded_until(node, 3), branch_by_rlp(&[0x10, 0x12], &children));
    assert_eq!(Node::encoded_until(node, 0), branch_by_rlp(&[0x00], &children));
    assert_eq!(Node::encoded_until(node, 6), Node::encoded(node));
    assert_eq!(Node::encoded_until(node, 7), Node::encoded(node));
    let leaf = Node::Leaf(NibbleSlice::new(&path), b"v");
    assert_eq!(Node::encoded_until(leaf, 2), leaf_by_rlp(&[0x20, 0x01], b"v"));
}

#[test]
fn written_node_is_read_back() {
    let path = [0x01u8, 0x23, 0x45];
    let written = Node::encoded(Node::Leaf(NibbleSlice::new_offset(&path, 1), b"value"));
    match Node::decoded(&written) {
        Some(Node::Leaf(partial, value)) => {
            assert_eq!(partial.to_vec(), vec![1, 2, 3, 4, 5]);
            assert_eq!(value, b"value");
        },
        _ => panic!("a leaf was written"),
    }

    let mut children = empty_children();
    children[7] = Some(H256([0x77; 32]));
    children[8] = Some(H256([0x88; 32]));
    let written = Node::encoded(Node::Branch(NibbleSlice::new(&path), children));
    match Node::decoded(&written) {
        Some(Node::Branch(partial, back)) => {
            assert_eq!(partial.to_vec(), vec![0, 1, 2, 3, 4, 5]);
            for i in 0..16 {
                assert_eq!(back[i], children[i]);
            }
        },
        _ => panic!("a branch was written"),
    }
}

#[test]
fn what_is_no_node_is_not_read() {
    assert!(Node::decoded(&[0x80]).is_none());
    assert!(Node::decoded(&[]).is_none());
    // two strings, the first without the leaf flag
    assert!(Node::decoded(&leaf_by_rlp(&[0x00, 0x12], b"v")).is_none());
    // two strings, the first empty
    assert!(Node::decoded(&leaf_by_rlp(&[], b"v")).is_none());
    // three strings
    assert!(Node::decoded(&[0xc3, 0x20, 0x01, 0x02]).is_none());
    // seventeen strings, one child neither empty nor 32 bytes long
    let mut stream = RlpStream::new_list(17);
    stream.append(&vec![0x00u8]);
    stream.append(&vec![0x01u8, 0x02]);
    for _ in 0..15 {
        stream.append_empty_data();
    }
    assert!(Node::decoded(&stream.out()).is_none());
}

#[test]
fn prefix_of_a_node_is_shortened_from_the_front() {
    let path = [0x01u8, 0x23, 0x45];
    let leaf = Node::Leaf(NibbleSlice::new(&path), b"v");
    assert_eq!(leaf.partial().to_vec(), vec![0, 1, 2, 3, 4, 5]);
    match leaf.mid(4) {
        Node::Leaf(partial, value) => {
            assert_eq!(partial.to_vec(), vec![4, 5]);
            assert_eq!(value, b"v");
        },
        _ => panic!("a leaf stays a leaf"),
    }
    let mut children = empty_children();
    children[1] = Some(H256([0x01; 32]));
    match Node::Branch(NibbleSlice::new(&path), children).mid(6) {
        Node::Branch(partial, back) => {
            assert!(partial.is_empty());
            assert_eq!(back[1], children[1]);
            assert_eq!(back[0], None);
        },
        _ => panic!("a branch stays a branch"),
    }
}
