use merkle_trie::nibbleslice::NibbleSlice;

static D: &[u8; 3] = &[0x01u8, 0x23, 0x45];

#[test]
fn nibbles_are_read_high_half_first() {
    let n = NibbleSlice::new(D);
    assert_eq!(n.len(), 6);
    assert!(!n.is_empty());
    for i in 0..6 {
        assert_eq!(n.at(i), i as u8);
    }
    assert_eq!(n.to_vec(), vec![0, 1, 2, 3, 4, 5]);
}

#[test]
fn offset_skips_leading_nibbles() {
    let n = NibbleSlice::new_offset(D, 6);
    assert!(n.is_empty());
    assert_eq!(n.len(), 0);

    let n = NibbleSlice::new_offset(D, 3);
    assert_eq!(n.len(), 3);
    for i in 0..3 {
        assert_eq!(n.at(i), i as u8 + 3);
    }
}

#[test]
fn mid_drops_from_the_front() {
    let n = NibbleSlice::new(D);
    let m = n.mid(2);
    assert_eq!(m.len(), 4);
    for i in 0..4 {
        assert_eq!(m.at(i), i as u8 + 2);
    }
    let m = n.mid(3);
    assert_eq!(m.to_vec(), vec![3, 4, 5]);
    assert_eq!(n.mid(6).len(), 0);
    assert_eq!(n.mid(1).mid(2).to_vec(), n.mid(3).to_vec());
}

#[test]
fn packed_form_of_even_and_odd_paths() {
    let n = NibbleSlice::new(D);
    assert_eq!(n.encoded(false), vec![0x00, 0x01, 0x23, 0x45]);
    assert_eq!(n.encoded(true), vec![0x20, 0x01, 0x23, 0x45]);
    assert_eq!(n.mid(1).encoded(false), vec![0x11, 0x23, 0x45]);
    assert_eq!(n.mid(1).encoded(true), vec![0x31, 0x23, 0x45]);
    assert_eq!(n.mid(6).encoded(false), vec![0x00]);
    assert_eq!(n.mid(6).encoded(true), vec![0x20]);
}

#[test]
fn packed_form_of_a_leading_part() {
    let n = NibbleSlice::new(D);
    assert_eq!(n.encoded_leftmost(0, false), vec![0x00]);
    assert_eq!(n.encoded_leftmost(1, true), vec![0x30]);
    assert_eq!(n.encoded_leftmost(2, false), vec![0x00, 0x01]);
    assert_eq!(n.encoded_leftmost(3, false), vec![0x10, 0x12]);
    assert_eq!(n.encoded_leftmost(6, true), n.encoded(true));
    assert_eq!(n.encoded_leftmost(60, true), n.encoded(true));
    assert_eq!(n.mid(1).encoded_leftmost(2, true), vec![0x20, 0x12]);
}

#[test]
fn packed_form_is_read_back() {
    let n = NibbleSlice::new(D);
    let even = n.encoded(true);
    let (back, leaf) = NibbleSlice::from_encoded(&even);
    assert!(leaf);
    assert!(back.equals(&n));
    let odd = n.mid(1).encoded(false);
    let (back, leaf) = NibbleSlice::from_encoded(&odd);
    assert!(!leaf);
    assert!(back.equals(&n.mid(1)));
    assert_eq!(back.to_vec(), vec![1, 2, 3, 4, 5]);
    let (back, leaf) = NibbleSlice::from_encoded(&[0x20]);
    assert!(leaf);
    assert!(back.is_empty());
}

#[test]
fn shared_prefixes() {
    let n = NibbleSlice::new(D);

    let other = &[0x01u8, 0x23, 0x01, 0x23, 0x45, 0x67];
    let m = NibbleSlice::new(other);

    assert_eq!(n.common_prefix(&m), 4);
    assert_eq!(m.common_prefix(&n), 4);
    assert_eq!(n.mid(1).common_prefix(&m.mid(1)), 3);
    assert_eq!(n.mid(1).common_prefix(&m.mid(2)), 0);
    assert_eq!(n.common_prefix(&m.mid(4)), 6);
    assert!(!n.starts_with(&m.mid(4)));
    assert!(m.mid(4).starts_with(&n));
    assert!(n.starts_with(&n.mid(6)));
    assert_eq!(n.common_prefix(&n), 6);
}

#[test]
fn equality_is_of_nibbles_not_of_buffers() {
    let n = NibbleSlice::new(D);
    let other = &[0x01u8, 0x23, 0x01, 0x23, 0x45, 0x67];
    let m = NibbleSlice::new(other);

    assert!(n.equals(&m.mid(4).mid(0)) == false);
    assert!(n.mid(0).equals(&n));
    assert!(!n.equals(&m));
    assert!(n.mid(1).equals(&NibbleSlice::new_offset(&[0xf1, 0x23, 0x45], 1)));
    let shifted = &[0x00u8, 0x12, 0x34, 0x50];
    assert!(!n.mid(1).equals(&NibbleSlice::new_offset(shifted, 3)));
    assert!(NibbleSlice::new_offset(shifted, 1).mid(1).equals(&n.mid(1).mid(0)) == false);
    assert!(NibbleSlice::new_offset(shifted, 2).equals(&NibbleSlice::new_offset(&[0x12, 0x34, 0x50], 0)));
}

#[test]
fn nibbles_are_packed_with_padding_in_front() {
    let (bytes, offset) = NibbleSlice::from_vec(&vec![1, 2, 3, 4, 5]);
    assert_eq!(offset, 1);
    assert_eq!(bytes, vec![0x01, 0x23, 0x45]);
    assert_eq!(NibbleSlice::new_offset(&bytes, offset).to_vec(), vec![1, 2, 3, 4, 5]);

    let (bytes, offset) = NibbleSlice::from_vec(&vec![0xa, 0xb]);
    assert_eq!(offset, 0);
    assert_eq!(bytes, vec![0xab]);

    let (bytes, offset) = NibbleSlice::from_vec(&vec![]);
    assert_eq!(offset, 0);
    assert!(bytes.is_empty());

    let (bytes, offset) = NibbleSlice::from_vec(&vec![0x1f, 0x27]);
    assert_eq!(offset, 0);
    assert_eq!(bytes, vec![0xf7]);
}
