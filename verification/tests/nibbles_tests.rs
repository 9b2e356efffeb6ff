use ethtrie::nibbles::Nibbles;

#[test]
fn from_raw_splits_bytes_high_nibble_first() {
    let n = Nibbles::from_raw(&[0x12, 0xab], false);
    assert_eq!(n.get_data(), &[1, 2, 10, 11]);
    assert_eq!(n.len(), 4);
    assert!(!n.is_leaf());
}

#[test]
fn from_raw_of_a_key_ends_with_the_terminator() {
    let n = Nibbles::from_raw(&[0x12, 0xab], true);
    assert_eq!(n.get_data(), &[1, 2, 10, 11, 16]);
    assert!(n.is_leaf());
    let empty = Nibbles::from_raw(&[], true);
    assert_eq!(empty.get_data(), &[16]);
    let nothing = Nibbles::from_raw(&[], false);
    assert!(nothing.is_empty());
    assert!(!nothing.is_leaf());
}

#[test]
fn compact_form_of_the_four_kinds() {
    // extension, even
    assert_eq!(Nibbles::from_hex(vec![1, 2, 3, 4]).encode_compact(), vec![0x00, 0x12, 0x34]);
    // extension, odd
    assert_eq!(Nibbles::from_hex(vec![1, 2, 3]).encode_compact(), vec![0x11, 0x23]);
    // leaf, even
    assert_eq!(Nibbles::from_hex(vec![1, 2, 3, 4, 16]).encode_compact(), vec![0x20, 0x12, 0x34]);
    // leaf, odd
    assert_eq!(Nibbles::from_hex(vec![1, 2, 3, 16]).encode_compact(), vec![0x31, 0x23]);
    // the terminator alone
    assert_eq!(Nibbles::from_hex(vec![16]).encode_compact(), vec![0x20]);
    // nothing
    assert_eq!(Nibbles::from_hex(vec![]).encode_compact(), vec![0x00]);
}

#[test]
fn from_compact_reads_the_four_kinds() {
    assert_eq!(Nibbles::from_compact(&[0x00, 0x12, 0x34]).get_data(), &[1, 2, 3, 4]);
    assert_eq!(Nibbles::from_compact(&[0x11, 0x23]).get_data(), &[1, 2, 3]);
    assert_eq!(Nibbles::from_compact(&[0x20, 0x12, 0x34]).get_data(), &[1, 2, 3, 4, 16]);
    assert_eq!(Nibbles::from_compact(&[0x31, 0x23]).get_data(), &[1, 2, 3, 16]);
    assert_eq!(Nibbles::from_compact(&[0x20]).get_data(), &[16]);
}

#[test]
fn compact_form_round_trip() {
    for len in 0..9usize {
        for leaf in [false, true] {
            let mut hex: Vec<u8> = (0..len).map(|i| ((i * 7 + 3) % 16) as u8).collect();
            if leaf {
                hex.push(16);
            }
            let n = Nibbles::from_hex(hex.clone());
            let back = Nibbles::from_compact(&n.encode_compact());
            assert_eq!(back.get_data(), hex.as_slice());
            assert_eq!(back.is_leaf(), leaf);
        }
    }
}

#[test]
fn encode_raw_packs_nibbles_and_tells_the_terminator() {
    let n = Nibbles::from_hex(vec![7, 4, 6, 5, 16]);
    assert_eq!(n.encode_raw(), (vec![0x74, 0x65], true));
    let m = Nibbles::from_hex(vec![7, 4, 6, 5]);
    assert_eq!(m.encode_raw(), (vec![0x74, 0x65], false));
    // a nibble left over is dropped
    let odd = Nibbles::from_hex(vec![7, 4, 6]);
    assert_eq!(odd.encode_raw(), (vec![0x74], false));
    let key = b"doge";
    assert_eq!(Nibbles::from_raw(key, true).encode_raw(), (key.to_vec(), true));
}

#[test]
fn common_prefix_counts_shared_entries() {
    let a = Nibbles::from_hex(vec![1, 2, 3, 4]);
    let b = Nibbles::from_hex(vec![1, 2, 5]);
    assert_eq!(a.common_prefix(&b), 2);
    assert_eq!(b.common_prefix(&a), 2);
    assert_eq!(a.common_prefix(&a), 4);
    assert_eq!(a.common_prefix(&Nibbles::from_hex(vec![])), 0);
    assert_eq!(a.common_prefix(&Nibbles::from_hex(vec![9])), 0);
    assert_eq!(a.common_prefix(&Nibbles::from_hex(vec![1, 2, 3, 4, 16])), 4);
}

#[test]
fn offset_slice_and_join() {
    let a = Nibbles::from_hex(vec![1, 2, 3, 4, 16]);
    assert_eq!(a.offset(2).get_data(), &[3, 4, 16]);
    assert_eq!(a.offset(5).get_data(), &[] as &[u8]);
    assert_eq!(a.slice(1, 3).get_data(), &[2, 3]);
    assert_eq!(a.slice(0, 0).get_data(), &[] as &[u8]);
    assert_eq!(a.at(4), 16);
    assert_eq!(a.at(0), 1);
    let joined = Nibbles::from_hex(vec![9, 8]).join(&a);
    assert_eq!(joined.get_data(), &[9, 8, 1, 2, 3, 4, 16]);
    assert!(joined.is_leaf());
    assert!(!a.join(&Nibbles::from_hex(vec![5])).is_leaf());
}

#[test]
fn push_pop_extend_truncate() {
    let mut a = Nibbles::from_hex(vec![1, 2]);
    a.push(3);
    assert_eq!(a.get_data(), &[1, 2, 3]);
    assert_eq!(a.pop(), Some(3));
    assert_eq!(a.get_data(), &[1, 2]);
    a.extend(&Nibbles::from_hex(vec![7, 16]));
    assert_eq!(a.get_data(), &[1, 2, 7, 16]);
    a.truncate(1);
    assert_eq!(a.get_data(), &[1]);
    a.truncate(5);
    assert_eq!(a.get_data(), &[1]);
    assert_eq!(a.pop(), Some(1));
    assert_eq!(a.pop(), None);
    assert!(a.is_empty());
}

#[test]
fn equals_compares_entries() {
    let a = Nibbles::from_hex(vec![1, 2, 16]);
    assert!(a.equals(&Nibbles::from_raw(&[0x12], true)));
    assert!(!a.equals(&Nibbles::from_raw(&[0x12], false)));
    assert!(!a.equals(&Nibbles::from_hex(vec![1, 3, 16])));
    assert!(a.equals(&a.clone()));
}
