use ethtrie::{keccak256, HashDB, MemoryDB, PatriciaTrie, TrieError};

fn store_with(blob: &[u8]) -> (MemoryDB, ethtrie::H256) {
    let mut db = MemoryDB::new(true);
    let digest = keccak256(blob);
    db.insert(digest, blob.to_vec());
    (db, digest)
}

#[test]
fn from_an_unknown_root_is_an_invalid_state_root() {
    let mut db = MemoryDB::new(true);
    let r = PatriciaTrie::from(&mut db, keccak256(b"nothing here"));
    assert!(matches!(r, Err(TrieError::InvalidStateRoot)));
}

#[test]
fn a_list_of_three_is_invalid_data() {
    let (mut db, digest) = store_with(&[0xc3, 0x01, 0x02, 0x03]);
    let r = PatriciaTrie::from(&mut db, digest);
    assert!(matches!(r, Err(TrieError::InvalidData)));
}

#[test]
fn an_unknown_compact_flag_is_invalid_data() {
    let (mut db, digest) = store_with(&[0xc2, 0x40, 0x80]);
    let r = PatriciaTrie::from(&mut db, digest);
    assert!(matches!(r, Err(TrieError::InvalidData)));
}

#[test]
fn an_extension_without_prefix_is_invalid_data() {
    let (mut db, digest) = store_with(&[0xc2, 0x00, 0x80]);
    let r = PatriciaTrie::from(&mut db, digest);
    assert!(matches!(r, Err(TrieError::InvalidData)));
}

#[test]
fn a_bare_digest_is_no_root() {
    let mut blob = vec![0xa0];
    blob.extend_from_slice(&[7u8; 32]);
    let (mut db, digest) = store_with(&blob);
    let r = PatriciaTrie::from(&mut db, digest);
    assert!(matches!(r, Err(TrieError::InvalidData)));
}

#[test]
fn nothing_at_all_is_invalid_data() {
    let (mut db, digest) = store_with(&[]);
    let r = PatriciaTrie::from(&mut db, digest);
    assert!(matches!(r, Err(TrieError::InvalidData)));
}

#[test]
fn the_empty_item_is_the_empty_trie() {
    let (mut db, digest) = store_with(&[0x80]);
    let trie = PatriciaTrie::from(&mut db, digest).unwrap();
    assert_eq!(trie.get(b"any").unwrap(), None);
    let mut it = trie.iter();
    assert_eq!(it.next(), None);
}

#[test]
fn a_stored_leaf_is_read_back() {
    // a list of the compact path 0x20 0x61 (the key "a") and the value "v"
    let (mut db, digest) = store_with(&[0xc4, 0x82, 0x20, 0x61, 0x76]);
    let trie = PatriciaTrie::from(&mut db, digest).unwrap();
    assert_eq!(trie.get(b"a").unwrap(), Some(b"v".to_vec()));
    assert_eq!(trie.get(b"b").unwrap(), None);
    assert_eq!(trie.contains(b"a").unwrap(), true);
}

#[test]
fn a_missing_child_reads_as_empty_but_breaks_a_removal_that_needs_it() {
    let mut db = MemoryDB::new(true);
    let root = {
        let mut trie = PatriciaTrie::new(&mut db);
        trie.insert(b"aa", vec![1u8; 40]).unwrap();
        trie.insert(b"ab", vec![2u8; 40]).unwrap();
        trie.root().unwrap()
    };
    // forget the leaf under "ab": it is too long to stand inside its parent
    let leaf = {
        let mut scratch = MemoryDB::new(true);
        let mut t = PatriciaTrie::new(&mut scratch);
        // the same leaf as it hangs below the branch: the rest of the key is empty
        t.insert(b"", vec![2u8; 40]).unwrap();
        t.root().unwrap()
    };
    assert!(db.contains(&leaf));
    db.remove(&leaf);
    let mut trie = PatriciaTrie::from(&mut db, root).unwrap();
    // reading treats what is missing as empty
    assert_eq!(trie.get(b"ab").unwrap(), None);
    assert_eq!(trie.get(b"aa").unwrap(), Some(vec![1u8; 40]));
    // removing the other key leaves a branch with one child, the missing one
    let r = trie.remove(b"aa");
    assert!(matches!(r, Err(TrieError::InvalidData)));
    // what was in memory is given up, and a commit leaves the store as it was
    assert_eq!(trie.get(b"aa").unwrap(), None);
    assert_eq!(trie.root().unwrap(), keccak256(&[0x80]));
    let again = PatriciaTrie::from(&mut db, root).unwrap();
    assert_eq!(again.get(b"aa").unwrap(), Some(vec![1u8; 40]));
}

#[test]
fn messages_name_the_error() {
    assert_eq!(TrieError::InvalidData.message(), "trie error: invalid data");
    assert_eq!(TrieError::InvalidStateRoot.message(), "trie error: invalid state root");
    assert_eq!(TrieError::InvalidProof.message(), "trie error: invalid proof");
    let e = TrieError::from(rlp::DecoderError::RlpIsTooShort);
    assert!(matches!(e, TrieError::Decoder(rlp::DecoderError::RlpIsTooShort)));
    assert_eq!(e.message(), "trie error: RlpIsTooShort");
}

#[test]
fn a_change_that_cannot_read_its_way_leaves_the_trie_as_it_was() {
    let mut db = MemoryDB::new(true);
    let root = {
        let mut trie = PatriciaTrie::new(&mut db);
        trie.insert(b"aa", vec![1u8; 40]).unwrap();
        trie.insert(b"ab", vec![2u8; 40]).unwrap();
        trie.root().unwrap()
    };
    let leaf = {
        let mut scratch = MemoryDB::new(true);
        let mut t = PatriciaTrie::new(&mut scratch);
        t.insert(b"", vec![2u8; 40]).unwrap();
        t.root().unwrap()
    };
    assert!(db.contains(&leaf));
    // what stands under the digest of the leaf is no node any more
    db.insert(leaf, vec![0xc3, 0x01, 0x02, 0x03]);
    let mut trie = PatriciaTrie::from(&mut db, root).unwrap();
    assert!(matches!(trie.get(b"ab"), Err(TrieError::InvalidData)));
    assert!(matches!(trie.insert(b"ab", vec![3u8; 5]), Err(TrieError::InvalidData)));
    assert_eq!(trie.get(b"aa").unwrap(), Some(vec![1u8; 40]));
    assert!(matches!(trie.remove(b"ab"), Err(TrieError::InvalidData)));
    assert_eq!(trie.get(b"aa").unwrap(), Some(vec![1u8; 40]));
    assert!(matches!(trie.insert(b"ab", vec![]), Err(TrieError::InvalidData)));
    assert!(matches!(trie.contains(b"ab"), Err(TrieError::InvalidData)));
    assert!(matches!(trie.get_proof(b"ab"), Err(TrieError::InvalidData)));
    // the other key can still be changed, and the commit keeps what it did not read
    trie.insert(b"aa", vec![4u8; 40]).unwrap();
    let second = trie.root().unwrap();
    assert!(db.contains(&leaf));
    let again = PatriciaTrie::from(&mut db, second).unwrap();
    assert_eq!(again.get(b"aa").unwrap(), Some(vec![4u8; 40]));
}
