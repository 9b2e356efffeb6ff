use ethtrie::{keccak256, MemoryDB, SecTrieDB, TrieDB, H256};

#[test]
fn trie_db_keeps_values_under_digests() {
    let mut db = MemoryDB::new(true);
    let k0 = H256::zero();
    let k1 = H256::from_low_u64_be(1);
    let root = {
        let mut trie = TrieDB::new(&mut db);
        trie.insert(&k0, b"zero".to_vec()).unwrap();
        trie.insert(&k1, b"one".to_vec()).unwrap();
        assert_eq!(trie.get(&k0).unwrap(), Some(b"zero".to_vec()));
        assert_eq!(trie.contains(&k1).unwrap(), true);
        assert_eq!(trie.contains(&H256::from_low_u64_be(2)).unwrap(), false);
        let root = trie.root().unwrap();
        let proof = trie.get_proof(&k1).unwrap();
        assert_eq!(trie.verify_proof(root, &k1, proof).unwrap(), Some(b"one".to_vec()));
        let mut seen = Vec::new();
        let mut it = trie.iter();
        while let Some((k, v)) = it.next() {
            seen.push((k, v));
        }
        assert_eq!(seen, vec![(k0, b"zero".to_vec()), (k1, b"one".to_vec())]);
        root
    };
    let mut trie = TrieDB::from(&mut db, root).unwrap();
    assert_eq!(trie.remove(&k0).unwrap(), true);
    assert_eq!(trie.get(&k0).unwrap(), None);
    assert_eq!(trie.get(&k1).unwrap(), Some(b"one".to_vec()));
}

#[test]
fn sec_trie_db_keeps_values_under_the_digest_of_the_key() {
    let mut db = MemoryDB::new(true);
    let key = H256::from_low_u64_be(7);
    let mut trie = SecTrieDB::new(&mut db);
    trie.insert(&key, b"seven".to_vec()).unwrap();
    assert_eq!(trie.get(&key).unwrap(), Some(b"seven".to_vec()));
    assert_eq!(trie.contains(&key).unwrap(), true);
    // below, the value stands under the digest of the key, not under the key
    assert_eq!(trie.trie().get(&keccak256(key.as_bytes())).unwrap(), Some(b"seven".to_vec()));
    assert_eq!(trie.trie().get(&key).unwrap(), None);
    trie.trie_mut().insert(&key, b"plain".to_vec()).unwrap();
    assert_eq!(trie.trie().get(&key).unwrap(), Some(b"plain".to_vec()));
    assert_eq!(trie.get(&key).unwrap(), Some(b"seven".to_vec()));
    assert_eq!(trie.remove(&key).unwrap(), true);
    assert_eq!(trie.get(&key).unwrap(), None);
    let root = trie.root().unwrap();
    let again = SecTrieDB::from(&mut db, root).unwrap();
    assert_eq!(again.trie().get(&key).unwrap(), Some(b"plain".to_vec()));
}

#[test]
fn sec_trie_db_from_an_unknown_root_fails() {
    let mut db = MemoryDB::new(true);
    assert!(SecTrieDB::from(&mut db, H256::zero()).is_err());
    assert!(TrieDB::from(&mut db, H256::zero()).is_err());
}

#[test]
fn a_key_is_inserted_read_and_removed_through_a_root() {
    let mut memdb = MemoryDB::new(true);
    let key = keccak256(b"test-key");
    let value = b"test-value";
    let root = {
        let mut trie = TrieDB::new(&mut memdb);
        trie.insert(&key, value.to_vec()).unwrap();
        let v = trie.get(&key).unwrap();
        assert_eq!(Some(value.to_vec()), v);
        trie.root().unwrap()
    };
    let mut trie = TrieDB::from(&mut memdb, root).unwrap();
    let exists = trie.contains(&key).unwrap();
    assert_eq!(exists, true);
    let removed = trie.remove(&key).unwrap();
    assert_eq!(removed, true);
    let new_root = trie.root().unwrap();
    assert_eq!(new_root, keccak256(&[0x80]));
}
