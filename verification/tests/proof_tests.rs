use ethtrie::{keccak256, MemoryDB, PatriciaTrie, TrieError};

fn sample(db: &mut MemoryDB) -> (PatriciaTrie<'_, MemoryDB>, ethtrie::H256) {
    let mut trie = PatriciaTrie::new(db);
    for i in 0u8..50 {
        let key = vec![i, i.wrapping_mul(31), 1, 2];
        let value = vec![i; 40];
        trie.insert(&key, value).unwrap();
    }
    let root = trie.root().unwrap();
    (trie, root)
}

#[test]
fn a_proof_shows_the_value_of_a_key() {
    let mut db = MemoryDB::new(true);
    let (trie, root) = sample(&mut db);
    for i in 0u8..50 {
        let key = vec![i, i.wrapping_mul(31), 1, 2];
        let proof = trie.get_proof(&key).unwrap();
        assert!(proof.len() >= 1);
        assert_eq!(keccak256(&proof[0]), root);
        let shown = trie.verify_proof(root, &key, proof).unwrap();
        assert_eq!(shown, trie.get(&key).unwrap());
        assert_eq!(shown, Some(vec![i; 40]));
    }
}

#[test]
fn a_proof_shows_that_a_key_is_absent() {
    let mut db = MemoryDB::new(true);
    let (trie, root) = sample(&mut db);
    let key = vec![200u8, 1, 1, 2];
    assert_eq!(trie.get(&key).unwrap(), None);
    let proof = trie.get_proof(&key).unwrap();
    assert!(proof.len() >= 1);
    assert_eq!(trie.verify_proof(root, &key, proof).unwrap(), None);
}

#[test]
fn an_empty_proof_is_invalid() {
    let mut db = MemoryDB::new(true);
    let (trie, root) = sample(&mut db);
    let r = trie.verify_proof(root, b"key", vec![]);
    assert!(matches!(r, Err(TrieError::InvalidProof)));
}

#[test]
fn a_proof_under_another_root_is_invalid() {
    let mut db = MemoryDB::new(true);
    let (trie, _root) = sample(&mut db);
    let key = vec![3u8, 93, 1, 2];
    let proof = trie.get_proof(&key).unwrap();
    let r = trie.verify_proof(keccak256(b"another root"), &key, proof);
    assert!(matches!(r, Err(TrieError::InvalidProof)));
}

#[test]
fn a_changed_proof_shows_nothing() {
    let mut db = MemoryDB::new(true);
    let (trie, root) = sample(&mut db);
    let key = vec![3u8, 93, 1, 2];
    let proof = trie.get_proof(&key).unwrap();
    assert!(proof.len() >= 2);
    for node in 0..proof.len() {
        for byte in [0usize, proof[node].len() / 2, proof[node].len() - 1] {
            let mut changed = proof.clone();
            changed[node][byte] ^= 0x55;
            match trie.verify_proof(root, &key, changed) {
                Ok(v) => assert_eq!(v, None),
                Err(e) => assert!(matches!(e, TrieError::InvalidProof)),
            }
        }
    }
    // a node of another trie in the place of the last one
    let mut other = proof.clone();
    let last = other.len() - 1;
    other[last] = vec![0xc4, 0x82, 0x20, 0x61, 0x76];
    match trie.verify_proof(root, &key, other) {
        Ok(v) => assert_eq!(v, None),
        Err(e) => assert!(matches!(e, TrieError::InvalidProof)),
    }
}

#[test]
fn the_proof_of_a_small_trie_is_its_root() {
    let mut db = MemoryDB::new(true);
    let mut trie = PatriciaTrie::new(&mut db);
    trie.insert(b"a", b"v".to_vec()).unwrap();
    let root = trie.root().unwrap();
    let proof = trie.get_proof(b"a").unwrap();
    assert_eq!(proof, vec![vec![0xc4, 0x82, 0x20, 0x61, 0x76]]);
    assert_eq!(trie.verify_proof(root, b"a", proof.clone()).unwrap(), Some(b"v".to_vec()));
    assert_eq!(trie.verify_proof(root, b"b", proof).unwrap(), None);
}

#[test]
fn the_proof_of_an_empty_trie_is_empty_and_shows_nothing() {
    let mut db = MemoryDB::new(true);
    let mut trie = PatriciaTrie::new(&mut db);
    let root = trie.root().unwrap();
    let proof = trie.get_proof(b"a").unwrap();
    assert!(proof.is_empty());
    let r = trie.verify_proof(root, b"a", proof);
    assert!(matches!(r, Err(TrieError::InvalidProof)));
    // the encoded empty node under its digest is a proof that the key is absent
    assert_eq!(trie.verify_proof(root, b"a", vec![vec![0x80]]).unwrap(), None);
}

#[test]
fn a_proof_before_the_commit_holds_the_whole_root() {
    let mut db = MemoryDB::new(true);
    let mut trie = PatriciaTrie::new(&mut db);
    trie.insert(b"doe", b"reindeer".to_vec()).unwrap();
    trie.insert(b"dog", b"puppy".to_vec()).unwrap();
    let proof = trie.get_proof(b"dog").unwrap();
    assert_eq!(proof.len(), 1);
    let root = trie.root().unwrap();
    assert_eq!(keccak256(&proof[0]), root);
}

#[test]
fn a_proof_made_before_the_commit_lacks_the_nodes_held_in_memory() {
    let mut db = MemoryDB::new(true);
    let mut trie = PatriciaTrie::new(&mut db);
    trie.insert(b"aa", vec![1u8; 40]).unwrap();
    trie.insert(b"ab", vec![2u8; 40]).unwrap();
    let early = trie.get_proof(b"aa").unwrap();
    assert_eq!(early.len(), 1);
    let root = trie.root().unwrap();
    assert_eq!(keccak256(&early[0]), root);
    // the branch below the root is too long to stand in the root, and was not
    // yet in the store
    assert_eq!(trie.verify_proof(root, b"aa", early).unwrap(), None);
    let late = trie.get_proof(b"aa").unwrap();
    // the root, the branch, the leaf
    assert_eq!(late.len(), 3);
    assert_eq!(trie.verify_proof(root, b"aa", late).unwrap(), Some(vec![1u8; 40]));
}
