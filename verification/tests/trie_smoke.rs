use rand::distributions::Alphanumeric;
use rand::seq::SliceRandom;
use rand::{thread_rng, Rng};

use ethtrie::{keccak256, HashDB, MemoryDB, PatriciaTrieMut};

#[test]
fn test_trie_insert() {
    let mut memdb = MemoryDB::new(true);
    let mut trie = PatriciaTrieMut::new(&mut memdb);
    trie.insert(b"test", b"test".to_vec()).unwrap();
}

#[test]
fn test_trie_get() {
    let mut memdb = MemoryDB::new(true);
    let mut trie = PatriciaTrieMut::new(&mut memdb);
    trie.insert(b"test", b"test".to_vec()).unwrap();
    let v = trie.get(b"test").unwrap();

    assert_eq!(Some(b"test".to_vec()), v)
}

#[test]
fn test_trie_random_insert() {
    let mut memdb = MemoryDB::new(true);
    let mut trie = PatriciaTrieMut::new(&mut memdb);

    for _ in 0..1000 {
        let rand_str: String = thread_rng().sample_iter(&Alphanumeric).take(30).collect();
        let val = rand_str.as_bytes();
        trie.insert(val, val.to_vec()).unwrap();

        let v = trie.get(val).unwrap();
        assert_eq!(v.map(|v| v.to_vec()), Some(val.to_vec()));
    }
}

#[test]
fn test_trie_contains() {
    let mut memdb = MemoryDB::new(true);
    let mut trie = PatriciaTrieMut::new(&mut memdb);
    trie.insert(b"test", b"test".to_vec()).unwrap();
    assert_eq!(true, trie.contains(b"test").unwrap());
    assert_eq!(false, trie.contains(b"test2").unwrap());
}

#[test]
fn test_trie_remove() {
    let mut memdb = MemoryDB::new(true);
    let mut trie = PatriciaTrieMut::new(&mut memdb);
    trie.insert(b"test", b"test".to_vec()).unwrap();
    let removed = trie.remove(b"test").unwrap();
    assert_eq!(true, removed)
}

#[test]
fn test_trie_random_remove() {
    let mut memdb = MemoryDB::new(true);
    let mut trie = PatriciaTrieMut::new(&mut memdb);

    for _ in 0..1000 {
        let rand_str: String = thread_rng().sample_iter(&Alphanumeric).take(30).collect();
        let val = rand_str.as_bytes();
        trie.insert(val, val.to_vec()).unwrap();

        let removed = trie.remove(val).unwrap();
        assert_eq!(true, removed);
    }
}

#[test]
fn test_trie_from_root() {
    let mut memdb = MemoryDB::new(true);
    let root = {
        let mut trie = PatriciaTrieMut::new(&mut memdb);
        trie.insert(b"test", b"test".to_vec()).unwrap();
        trie.insert(b"test1", b"test".to_vec()).unwrap();
        trie.insert(b"test2", b"test".to_vec()).unwrap();
        trie.insert(b"test23", b"test".to_vec()).unwrap();
        trie.insert(b"test33", b"test".to_vec()).unwrap();
        trie.insert(b"test44", b"test".to_vec()).unwrap();
        trie.root().unwrap()
    };

    let mut trie = PatriciaTrieMut::from(&mut memdb, root).unwrap();
    let v1 = trie.get(b"test33").unwrap();
    assert_eq!(Some(b"test".to_vec()), v1);
    let v2 = trie.get(b"test44").unwrap();
    assert_eq!(Some(b"test".to_vec()), v2);
    let root2 = trie.root().unwrap();
    assert_eq!(hex::encode(root.as_bytes()), hex::encode(root2.as_bytes()));
}

#[test]
fn test_trie_from_root_and_insert() {
    let mut memdb = MemoryDB::new(true);
    let root = {
        let mut trie = PatriciaTrieMut::new(&mut memdb);
        trie.insert(b"test", b"test".to_vec()).unwrap();
        trie.insert(b"test1", b"test".to_vec()).unwrap();
        trie.insert(b"test2", b"test".to_vec()).unwrap();
        trie.insert(b"test23", b"test".to_vec()).unwrap();
        trie.insert(b"test33", b"test".to_vec()).unwrap();
        trie.insert(b"test44", b"test".to_vec()).unwrap();
        trie.root().unwrap()
    };

    let mut trie = PatriciaTrieMut::from(&mut memdb, root).unwrap();
    trie.insert(b"test55", b"test55".to_vec()).unwrap();
    trie.root().unwrap();
    let v = trie.get(b"test55").unwrap();
    assert_eq!(Some(b"test55".to_vec()), v);
}

#[test]
fn test_trie_from_root_and_delete() {
    let mut memdb = MemoryDB::new(true);
    let root = {
        let mut trie = PatriciaTrieMut::new(&mut memdb);
        trie.insert(b"test", b"test".to_vec()).unwrap();
        trie.insert(b"test1", b"test".to_vec()).unwrap();
        trie.insert(b"test2", b"test".to_vec()).unwrap();
        trie.insert(b"test23", b"test".to_vec()).unwrap();
        trie.insert(b"test33", b"test".to_vec()).unwrap();
        trie.insert(b"test44", b"test".to_vec()).unwrap();
        trie.root().unwrap()
    };

    let mut trie = PatriciaTrieMut::from(&mut memdb, root).unwrap();
    let removed = trie.remove(b"test44").unwrap();
    assert_eq!(true, removed);
    let removed = trie.remove(b"test33").unwrap();
    assert_eq!(true, removed);
    let removed = trie.remove(b"test23").unwrap();
    assert_eq!(true, removed);
}

#[test]
fn test_multiple_trie_roots() {
    let k0 = ethereum_types::H256::zero();
    let k1 = ethereum_types::H256::from_low_u64_be(1);
    let v = ethereum_types::H256::from_low_u64_be(0x1234);

    let root1 = {
        let mut memdb = MemoryDB::new(true);
        let mut trie = PatriciaTrieMut::new(&mut memdb);
        trie.insert(k0.as_bytes(), v.as_bytes().to_vec()).unwrap();
        trie.root().unwrap()
    };

    let root2 = {
        let mut memdb = MemoryDB::new(true);
        let mut trie = PatriciaTrieMut::new(&mut memdb);
        trie.insert(k0.as_bytes(), v.as_bytes().to_vec()).unwrap();
        trie.insert(k1.as_bytes(), v.as_bytes().to_vec()).unwrap();
        trie.root().unwrap();
        trie.remove(k1.as_ref()).unwrap();
        trie.root().unwrap()
    };

    let root3 = {
        let mut memdb = MemoryDB::new(true);
        let root = {
            let mut trie1 = PatriciaTrieMut::new(&mut memdb);
            trie1.insert(k0.as_bytes(), v.as_bytes().to_vec()).unwrap();
            trie1.insert(k1.as_bytes(), v.as_bytes().to_vec()).unwrap();
            trie1.root().unwrap();
            trie1.root().unwrap()
        };
        let mut trie2 = PatriciaTrieMut::from(&mut memdb, root).unwrap();
        trie2.remove(&k1.as_bytes()).unwrap();
        trie2.root().unwrap()
    };

    assert_eq!(root1, root2);
    assert_eq!(root2, root3);
}

#[test]
fn test_delete_stale_keys_with_random_insert_and_delete() {
    let mut memdb = MemoryDB::new(true);
    let mut trie = PatriciaTrieMut::new(&mut memdb);

    let mut rng = rand::thread_rng();
    let mut keys = Vec::new();
    for _ in 0..100 {
        let random_bytes: Vec<u8> = (0..rng.gen_range(2, 30u8))
            .map(|_| rand::random::<u8>())
            .collect();
        trie.insert(&random_bytes, random_bytes.clone()).unwrap();
        keys.push(random_bytes.clone());
    }
    trie.root().unwrap();
    let slice = &mut keys;
    slice.shuffle(&mut rng);

    for key in slice.iter() {
        trie.remove(key).unwrap();
    }
    trie.root().unwrap();

    let empty_node_key = keccak256(&rlp::NULL_RLP);
    let value = memdb.get(&empty_node_key).unwrap();
    assert_eq!(value, &rlp::NULL_RLP)
}

#[test]
fn insert_full_branch() {
    let mut memdb = MemoryDB::new(true);
    let mut trie = PatriciaTrieMut::new(&mut memdb);

    trie.insert(b"test", b"test".to_vec()).unwrap();
    trie.insert(b"test1", b"test".to_vec()).unwrap();
    trie.insert(b"test2", b"test".to_vec()).unwrap();
    trie.insert(b"test23", b"test".to_vec()).unwrap();
    trie.insert(b"test33", b"test".to_vec()).unwrap();
    trie.insert(b"test44", b"test".to_vec()).unwrap();
    trie.root().unwrap();

    let v = trie.get(b"test").unwrap();
    assert_eq!(Some(b"test".to_vec()), v);
}

#[test]
fn known_root_of_three_keys() {
    let mut memdb = MemoryDB::new(true);
    let mut trie = PatriciaTrieMut::new(&mut memdb);
    trie.insert(b"doe", b"reindeer".to_vec()).unwrap();
    trie.insert(b"dog", b"puppy".to_vec()).unwrap();
    trie.insert(b"dogglesworth", b"cat".to_vec()).unwrap();
    let root = trie.root().unwrap();
    assert_eq!(
        hex::encode(root.as_bytes()),
        "8aad789dff2f538bca5d8ea56e8abe10f4c7ba3a5dea95fea4cd6e7c3a1168d3"
    );
}

#[test]
fn empty_root_is_digest_of_null() {
    let mut memdb = MemoryDB::new(true);
    let mut trie = PatriciaTrieMut::new(&mut memdb);
    let root = trie.root().unwrap();
    assert_eq!(
        hex::encode(root.as_bytes()),
        "56e81f171bcc55a6ff8345e692c0f86e5b48e01b996cadc001622fb5e363b421"
    );
    assert_eq!(root, keccak256(&[0x80]));
}
