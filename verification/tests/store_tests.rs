use ethtrie::{keccak256, HashDB, MemoryDB, H256};

#[test]
fn memory_db_get_after_insert() {
    let mut db = MemoryDB::new(true);
    assert!(db.is_empty());
    assert_eq!(db.len(), 0);
    let k = keccak256(b"a");
    assert_eq!(db.get(&k), None);
    assert!(!db.contains(&k));
    db.insert(k, b"one".to_vec());
    assert_eq!(db.get(&k), Some(b"one".to_vec()));
    assert!(db.contains(&k));
    db.insert(k, b"two".to_vec());
    assert_eq!(db.get(&k), Some(b"two".to_vec()));
    assert_eq!(db.len(), 1);
    assert!(!db.is_empty());
}

#[test]
fn light_store_forgets_what_is_removed() {
    let mut db = MemoryDB::new(true);
    let a = keccak256(b"a");
    let b = keccak256(b"b");
    db.insert(a, vec![1]);
    db.insert(b, vec![2]);
    db.remove(&a);
    assert_eq!(db.get(&a), None);
    assert_eq!(db.get(&b), Some(vec![2]));
    assert_eq!(db.len(), 1);
    db.remove(&a);
    assert_eq!(db.len(), 1);
}

#[test]
fn archive_store_keeps_what_is_removed() {
    let mut db = MemoryDB::new(false);
    let a = keccak256(b"a");
    db.insert(a, vec![1]);
    db.remove(&a);
    assert_eq!(db.get(&a), Some(vec![1]));
    db.remove_batch(&[a]);
    assert_eq!(db.len(), 1);
}

#[test]
fn batches_insert_and_remove_in_order() {
    let mut db = MemoryDB::new(true);
    let a = keccak256(b"a");
    let b = keccak256(b"b");
    let c = keccak256(b"c");
    db.insert_batch(vec![a, b, a], vec![vec![1], vec![2], vec![3]]);
    assert_eq!(db.get(&a), Some(vec![3]));
    assert_eq!(db.get(&b), Some(vec![2]));
    assert_eq!(db.len(), 2);
    db.insert(c, vec![4]);
    db.remove_batch(&[a, c, a]);
    assert_eq!(db.get(&a), None);
    assert_eq!(db.get(&c), None);
    assert_eq!(db.get(&b), Some(vec![2]));
    db.flush();
    assert_eq!(db.len(), 1);
}

#[test]
fn keccak_of_known_inputs() {
    assert_eq!(
        hex::encode(keccak256(b"").as_bytes()),
        "c5d2460186f7233c927e7db2dcc703c0e500b653ca82273b7bfad8045d85a470"
    );
    assert_eq!(
        hex::encode(keccak256(b"abc").as_bytes()),
        "4e03657aea45a94fc7d47ba826c8d667c0d1e6e33a64a036ec44f58fa12d6c45"
    );
}

#[test]
fn digests_are_made_and_compared_by_their_bytes() {
    let zero = H256::zero();
    assert_eq!(zero.as_bytes(), &[0u8; 32]);
    let one = H256::from_low_u64_be(1);
    assert_eq!(one.as_bytes(), ethereum_types::H256::from_low_u64_be(1).as_bytes());
    let big = H256::from_low_u64_be(0x0102030405060708);
    assert_eq!(
        big.as_bytes(),
        ethereum_types::H256::from_low_u64_be(0x0102030405060708).as_bytes()
    );
    assert_eq!(&big.as_bytes()[24..], &[1, 2, 3, 4, 5, 6, 7, 8]);
    let copy = H256::from_slice(big.as_bytes());
    assert!(copy.equals(&big));
    assert!(!copy.equals(&one));
    assert_eq!(copy, big);
    assert_ne!(copy, one);
}

#[test]
fn the_default_store_is_an_empty_archive() {
    let mut db = MemoryDB::default();
    assert!(db.is_empty());
    let a = keccak256(b"a");
    db.insert(a, vec![1]);
    db.remove(&a);
    assert_eq!(db.get(&a), Some(vec![1]));
}
