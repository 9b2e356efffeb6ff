use std::collections::{HashMap, HashSet};

use ethtrie::{HashDB, MemoryDB, PatriciaTrieMut};

#[test]
fn iterator_trie() {
    let mut memdb = MemoryDB::new(true);
    let root1;
    let mut kv = HashMap::new();
    kv.insert(b"test".to_vec(), b"test".to_vec());
    kv.insert(b"test1".to_vec(), b"test1".to_vec());
    kv.insert(b"test11".to_vec(), b"test2".to_vec());
    kv.insert(b"test14".to_vec(), b"test3".to_vec());
    kv.insert(b"test16".to_vec(), b"test4".to_vec());
    kv.insert(b"test18".to_vec(), b"test5".to_vec());
    kv.insert(b"test2".to_vec(), b"test6".to_vec());
    kv.insert(b"test23".to_vec(), b"test7".to_vec());
    kv.insert(b"test9".to_vec(), b"test8".to_vec());
    {
        let mut trie = PatriciaTrieMut::new(&mut memdb);
        let mut kv = kv.clone();
        kv.iter().for_each(|(k, v)| {
            trie.insert(k, v.clone()).unwrap();
        });
        root1 = trie.root().unwrap();

        let mut it = trie.iter();
        while let Some((k, v)) = it.next() {
            assert_eq!(kv.remove(&k).unwrap(), v);
        }
        assert!(kv.is_empty());
    }

    {
        let mut trie = PatriciaTrieMut::new(&mut memdb);
        let mut kv2 = HashMap::new();
        kv2.insert(b"test".to_vec(), b"test11".to_vec());
        kv2.insert(b"test1".to_vec(), b"test12".to_vec());
        kv2.insert(b"test14".to_vec(), b"test13".to_vec());
        kv2.insert(b"test22".to_vec(), b"test14".to_vec());
        kv2.insert(b"test9".to_vec(), b"test15".to_vec());
        kv2.insert(b"test16".to_vec(), b"test16".to_vec());
        kv2.insert(b"test2".to_vec(), b"test17".to_vec());
        kv2.iter().for_each(|(k, v)| {
            trie.insert(k, v.clone()).unwrap();
        });

        trie.root().unwrap();

        let mut kv_delete = HashSet::new();
        kv_delete.insert(b"test".to_vec());
        kv_delete.insert(b"test1".to_vec());
        kv_delete.insert(b"test14".to_vec());

        kv_delete.iter().for_each(|k| {
            trie.remove(&k).unwrap();
        });

        kv2.retain(|k, _| !kv_delete.contains(k));

        trie.root().unwrap();
        let mut it = trie.iter();
        while let Some((k, v)) = it.next() {
            assert_eq!(kv2.remove(&k).unwrap(), v);
        }
        assert!(kv2.is_empty());
    }

    let trie = PatriciaTrieMut::from(&mut memdb, root1).unwrap();
    let mut it = trie.iter();
    while let Some((k, v)) = it.next() {
        assert_eq!(kv.remove(&k).unwrap(), v);
    }
    assert!(kv.is_empty());
}

#[test]
fn iterator_gives_keys_in_order_before_commit() {
    let mut memdb = MemoryDB::new(true);
    let mut trie = PatriciaTrieMut::new(&mut memdb);
    trie.insert(b"b", b"2".to_vec()).unwrap();
    trie.insert(b"a", b"1".to_vec()).unwrap();
    trie.insert(b"ab", b"3".to_vec()).unwrap();
    let mut it = trie.iter();
    assert_eq!(it.next(), Some((b"a".to_vec(), b"1".to_vec())));
    assert_eq!(it.next(), Some((b"ab".to_vec(), b"3".to_vec())));
    assert_eq!(it.next(), Some((b"b".to_vec(), b"2".to_vec())));
    assert_eq!(it.next(), None);
    assert_eq!(it.next(), None);
}

#[test]
fn iterator_of_empty_trie_gives_nothing() {
    let mut memdb = MemoryDB::new(true);
    let trie = PatriciaTrieMut::new(&mut memdb);
    let mut it = trie.iter();
    assert_eq!(it.next(), None);
}

#[test]
fn iteration_after_reopening_gives_the_same_pairs() {
    let mut memdb = MemoryDB::new(true);
    let keys: Vec<Vec<u8>> = (0u8..40).map(|i| vec![i, i.wrapping_mul(7), 3, i]).collect();
    let (root, first) = {
        let mut trie = PatriciaTrieMut::new(&mut memdb);
        for k in keys.iter() {
            trie.insert(k, [k.as_slice(), b"-a-value-long-enough-to-be-stored-by-digest"].concat())
                .unwrap();
        }
        let root = trie.root().unwrap();
        let mut seen = Vec::new();
        let mut it = trie.iter();
        while let Some(pair) = it.next() {
            seen.push(pair);
        }
        (root, seen)
    };
    let trie = PatriciaTrieMut::from(&mut memdb, root).unwrap();
    let mut second = Vec::new();
    let mut it = trie.iter();
    while let Some(pair) = it.next() {
        second.push(pair);
    }
    assert_eq!(first.len(), 40);
    assert_eq!(first, second);
}

#[test]
fn the_walk_stops_where_a_node_is_missing_and_goes_on_when_asked_again() {
    let mut db = MemoryDB::new(true);
    let root = {
        let mut trie = PatriciaTrieMut::new(&mut db);
        trie.insert(b"aa", vec![1u8; 40]).unwrap();
        trie.insert(b"ab", vec![2u8; 40]).unwrap();
        trie.root().unwrap()
    };
    let first_leaf = {
        let mut scratch = MemoryDB::new(true);
        let mut t = PatriciaTrieMut::new(&mut scratch);
        t.insert(b"", vec![1u8; 40]).unwrap();
        t.root().unwrap()
    };
    assert!(db.contains(&first_leaf));
    db.remove(&first_leaf);
    let trie = PatriciaTrieMut::from(&mut db, root).unwrap();
    let mut it = trie.iter();
    assert_eq!(it.next(), None);
    assert_eq!(it.next(), Some((b"ab".to_vec(), vec![2u8; 40])));
    assert_eq!(it.next(), None);
    assert_eq!(it.next(), None);
}
