use ethtrie::{keccak256, HashDB, MemoryDB, PatriciaTrie};

fn pairs() -> Vec<(Vec<u8>, Vec<u8>)> {
    let mut out = Vec::new();
    for i in 0u16..120 {
        let key = vec![(i % 7) as u8, (i % 5) as u8, (i / 3) as u8];
        let value = vec![(i % 251) as u8 + 1; (i % 45) as usize + 1];
        out.push((key, value));
    }
    out
}

#[test]
fn get_gives_the_value_inserted_last() {
    let mut db = MemoryDB::new(true);
    let mut trie = PatriciaTrie::new(&mut db);
    let mut last = std::collections::HashMap::new();
    for (k, v) in pairs() {
        trie.insert(&k, v.clone()).unwrap();
        last.insert(k, v);
    }
    for (k, v) in last.iter() {
        assert_eq!(trie.get(k).unwrap().as_ref(), Some(v));
    }
    trie.root().unwrap();
    for (k, v) in last.iter() {
        assert_eq!(trie.get(k).unwrap().as_ref(), Some(v));
    }
    assert_eq!(trie.get(&[9, 9, 9]).unwrap(), None);
}

#[test]
fn remove_twice_gives_true_then_false() {
    let mut db = MemoryDB::new(true);
    let mut trie = PatriciaTrie::new(&mut db);
    for (k, v) in pairs() {
        trie.insert(&k, v).unwrap();
    }
    let key = vec![3u8, 3, 1];
    assert!(trie.get(&key).unwrap().is_some());
    assert_eq!(trie.remove(&key).unwrap(), true);
    assert_eq!(trie.remove(&key).unwrap(), false);
    assert_eq!(trie.get(&key).unwrap(), None);
    assert_eq!(trie.remove(&[9, 9, 9]).unwrap(), false);
}

#[test]
fn remove_of_a_path_that_ends_at_a_branch_reports_a_removal() {
    let mut db = MemoryDB::new(true);
    let mut trie = PatriciaTrie::new(&mut db);
    trie.insert(b"test", b"0".to_vec()).unwrap();
    trie.insert(b"test1", b"1".to_vec()).unwrap();
    trie.insert(b"testA", b"2".to_vec()).unwrap();
    assert_eq!(trie.remove(b"test").unwrap(), true);
    assert_eq!(trie.get(b"test").unwrap(), None);
    // the branch after "test" still has two children: the path ends at it
    assert_eq!(trie.remove(b"test").unwrap(), true);
    assert_eq!(trie.get(b"test").unwrap(), None);
    assert_eq!(trie.get(b"test1").unwrap(), Some(b"1".to_vec()));
    assert_eq!(trie.get(b"testA").unwrap(), Some(b"2".to_vec()));
}

#[test]
fn an_empty_value_removes_the_key() {
    let mut db = MemoryDB::new(true);
    let mut trie = PatriciaTrie::new(&mut db);
    trie.insert(b"key", b"value".to_vec()).unwrap();
    trie.insert(b"other", b"value".to_vec()).unwrap();
    trie.insert(b"key", vec![]).unwrap();
    assert_eq!(trie.contains(b"key").unwrap(), false);
    assert_eq!(trie.contains(b"other").unwrap(), true);
    trie.insert(b"never", vec![]).unwrap();
    assert_eq!(trie.contains(b"never").unwrap(), false);
}

#[test]
fn the_root_does_not_depend_on_the_order() {
    let all = pairs();
    let mut last = std::collections::BTreeMap::new();
    for (k, v) in all.iter() {
        last.insert(k.clone(), v.clone());
    }
    let root_a = {
        let mut db = MemoryDB::new(true);
        let mut trie = PatriciaTrie::new(&mut db);
        for (k, v) in all.iter() {
            trie.insert(k, v.clone()).unwrap();
        }
        trie.root().unwrap()
    };
    let root_b = {
        let mut db = MemoryDB::new(true);
        let mut trie = PatriciaTrie::new(&mut db);
        for (k, v) in last.iter().rev() {
            trie.insert(k, v.clone()).unwrap();
        }
        trie.root().unwrap()
    };
    let root_c = {
        let mut db = MemoryDB::new(false);
        let mut trie = PatriciaTrie::new(&mut db);
        trie.insert(b"gone", b"soon".to_vec()).unwrap();
        trie.insert(&[3, 3], b"a value at a branch".to_vec()).unwrap();
        for (k, v) in last.iter() {
            trie.insert(k, v.clone()).unwrap();
            trie.root().unwrap();
        }
        trie.remove(b"gone").unwrap();
        trie.remove(&[3, 3]).unwrap();
        trie.root().unwrap()
    };
    assert_eq!(root_a, root_b);
    assert_eq!(root_a, root_c);
}

#[test]
fn the_same_value_again_gives_the_same_root() {
    let d1 = {
        let mut db = MemoryDB::new(true);
        let mut trie = PatriciaTrie::new(&mut db);
        trie.insert(b"test", b"a".to_vec()).unwrap();
        trie.insert(b"test", b"b".to_vec()).unwrap();
        trie.root().unwrap()
    };
    let d2 = {
        let mut db = MemoryDB::new(true);
        let mut trie = PatriciaTrie::new(&mut db);
        trie.insert(b"test", b"b".to_vec()).unwrap();
        trie.root().unwrap()
    };
    assert_eq!(d1, d2);
}

#[test]
fn root_twice_gives_the_same_digest_and_writes_nothing_more() {
    let mut db = MemoryDB::new(true);
    let (r1, r2) = {
        let mut trie = PatriciaTrie::new(&mut db);
        for (k, v) in pairs() {
            trie.insert(&k, v).unwrap();
        }
        (trie.root().unwrap(), trie.root().unwrap())
    };
    assert_eq!(r1, r2);
    let n = db.len();
    let mut trie = PatriciaTrie::from(&mut db, r1).unwrap();
    assert_eq!(trie.root().unwrap(), r1);
    assert_eq!(db.len(), n);
}

#[test]
fn the_remaining_keys_are_walked_after_removals() {
    let mut db = MemoryDB::new(true);
    let r = {
        let mut trie = PatriciaTrie::new(&mut db);
        for k in [&b"test"[..], b"test1", b"test2", b"test23", b"test33", b"test44"] {
            trie.insert(k, b"test".to_vec()).unwrap();
        }
        trie.root().unwrap()
    };
    let mut trie = PatriciaTrie::from(&mut db, r).unwrap();
    assert_eq!(trie.remove(b"test44").unwrap(), true);
    assert_eq!(trie.remove(b"test33").unwrap(), true);
    assert_eq!(trie.remove(b"test23").unwrap(), true);
    trie.root().unwrap();
    let mut seen = Vec::new();
    let mut it = trie.iter();
    while let Some((k, v)) = it.next() {
        assert_eq!(v, b"test".to_vec());
        seen.push(k);
    }
    assert_eq!(seen, vec![b"test".to_vec(), b"test1".to_vec(), b"test2".to_vec()]);
}

#[test]
fn a_light_store_forgets_the_nodes_below_a_root_that_was_emptied() {
    let mut db = MemoryDB::new(true);
    let (first, filled) = {
        let mut trie = PatriciaTrie::new(&mut db);
        let all = pairs();
        for (k, v) in all.iter() {
            trie.insert(k, v.clone()).unwrap();
        }
        let first = trie.root().unwrap();
        let filled = trie.iter();
        drop(filled);
        for (k, _) in all.iter().rev() {
            trie.remove(k).unwrap();
        }
        let root = trie.root().unwrap();
        assert_eq!(root, keccak256(&[0x80]));
        (first, all.len())
    };
    assert!(filled > 2);
    // the empty node is there, and of the first commit the root alone, which no
    // change has read through a reference
    assert_eq!(db.get(&keccak256(&[0x80])), Some(vec![0x80]));
    assert!(db.contains(&first));
    assert_eq!(db.len(), 2);
}

#[test]
fn a_light_store_keeps_the_old_root_of_a_single_key() {
    let mut db = MemoryDB::new(true);
    let first = {
        let mut trie = PatriciaTrie::new(&mut db);
        trie.insert(b"test", b"test".to_vec()).unwrap();
        let first = trie.root().unwrap();
        assert_eq!(trie.remove(b"test").unwrap(), true);
        assert_eq!(trie.root().unwrap(), keccak256(&[0x80]));
        first
    };
    assert_eq!(db.get(&keccak256(&[0x80])), Some(vec![0x80]));
    assert!(db.contains(&first));
    assert_eq!(db.len(), 2);
}

#[test]
fn an_archive_keeps_the_old_roots() {
    let mut db = MemoryDB::new(false);
    let (r1, r2) = {
        let mut trie = PatriciaTrie::new(&mut db);
        for (k, v) in pairs() {
            trie.insert(&k, v).unwrap();
        }
        let r1 = trie.root().unwrap();
        trie.remove(&[3, 3, 1]).unwrap();
        trie.insert(b"new", vec![5u8; 50]).unwrap();
        (r1, trie.root().unwrap())
    };
    assert_ne!(r1, r2);
    let old = PatriciaTrie::from(&mut db, r1).unwrap();
    assert!(old.get(&[3, 3, 1]).unwrap().is_some());
    assert_eq!(old.get(b"new").unwrap(), None);
    let new = PatriciaTrie::from(&mut db, r2).unwrap();
    assert_eq!(new.get(&[3, 3, 1]).unwrap(), None);
    assert_eq!(new.get(b"new").unwrap(), Some(vec![5u8; 50]));
}

#[test]
fn a_trie_of_one_key_is_a_leaf_with_a_known_encoding() {
    let mut db = MemoryDB::new(true);
    let root = {
        let mut trie = PatriciaTrie::new(&mut db);
        trie.insert(b"a", b"v".to_vec()).unwrap();
        trie.root().unwrap()
    };
    let blob = vec![0xc4, 0x82, 0x20, 0x61, 0x76];
    assert_eq!(root, keccak256(&blob));
    assert_eq!(db.get(&root), Some(blob));
}

#[test]
fn removing_the_value_of_a_branch_brings_the_trie_back_into_shape() {
    let with_both = {
        let mut db = MemoryDB::new(true);
        let mut trie = PatriciaTrie::new(&mut db);
        trie.insert(b"ab", b"short".to_vec()).unwrap();
        trie.insert(b"abc", b"long".to_vec()).unwrap();
        trie.remove(b"ab").unwrap();
        trie.root().unwrap()
    };
    let alone = {
        let mut db = MemoryDB::new(true);
        let mut trie = PatriciaTrie::new(&mut db);
        trie.insert(b"abc", b"long".to_vec()).unwrap();
        trie.root().unwrap()
    };
    assert_eq!(with_both, alone);
}
