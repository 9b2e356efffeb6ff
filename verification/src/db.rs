//! The blob store under a trie: encoded nodes by their digests.
use crate::hasher::H256;
use crate::node::copy_bytes;
use vstd::prelude::*;

verus! {

/// What a store holds after the first `count` of the given pairs have been
/// inserted in their order.
pub open spec fn with_batch(
    blobs: Map<Seq<u8>, Seq<u8>>,
    keys: Seq<H256>,
    values: Seq<Vec<u8>>,
    count: nat,
) -> Map<Seq<u8>, Seq<u8>>
    decreases count,
{
    if count == 0 || count > keys.len() || count > values.len() {
        blobs
    } else {
        with_batch(blobs, keys, values, (count - 1) as nat).insert(
            keys[count - 1]@,
            values[count - 1]@,
        )
    }
}

/// The digests among the first `count` of `keys`.
pub open spec fn key_set(keys: Seq<H256>, count: nat) -> Set<Seq<u8>> {
    Set::new(|k: Seq<u8>| exists|i: int| 0 <= i < count && i < keys.len() && #[trigger] keys[i]@ == k)
}

/// What a store holds after a removal of `gone` has been asked for: a light
/// store forgets them, an archive keeps everything.
pub open spec fn without(blobs: Map<Seq<u8>, Seq<u8>>, light: bool, gone: Set<Seq<u8>>) -> Map<
    Seq<u8>,
    Seq<u8>,
> {
    if light {
        blobs.remove_keys(gone)
    } else {
        blobs
    }
}

/// A store of blobs by digest. The trie reads through it and writes to it
/// when it commits.
pub trait HashDB {
    /// The blobs that the store holds. Every store says for itself what
    /// that is; one that does not is taken to hold nothing.
    open spec fn blobs(&self) -> Map<Seq<u8>, Seq<u8>> {
        Map::empty()
    }

    /// Whether the store forgets what is removed. One that does not is an
    /// archive: it keeps every blob it was ever given.
    open spec fn light(&self) -> bool {
        false
    }

    /// The blob stored under `key`, if there is one.
    fn get(&self, key: &H256) -> (r: Option<Vec<u8>>)
        ensures
            r is Some == self.blobs().contains_key(key@),
            r matches Some(v) ==> v@ == self.blobs()[key@],
    ;

    /// Whether a blob is stored under `key`.
    fn contains(&self, key: &H256) -> (r: bool)
        ensures
            r == self.blobs().contains_key(key@),
    ;

    /// Stores `value` under `key`.
    fn insert(&mut self, key: H256, value: Vec<u8>)
        ensures
            final(self).blobs() == old(self).blobs().insert(key@, value@),
            final(self).light() == old(self).light(),
    ;

    /// Asks for the blob under `key` to be removed.
    fn remove(&mut self, key: &H256)
        ensures
            final(self).blobs() == without(old(self).blobs(), old(self).light(), set![key@]),
            final(self).light() == old(self).light(),
    ;

    /// Stores each value under the key at the same position.
    fn insert_batch(&mut self, keys: Vec<H256>, values: Vec<Vec<u8>>)
        requires
            keys@.len() <= values@.len(),
        ensures
            final(self).blobs() == with_batch(old(self).blobs(), keys@, values@, keys@.len()),
            final(self).light() == old(self).light(),
    {
        let mut i: usize = 0;
        while i < keys.len()
            invariant
                i <= keys@.len(),
                keys@.len() <= values@.len(),
                self.blobs() == with_batch(old(self).blobs(), keys@, values@, i as nat),
                self.light() == old(self).light(),
            decreases keys@.len() - i,
        {
            let key = keys[i];
            let value = copy_bytes(&values[i]);
            self.insert(key, value);
            i += 1;
        }
    }

    /// Asks for the blobs under all of `keys` to be removed.
    fn remove_batch(&mut self, keys: &[H256])
        ensures
            final(self).blobs() == without(
                old(self).blobs(),
                old(self).light(),
                key_set(keys@, keys@.len()),
            ),
            final(self).light() == old(self).light(),
    {
        let mut i: usize = 0;
        assert(old(self).blobs().remove_keys(key_set(keys@, 0)) =~= old(self).blobs());
        while i < keys.len()
            invariant
                i <= keys@.len(),
                self.blobs() == without(old(self).blobs(), old(self).light(), key_set(keys@, i as nat)),
                self.light() == old(self).light(),
            decreases keys@.len() - i,
        {
            let ghost before = self.blobs();
            self.remove(&keys[i]);
            proof {
                if old(self).light() {
                    assert(key_set(keys@, (i + 1) as nat) =~= key_set(keys@, i as nat).insert(
                        keys@[i as int]@,
                    ));
                    assert(before.remove_keys(set![keys@[i as int]@]) =~= old(self).blobs().remove_keys(
                        key_set(keys@, (i + 1) as nat),
                    ));
                }
            }
            i += 1;
        }
    }

    /// Makes what was written durable. What the store holds stays as it is.
    fn flush(&mut self)
        ensures
            final(self).blobs() == old(self).blobs(),
            final(self).light() == old(self).light(),
    ;
}

/// The map that a list of pairs stands for: a later pair replaces an earlier
/// one with the same digest.
pub open spec fn pairs_map(entries: Seq<(H256, Vec<u8>)>) -> Map<Seq<u8>, Seq<u8>>
    decreases entries.len(),
{
    if entries.len() == 0 {
        Map::empty()
    } else {
        pairs_map(entries.drop_last()).insert(entries.last().0@, entries.last().1@)
    }
}

/// A digest is in the map of a list exactly if a pair of the list has it.
pub proof fn lemma_pairs_map_domain(entries: Seq<(H256, Vec<u8>)>, key: Seq<u8>)
    ensures
        pairs_map(entries).contains_key(key) <==> exists|i: int|
            0 <= i < entries.len() && (#[trigger] entries[i]).0@ == key,
    decreases entries.len(),
{
    if entries.len() > 0 {
        lemma_pairs_map_domain(entries.drop_last(), key);
        if pairs_map(entries).contains_key(key) {
            if entries.last().0@ == key {
                assert(entries[entries.len() - 1].0@ == key);
            } else {
                let i = choose|i: int|
                    0 <= i < entries.drop_last().len() && (#[trigger] entries.drop_last()[i]).0@
                        == key;
                assert(entries[i].0@ == key);
            }
        }
        if exists|i: int| 0 <= i < entries.len() && (#[trigger] entries[i]).0@ == key {
            let i = choose|i: int| 0 <= i < entries.len() && (#[trigger] entries[i]).0@ == key;
            if i < entries.len() - 1 {
                assert(entries.drop_last()[i].0@ == key);
            }
        }
    }
}

/// The map of a list gives, for a digest, the bytes of the last pair with it.
pub proof fn lemma_pairs_map_last(entries: Seq<(H256, Vec<u8>)>, at: int)
    requires
        0 <= at < entries.len(),
        forall|j: int| at < j < entries.len() ==> (#[trigger] entries[j]).0@ != entries[at].0@,
    ensures
        pairs_map(entries).contains_key(entries[at].0@),
        pairs_map(entries)[entries[at].0@] == entries[at].1@,
    decreases entries.len(),
{
    if at < entries.len() - 1 {
        assert(entries[entries.len() - 1].0@ != entries[at].0@);
        assert forall|j: int| at < j < entries.drop_last().len() implies (
        #[trigger] entries.drop_last()[j]).0@ != entries.drop_last()[at].0@ by {
            assert(entries[j].0@ != entries[at].0@);
        }
        lemma_pairs_map_last(entries.drop_last(), at);
    }
}

/// No two pairs of the list have the same digest.
pub open spec fn distinct_keys(entries: Seq<(H256, Vec<u8>)>) -> bool {
    forall|i: int, j: int|
        0 <= i < j < entries.len() ==> (#[trigger] entries[i]).0@ != (#[trigger] entries[j]).0@
}

/// The map of a list without a repeated digest has as many entries as the
/// list has pairs.
pub proof fn lemma_pairs_map_len(entries: Seq<(H256, Vec<u8>)>)
    requires
        distinct_keys(entries),
    ensures
        pairs_map(entries).dom().finite(),
        pairs_map(entries).dom().len() == entries.len(),
    decreases entries.len(),
{
    if entries.len() > 0 {
        let before = entries.drop_last();
        assert forall|i: int, j: int| 0 <= i < j < before.len() implies (#[trigger] before[i]).0@ != (
        #[trigger] before[j]).0@ by {
            assert(entries[i].0@ != entries[j].0@);
        }
        lemma_pairs_map_len(before);
        lemma_pairs_map_domain(before, entries.last().0@);
        if pairs_map(before).contains_key(entries.last().0@) {
            let i = choose|i: int| 0 <= i < before.len() && (#[trigger] before[i]).0@ == entries.last().0@;
            assert(entries[i].0@ != entries[entries.len() - 1].0@);
        }
        assert(pairs_map(entries).dom() =~= pairs_map(before).dom().insert(entries.last().0@));
    } else {
        assert(pairs_map(entries).dom() =~= Set::<Seq<u8>>::empty());
    }
}

/// A store in memory.
#[derive(Debug)]
pub struct MemoryDB {
    // Whether a removal takes the blob out of the store.
    light: bool,
    storage: Vec<(H256, Vec<u8>)>,
}

impl MemoryDB {
    /// No digest stands twice in the store.
    #[verifier::type_invariant]
    closed spec fn no_digest_twice(&self) -> bool {
        distinct_keys(self.storage@)
    }

    /// An empty store. A light one forgets what is removed; the other keeps
    /// everything.
    pub fn new(light: bool) -> (r: MemoryDB)
        ensures
            r.blobs() == Map::<Seq<u8>, Seq<u8>>::empty(),
            r.light() == light,
    {
        MemoryDB { light, storage: Vec::new() }
    }

    /// The pairs of the store but those with this digest.
    fn without_key(&self, key: &H256) -> (kept: Vec<(H256, Vec<u8>)>)
        ensures
            pairs_map(kept@) == pairs_map(self.storage@).remove(key@),
            distinct_keys(kept@),
    {
        let mut kept: Vec<(H256, Vec<u8>)> = Vec::new();
        let mut i: usize = 0;
        proof {
            use_type_invariant(self);
        }
        assert(self.storage@.take(0) =~= Seq::empty());
        assert(pairs_map(kept@) =~= pairs_map(self.storage@.take(0)).remove(key@));
        while i < self.storage.len()
            invariant
                i <= self.storage@.len(),
                distinct_keys(self.storage@),
                distinct_keys(kept@),
                forall|t: int|
                    0 <= t < kept@.len() ==> exists|u: int|
                        0 <= u < i && self.storage@[u].0@ == (#[trigger] kept@[t]).0@,
                pairs_map(kept@) == pairs_map(self.storage@.take(i as int)).remove(key@),
            decreases self.storage@.len() - i,
        {
            let ghost before = kept@;
            let ghost prefix = self.storage@.take(i as int);
            let ghost next = self.storage@.take(i + 1);
            assert(next.drop_last() =~= prefix);
            if !self.storage[i].0.equals(key) {
                let k = self.storage[i].0;
                let v = copy_bytes(&self.storage[i].1);
                kept.push((k, v));
                assert(kept@.drop_last() =~= before);
                assert forall|a: int, b: int| 0 <= a < b < kept@.len() implies (
                #[trigger] kept@[a]).0@ != (#[trigger] kept@[b]).0@ by {
                    if b == kept@.len() - 1 {
                        let u = choose|u: int|
                            0 <= u < i && self.storage@[u].0@ == before[a].0@;
                        assert(self.storage@[u].0@ != self.storage@[i as int].0@);
                    } else {
                        assert(before[a].0@ != before[b].0@);
                    }
                }
                assert forall|t: int| 0 <= t < kept@.len() implies exists|u: int|
                    0 <= u < i + 1 && self.storage@[u].0@ == (#[trigger] kept@[t]).0@ by {
                    if t < before.len() {
                        let u = choose|u: int| 0 <= u < i && self.storage@[u].0@ == before[t].0@;
                        assert(self.storage@[u].0@ == kept@[t].0@);
                    } else {
                        assert(self.storage@[i as int].0@ == kept@[t].0@);
                    }
                }
                assert(pairs_map(kept@) =~= pairs_map(next).remove(key@));
            } else {
                assert(pairs_map(kept@) =~= pairs_map(next).remove(key@));
            }
            i += 1;
        }
        assert(self.storage@.take(self.storage@.len() as int) =~= self.storage@);
        kept
    }

    /// The number of blobs in the store.
    pub fn len(&self) -> (r: usize)
        ensures
            self.blobs().dom().finite(),
            r == self.blobs().dom().len(),
    {
        proof {
            use_type_invariant(self);
            lemma_pairs_map_len(self.storage@);
        }
        self.storage.len()
    }

    /// Whether the store holds nothing.
    pub fn is_empty(&self) -> (r: bool)
        ensures
            r == (self.blobs() == Map::<Seq<u8>, Seq<u8>>::empty()),
    {
        proof {
            if self.storage@.len() > 0 {
                lemma_pairs_map_last(self.storage@, self.storage@.len() - 1);
                assert(self.blobs().contains_key(self.storage@.last().0@));
            } else {
                assert(self.blobs() =~= Map::<Seq<u8>, Seq<u8>>::empty());
            }
        }
        self.storage.len() == 0
    }
}

impl Default for MemoryDB {
    /// An empty store that keeps everything.
    fn default() -> (r: MemoryDB)
        ensures
            r.blobs() == Map::<Seq<u8>, Seq<u8>>::empty(),
            r.light() == false,
    {
        MemoryDB { light: false, storage: Vec::new() }
    }
}

impl HashDB for MemoryDB {
    closed spec fn blobs(&self) -> Map<Seq<u8>, Seq<u8>> {
        pairs_map(self.storage@)
    }

    closed spec fn light(&self) -> bool {
        self.light
    }

    fn get(&self, key: &H256) -> (r: Option<Vec<u8>>) {
        let mut i: usize = self.storage.len();
        while i > 0
            invariant
                i <= self.storage@.len(),
                forall|j: int| i <= j < self.storage@.len() ==> (#[trigger] self.storage@[j]).0@ != key@,
            decreases i,
        {
            i -= 1;
            if self.storage[i].0.equals(key) {
                proof {
                    lemma_pairs_map_last(self.storage@, i as int);
                }
                return Some(copy_bytes(&self.storage[i].1));
            }
        }
        proof {
            lemma_pairs_map_domain(self.storage@, key@);
        }
        None
    }

    fn contains(&self, key: &H256) -> (r: bool) {
        self.get(key).is_some()
    }

    fn insert(&mut self, key: H256, value: Vec<u8>) {
        let mut kept = self.without_key(&key);
        let ghost before = kept@;
        proof {
            lemma_pairs_map_domain(before, key@);
            assert forall|a: int, b: int| 0 <= a < b < before.push((key, value)).len() implies (
            #[trigger] before.push((key, value))[a]).0@ != (#[trigger] before.push(
                (key, value),
            )[b]).0@ by {
                if b == before.len() {
                    if before[a].0@ == key@ {
                        assert(pairs_map(before).contains_key(key@));
                    }
                } else {
                    assert(before[a].0@ != before[b].0@);
                }
            }
        }
        kept.push((key, value));
        assert(kept@.drop_last() =~= before);
        assert(pairs_map(kept@) =~= old(self).blobs().insert(key@, value@));
        self.storage = kept;
    }

    fn remove(&mut self, key: &H256) {
        if self.light {
            let kept = self.without_key(key);
            assert(pairs_map(kept@) =~= old(self).blobs().remove_keys(set![key@]));
            self.storage = kept;
        }
    }

    fn flush(&mut self) {
    }
}

} // verus!
