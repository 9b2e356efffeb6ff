//! The hash tables that a trie fills between two commits: the encoded nodes
//! that wait to be written, and sets of digests.
use crate::hasher::H256;
use vstd::prelude::*;

verus! {

/// Encoded nodes by their digests, in a `hashbrown::HashMap`.
#[verifier::external_body]
pub struct BlobCache {
    map: hashbrown::HashMap<[u8; 32], Vec<u8>>,
}

/// A set of digests, in a `hashbrown::HashSet`.
#[verifier::external_body]
pub struct KeySet {
    set: hashbrown::HashSet<[u8; 32]>,
}

/// What a cache holds: the bytes stored under each digest.
pub uninterp spec fn cached(cache: BlobCache) -> Map<Seq<u8>, Seq<u8>>;

/// The digests that a set holds.
pub uninterp spec fn members(keys: KeySet) -> Set<Seq<u8>>;

/// No blob.
pub open spec fn no_blobs() -> Map<Seq<u8>, Seq<u8>> {
    Map::empty()
}

/// No digest.
pub open spec fn no_keys() -> Set<Seq<u8>> {
    Set::empty()
}

impl View for BlobCache {
    type V = Map<Seq<u8>, Seq<u8>>;

    open spec fn view(&self) -> Map<Seq<u8>, Seq<u8>> {
        cached(*self)
    }
}

impl View for KeySet {
    type V = Set<Seq<u8>>;

    open spec fn view(&self) -> Set<Seq<u8>> {
        members(*self)
    }
}

impl BlobCache {
    /// An empty cache: `hashbrown::HashMap::new`.
    #[verifier::external_body]
    pub(crate) fn new() -> (r: BlobCache)
        ensures
            cached(r) == no_blobs(),
    {
        BlobCache { map: hashbrown::HashMap::new() }
    }

    /// Stores `value` under `key`, in place of what was there:
    /// `hashbrown::HashMap::insert`.
    #[verifier::external_body]
    pub(crate) fn insert(&mut self, key: H256, value: Vec<u8>)
        ensures
            cached(*final(self)) == cached(*old(self)).insert(key@, value@),
    {
        self.map.insert(key.bytes, value);
    }

    /// Empties the cache and hands out what it held:
    /// `hashbrown::HashMap::drain`. Each digest of the cache comes once, with
    /// its bytes, in an order that the table chooses.
    #[verifier::external_body]
    pub(crate) fn drain(&mut self) -> (r: Vec<(H256, Vec<u8>)>)
        ensures
            cached(*final(self)) == no_blobs(),
            forall|i: int|
                0 <= i < r@.len() ==> cached(*old(self)).contains_key(#[trigger] r@[i].0@)
                    && cached(*old(self))[r@[i].0@] == r@[i].1@,
            forall|k: Seq<u8>|
                cached(*old(self)).contains_key(k) ==> exists|i: int|
                    0 <= i < r@.len() && #[trigger] r@[i].0@ == k,
            forall|i: int, j: int|
                0 <= i < j < r@.len() ==> #[trigger] r@[i].0@ != #[trigger] r@[j].0@,
    {
        self.map.drain().map(|(k, v)| (H256 { bytes: k }, v)).collect()
    }
}

impl KeySet {
    /// An empty set: `hashbrown::HashSet::new`.
    #[verifier::external_body]
    pub(crate) fn new() -> (r: KeySet)
        ensures
            members(r) == no_keys(),
    {
        KeySet { set: hashbrown::HashSet::new() }
    }

    /// Adds a digest: `hashbrown::HashSet::insert`.
    #[verifier::external_body]
    pub(crate) fn insert(&mut self, key: H256)
        ensures
            members(*final(self)) == members(*old(self)).insert(key@),
    {
        self.set.insert(key.bytes);
    }

    /// Whether the set holds the digest: `hashbrown::HashSet::contains`.
    #[verifier::external_body]
    pub(crate) fn contains(&self, key: &H256) -> (r: bool)
        ensures
            r == members(*self).contains(key@),
    {
        self.set.contains(&key.bytes)
    }

    /// The digests of the set: `hashbrown::HashSet::iter`, in an order that
    /// the table chooses.
    #[verifier::external_body]
    pub(crate) fn to_vec(&self) -> (r: Vec<H256>)
        ensures
            forall|i: int| 0 <= i < r@.len() ==> members(*self).contains(#[trigger] r@[i]@),
            forall|k: Seq<u8>|
                members(*self).contains(k) ==> exists|i: int|
                    0 <= i < r@.len() && #[trigger] r@[i]@ == k,
    {
        self.set.iter().map(|k| H256 { bytes: *k }).collect()
    }

    /// Empties the set: `hashbrown::HashSet::clear`.
    #[verifier::external_body]
    pub(crate) fn clear(&mut self)
        ensures
            members(*final(self)) == no_keys(),
    {
        self.set.clear();
    }
}

impl KeySet {
    /// Adds the digests of another set.
    pub fn absorb(&mut self, other: &KeySet)
        ensures
            final(self)@ == old(self)@.union(other@),
    {
        let keys = other.to_vec();
        let mut i: usize = 0;
        let ghost start = self@;
        while i < keys.len()
            invariant
                i <= keys@.len(),
                start.subset_of(self@),
                forall|k: Seq<u8>| self@.contains(k) ==> start.contains(k) || other@.contains(k),
                forall|t: int| 0 <= t < i ==> self@.contains(#[trigger] keys@[t]@),
                forall|t: int| 0 <= t < keys@.len() ==> other@.contains(#[trigger] keys@[t]@),
            decreases keys@.len() - i,
        {
            self.insert(keys[i]);
            i += 1;
        }
        assert(self@ =~= start.union(other@)) by {
            assert forall|k: Seq<u8>| other@.contains(k) implies self@.contains(k) by {
                let t = choose|t: int| 0 <= t < keys@.len() && #[trigger] keys@[t]@ == k;
                assert(self@.contains(keys@[t]@));
            }
        }
    }
}

} // verus!
