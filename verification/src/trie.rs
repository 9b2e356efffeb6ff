//! The trie: a root node over a blob store, with what a commit needs to know
//! of the changes made since the last one.
use crate::cache::no_blobs;
use crate::cache::no_keys;
use crate::cache::BlobCache;
use crate::cache::KeySet;
use crate::db::key_set;
use crate::db::without;
use crate::db::HashDB;
use crate::db::MemoryDB;
use crate::delete::delete_at;
use crate::delete::delete_spec;
use crate::delete::Removed;
use crate::encoding::decode_node;
use crate::encoding::decode_spec;
use crate::encoding::encode_node;
use crate::encoding::encode_raw;
use crate::encoding::null_blob;
use crate::encoding::pending;
use crate::encoding::pending_node;
use crate::encoding::raw_of;
use crate::encoding::Pending;
use crate::errors::ErrorKind;
use crate::errors::TrieError;
use crate::hasher::keccak256;
use crate::hasher::keccak256_of;
use crate::hasher::H256;
use crate::hasher::HASH_LEN;
use crate::insert::insert_at;
use crate::insert::insert_spec;
use crate::insert::Inserted;
use crate::iter::start_walk;
use crate::iter::TrieIterator;
use crate::lookup::get_at;
use crate::lookup::get_path_at;
use crate::lookup::get_spec;
use crate::lookup::path_spec;
use crate::lookup::recover_from_db;
use crate::lookup::recover_spec;
use crate::lookup::value_result;
use crate::nibbles::path_of;
use crate::nibbles::Nibbles;
use crate::node::models;
use crate::node::value_model;
use crate::node::Node;
use crate::node::NodeModel;
use crate::node::RawNodeOrHash;
use crate::shape::lemma_delete_no_reference;
use crate::shape::lemma_insert_no_reference;
use vstd::prelude::*;

verus! {

pub type TrieResult<T> = Result<T, TrieError>;

/// A Merkle Patricia trie over a blob store.
pub struct PatriciaTrie<'db, D: HashDB> {
    root: Node,
    root_hash: H256,
    db: &'db mut D,
    cache: BlobCache,
    passing_keys: KeySet,
    gen_keys: KeySet,
}

/// The trie, under the name that its callers know.
pub type PatriciaTrieMut<'db, D> = PatriciaTrie<'db, D>;

/// Nothing waits to be written.
pub open spec fn nothing_pending() -> Pending {
    Pending { blobs: no_blobs(), fresh: no_keys() }
}

/// What a commit leaves to write for a root: what encoding the root as a
/// child puts into the cache, and the root itself under its digest where its
/// encoding is shorter than a digest and so was not put there.
pub open spec fn commit_blobs(root: NodeModel) -> Map<Seq<u8>, Seq<u8>> {
    let waiting = pending_node(root, nothing_pending());
    if raw_of(root).len() < 32 {
        waiting.blobs.insert(keccak256_of(raw_of(root)), raw_of(root))
    } else {
        waiting.blobs
    }
}

/// What the store holds after a commit: the blobs of the commit are written,
/// then the digests that the changes passed through and the commit did not
/// make again are removed.
pub open spec fn commit_store(
    store: Map<Seq<u8>, Seq<u8>>,
    light: bool,
    root: NodeModel,
    passing: Set<Seq<u8>>,
) -> Map<Seq<u8>, Seq<u8>> {
    without(
        store.union_prefer_right(commit_blobs(root)),
        light,
        passing.difference(pending_node(root, nothing_pending()).fresh),
    )
}

/// The encoded nodes that prove what stands under a key: the root first,
/// then the stored nodes on the way, the deepest last. An empty root has no
/// encoding in the proof.
pub open spec fn proof_spec(root: NodeModel, nodes: Seq<NodeModel>) -> Seq<Seq<u8>> {
    let all = if root is Empty {
        nodes
    } else {
        nodes.push(root)
    };
    Seq::new(all.len(), |i: int| raw_of(all[all.len() - 1 - i]))
}

/// The store that the first `count` nodes of a proof make up: each node
/// stands under its digest if that is the root digest or the node has 32
/// bytes or more.
pub open spec fn proof_store(root_hash: Seq<u8>, proof: Seq<Vec<u8>>, count: nat) -> Map<
    Seq<u8>,
    Seq<u8>,
>
    decreases count,
{
    if count == 0 || count > proof.len() {
        Map::empty()
    } else {
        let before = proof_store(root_hash, proof, (count - 1) as nat);
        let node = proof[count - 1]@;
        if keccak256_of(node) == root_hash || node.len() >= 32 {
            before.insert(keccak256_of(node), node)
        } else {
            before
        }
    }
}

/// What a proof shows of a key under a root digest: the value under the key
/// in the trie that the nodes of the proof make up, or that no such trie can
/// be built or read.
pub open spec fn verify_spec(root_hash: Seq<u8>, key: Seq<u8>, proof: Seq<Vec<u8>>) -> Option<
    Option<Seq<u8>>,
> {
    let store = proof_store(root_hash, proof, proof.len());
    if !store.contains_key(root_hash) {
        None
    } else {
        match decode_spec(store[root_hash], false) {
            Err(e) => None,
            Ok(root) => match get_spec(store, root, path_of(key, true)) {
                Err(e) => None,
                Ok(v) => Some(v),
            },
        }
    }
}

impl<'db, D: HashDB> PatriciaTrie<'db, D> {
    /// The root node.
    pub closed spec fn root_model(&self) -> NodeModel {
        self.root@
    }

    /// The digest that the last commit gave, or the one the trie was opened
    /// at.
    pub closed spec fn root_digest(&self) -> Seq<u8> {
        self.root_hash@
    }

    /// What the store under the trie holds.
    pub closed spec fn store(&self) -> Map<Seq<u8>, Seq<u8>> {
        self.db.blobs()
    }

    /// Whether the store under the trie forgets what is removed.
    pub closed spec fn light(&self) -> bool {
        self.db.light()
    }

    /// The digests of the stored nodes that the changes since the last
    /// commit have read.
    pub closed spec fn passing(&self) -> Set<Seq<u8>> {
        self.passing_keys@
    }

    /// The encoded nodes that wait to be written.
    pub closed spec fn waiting(&self) -> Pending {
        pending(self.cache, self.gen_keys)
    }

    /// What holds of a trie between its operations: the root has the shape
    /// of a node and is no reference, and nothing waits to be written.
    pub open spec fn wf(&self) -> bool {
        &&& self.root_model().wf()
        &&& !(self.root_model() is Hash)
        &&& self.waiting() == nothing_pending()
    }

    /// The value under a key, or the error that reading a stored node on the
    /// way gives.
    pub open spec fn value_of(&self, key: Seq<u8>) -> Result<Option<Seq<u8>>, ErrorKind> {
        get_spec(self.store(), self.root_model(), path_of(key, true))
    }

    /// What an insertion makes of a trie: the store and the root digest stay
    /// as they are; the digests that were read are added to the others; and
    /// the root becomes what the insertion of the value gives or, for an
    /// empty value, what the removal of the key gives. An insertion that
    /// fails leaves the trie as it was.
    pub open spec fn inserted(self, after: Self, key: Seq<u8>, value: Seq<u8>, r: TrieResult<()>) -> bool {
        &&& after.wf()
        &&& after.store() == self.store()
        &&& after.light() == self.light()
        &&& after.root_digest() == self.root_digest()
        &&& value.len() > 0 ==> match r {
            Ok(_) => insert_spec(self.store(), self.root_model(), path_of(key, true), value)
                matches Ok(s) && after.root_model() == s.node && after.passing()
                == self.passing().union(s.touched),
            Err(e) => insert_spec(self.store(), self.root_model(), path_of(key, true), value)
                == Err::<Inserted, ErrorKind>(e.kind()) && after.root_model() == self.root_model()
                && after.passing() == self.passing(),
        }
        &&& value.len() == 0 ==> match r {
            Ok(_) => delete_spec(self.store(), self.root_model(), path_of(key, true))
                matches Ok(s) && after.root_model() == s.node && after.passing()
                == self.passing().union(s.touched),
            Err(e) => delete_spec(self.store(), self.root_model(), path_of(key, true)) == Err::<
                Removed,
                ErrorKind,
            >(e.kind()) && self.left_by_failure(after, key),
        }
    }

    /// What a removal that failed leaves of a trie. Where a stored node on
    /// the way to the key could not be read, the trie is as it was. Where
    /// the failure came later, while what was left was brought into shape,
    /// the trie is empty and no digest is noted as read: what was in memory
    /// of it is given up, and a commit will not touch what the store holds
    /// of it.
    pub open spec fn left_by_failure(self, after: Self, key: Seq<u8>) -> bool {
        if self.value_of(key) is Err {
            after.root_model() == self.root_model() && after.passing() == self.passing()
        } else {
            after.root_model() == NodeModel::Empty && after.passing() == no_keys()
        }
    }

    /// What a removal makes of a trie: the store and the root digest stay as
    /// they are; the digests that were read are added to the others; the
    /// root becomes what the removal of the key gives; and the answer says
    /// whether anything was removed.
    pub open spec fn removed(self, after: Self, key: Seq<u8>, r: TrieResult<bool>) -> bool {
        &&& after.wf()
        &&& after.store() == self.store()
        &&& after.light() == self.light()
        &&& after.root_digest() == self.root_digest()
        &&& match r {
            Ok(removed) => delete_spec(self.store(), self.root_model(), path_of(key, true))
                matches Ok(s) && after.root_model() == s.node && removed == s.deleted
                && after.passing() == self.passing().union(s.touched),
            Err(e) => delete_spec(self.store(), self.root_model(), path_of(key, true)) == Err::<
                Removed,
                ErrorKind,
            >(e.kind()) && self.left_by_failure(after, key),
        }
    }

    /// What a commit makes of a trie: the store holds what the commit wrote
    /// and has been asked to forget what the changes superseded; the root
    /// digest is the digest of the encoded root; no digest is noted as read
    /// any more; and the root is what the store gives back under the root
    /// digest or, where that cannot be read, the root as it was.
    pub open spec fn committed(self, after: Self, r: TrieResult<H256>) -> bool {
        &&& after.wf()
        &&& after.store() == commit_store(
            self.store(),
            self.light(),
            self.root_model(),
            self.passing(),
        )
        &&& after.light() == self.light()
        &&& after.passing() == no_keys()
        &&& after.root_digest() == keccak256_of(raw_of(self.root_model()))
        &&& match r {
            Ok(h) => h@ == after.root_digest() && recover_spec(after.store(), h@) == Ok::<
                NodeModel,
                ErrorKind,
            >(after.root_model()),
            Err(e) => recover_spec(after.store(), after.root_digest()) == Err::<
                NodeModel,
                ErrorKind,
            >(e.kind()) && after.root_model() == self.root_model(),
        }
    }

    /// An empty trie over `db`.
    pub fn new(db: &'db mut D) -> (r: Self)
        ensures
            r.wf(),
            r.root_model() == NodeModel::Empty,
            r.root_digest() == keccak256_of(null_blob()),
            r.store() == old(db).blobs(),
            r.light() == old(db).light(),
            r.passing() == no_keys(),
    {
        let null = crate::codec::null_rlp();
        Self {
            root: Node::Empty,
            root_hash: keccak256(null.as_slice()),
            cache: BlobCache::new(),
            passing_keys: KeySet::new(),
            gen_keys: KeySet::new(),
            db,
        }
    }

    /// The trie whose root is stored in `db` under the digest `root`. It is
    /// an error if nothing is stored there, or if what is stored is no node.
    pub fn from(db: &'db mut D, root: H256) -> (r: TrieResult<Self>)
        ensures
            match r {
                Ok(t) => old(db).blobs().contains_key(root@) && decode_spec(
                    old(db).blobs()[root@],
                    false,
                ) == Ok::<NodeModel, ErrorKind>(t.root_model()) && t.wf() && t.root_digest()
                    == root@ && t.store() == old(db).blobs() && t.light() == old(db).light()
                    && t.passing() == no_keys(),
                Err(e) => if old(db).blobs().contains_key(root@) {
                    decode_spec(old(db).blobs()[root@], false) == Err::<NodeModel, ErrorKind>(
                        e.kind(),
                    )
                } else {
                    e is InvalidStateRoot
                },
            },
    {
        match db.get(&root) {
            Some(data) => {
                match decode_node(data.as_slice(), false) {
                    Ok(node) => Ok(
                        Self {
                            root: node,
                            root_hash: root,
                            cache: BlobCache::new(),
                            passing_keys: KeySet::new(),
                            gen_keys: KeySet::new(),
                            db,
                        },
                    ),
                    Err(e) => Err(e),
                }
            },
            None => Err(TrieError::InvalidStateRoot),
        }
    }

    /// Reads the node stored under a digest in the store under the trie, and
    /// tells a digest under which nothing is stored from one that stands for
    /// a node.
    pub fn read_stored(&self, key: &H256) -> (r: TrieResult<Option<Node>>)
        ensures
            match r {
                Ok(Some(n)) => self.store().contains_key(key@) && decode_spec(
                    self.store()[key@],
                    false,
                ) == Ok::<NodeModel, ErrorKind>(n@) && n@.wf() && !(n@ is Hash),
                Ok(None) => !self.store().contains_key(key@),
                Err(e) => self.store().contains_key(key@) && decode_spec(self.store()[key@], false)
                    == Err::<NodeModel, ErrorKind>(e.kind()),
            },
    {
        match self.db.get(key) {
            Some(data) => match decode_node(data.as_slice(), false) {
                Ok(n) => Ok(Some(n)),
                Err(e) => Err(e),
            },
            None => Ok(None),
        }
    }

    /// A walk over the keys and values of the trie, in the order of the
    /// paths.
    pub fn iter(&self) -> (r: TrieIterator<'_, 'db, D>)
        requires
            self.wf(),
        ensures
            r.wf(),
            r.store() == self.store(),
            r.walk() == start_walk(self.root_model()),
    {
        TrieIterator::new(self, self.root.duplicate())
    }

    /// Returns the value for key stored in the trie.
    pub fn get(&self, key: &[u8]) -> (r: TrieResult<Option<Vec<u8>>>)
        requires
            self.wf(),
        ensures
            value_result(r, self.value_of(key@)),
    {
        get_at(&*self.db, &self.root, &Nibbles::from_raw(key, true))
    }

    /// Checks that the key is present in the trie
    pub fn contains(&self, key: &[u8]) -> (r: TrieResult<bool>)
        requires
            self.wf(),
        ensures
            match r {
                Ok(b) => self.value_of(key@) matches Ok(v) && b == v is Some,
                Err(e) => self.value_of(key@) == Err::<Option<Seq<u8>>, ErrorKind>(e.kind()),
            },
    {
        match get_at(&*self.db, &self.root, &Nibbles::from_raw(key, true)) {
            Ok(v) => Ok(v.is_some()),
            Err(e) => Err(e),
        }
    }

    /// Inserts value into trie and modifies it if it exists. An empty value
    /// removes the key.
    pub fn insert(&mut self, key: &[u8], value: Vec<u8>) -> (r: TrieResult<()>)
        requires
            old(self).wf(),
        ensures
            old(self).inserted(*final(self), key@, value@, r),
    {
        if value.len() == 0 {
            return match self.remove(key) {
                Ok(_) => Ok(()),
                Err(e) => Err(e),
            };
        }
        let mut root = Node::Empty;
        core::mem::swap(&mut self.root, &mut root);
        let mut touched = KeySet::new();
        match insert_at(&*self.db, &mut touched, root, Nibbles::from_raw(key, true), value) {
            Ok(n) => {
                proof {
                    lemma_insert_no_reference(
                        old(self).store(),
                        old(self).root_model(),
                        path_of(key@, true),
                        value@,
                    );
                    assert(no_keys().union(touched@) =~= touched@);
                    let s = insert_spec(
                        old(self).store(),
                        old(self).root_model(),
                        path_of(key@, true),
                        value@,
                    )->Ok_0;
                    assert(no_keys().union(s.touched) =~= s.touched);
                }
                self.root = n;
                self.passing_keys.absorb(&touched);
                Ok(())
            },
            Err(f) => {
                self.root = f.node;
                Err(f.error)
            },
        }
    }

    /// Removes any existing value for key from the trie.
    pub fn remove(&mut self, key: &[u8]) -> (r: TrieResult<bool>)
        requires
            old(self).wf(),
        ensures
            old(self).removed(*final(self), key@, r),
    {
        let mut root = Node::Empty;
        core::mem::swap(&mut self.root, &mut root);
        let mut touched = KeySet::new();
        match delete_at(&*self.db, &mut touched, root, &Nibbles::from_raw(key, true)) {
            Ok((n, removed)) => {
                proof {
                    lemma_delete_no_reference(
                        old(self).store(),
                        old(self).root_model(),
                        path_of(key@, true),
                    );
                    let s = delete_spec(
                        old(self).store(),
                        old(self).root_model(),
                        path_of(key@, true),
                    )->Ok_0;
                    assert(no_keys().union(s.touched) =~= s.touched);
                }
                self.root = n;
                self.passing_keys.absorb(&touched);
                Ok(removed)
            },
            Err(f) => {
                if f.intact {
                    self.root = f.node;
                } else {
                    self.passing_keys.clear();
                }
                Err(f.error)
            },
        }
    }

    /// Saves all the nodes in the db, clears the cache data, recalculates the root.
    /// Returns the root hash of the trie.
    ///
    /// The encoded root and every node below it that is too long to stand in
    /// its parent are written to the store under their digests. Then the
    /// store is asked to remove the digests that the changes since the last
    /// commit have read and that this commit has not made again. At last the
    /// root is read back from the store, so that the trie holds no more of
    /// itself in memory than its root.
    pub fn root(&mut self) -> (r: TrieResult<H256>)
        requires
            old(self).wf(),
        ensures
            old(self).committed(*final(self), r),
    {
        let ghost store0 = self.db.blobs();
        let ghost root0 = self.root@;
        let ghost passing0 = self.passing_keys@;
        let encoded = encode_node(&self.root, &mut self.cache, &mut self.gen_keys);
        let root_hash = match encoded {
            RawNodeOrHash::Node(raw) => {
                let hash = keccak256(raw.as_slice());
                self.cache.insert(hash, raw);
                hash
            },
            RawNodeOrHash::Hash(hash) => hash,
        };
        let ghost blobs = self.cache@;
        let ghost fresh = self.gen_keys@;
        assert(blobs == commit_blobs(root0));
        assert(fresh == pending_node(root0, nothing_pending()).fresh);

        let drained = self.cache.drain();
        let mut i: usize = 0;
        assert(store0.union_prefer_right(blobs.restrict(pair_keys(drained@, 0))) =~= store0);
        while i < drained.len()
            invariant
                i <= drained@.len(),
                self.db.blobs() == store0.union_prefer_right(
                    blobs.restrict(pair_keys(drained@, i as nat)),
                ),
                self.db.light() == old(self).db.light(),
                forall|j: int|
                    0 <= j < drained@.len() ==> blobs.contains_key(#[trigger] drained@[j].0@)
                        && blobs[drained@[j].0@] == drained@[j].1@,
                self.root == old(self).root,
                self.passing_keys == old(self).passing_keys,
                self.gen_keys@ == fresh,
                self.cache@ == no_blobs(),
            decreases drained@.len() - i,
        {
            let k = drained[i].0;
            let v = crate::node::copy_bytes(&drained[i].1);
            self.db.insert(k, v);
            proof {
                let next = pair_keys(drained@, (i + 1) as nat);
                let prev = pair_keys(drained@, i as nat);
                assert(next =~= prev.insert(k@)) by {
                    assert forall|x: Seq<u8>| next.contains(x) <==> prev.insert(k@).contains(
                        x,
                    ) by {
                        if next.contains(x) {
                            let j = choose|j: int|
                                0 <= j < i + 1 && j < drained@.len() && #[trigger] drained@[j].0@
                                    == x;
                            if j < i {
                                assert(drained@[j].0@ == x);
                            }
                        }
                        if prev.contains(x) {
                            let j = choose|j: int|
                                0 <= j < i && j < drained@.len() && #[trigger] drained@[j].0@ == x;
                            assert(drained@[j].0@ == x);
                        }
                        if x == k@ {
                            assert(drained@[i as int].0@ == x);
                        }
                    }
                }
                assert(self.db.blobs() =~= store0.union_prefer_right(blobs.restrict(next)));
            }
            i += 1;
        }
        proof {
            let all = pair_keys(drained@, drained@.len());
            assert(blobs.restrict(all) =~= blobs) by {
                assert forall|x: Seq<u8>| blobs.contains_key(x) implies all.contains(x) by {
                    let j = choose|j: int| 0 <= j < drained@.len() && #[trigger] drained@[j].0@ == x;
                    assert(drained@[j].0@ == x);
                }
            }
        }

        let passing = self.passing_keys.to_vec();
        let mut removed_keys: Vec<H256> = Vec::new();
        let mut j: usize = 0;
        while j < passing.len()
            invariant
                j <= passing@.len(),
                forall|t: int|
                    0 <= t < removed_keys@.len() ==> passing0.contains(#[trigger] removed_keys@[t]@)
                        && !fresh.contains(removed_keys@[t]@),
                forall|t: int|
                    0 <= t < j && !fresh.contains(passing@[t]@) ==> exists|u: int|
                        0 <= u < removed_keys@.len() && #[trigger] removed_keys@[u]@
                            == passing@[t]@,
                forall|t: int| 0 <= t < passing@.len() ==> passing0.contains(#[trigger] passing@[t]@),
                self.gen_keys@ == fresh,
                self.passing_keys@ == passing0,
            decreases passing@.len() - j,
        {
            if !self.gen_keys.contains(&passing[j]) {
                let ghost before = removed_keys@;
                removed_keys.push(passing[j]);
                assert(removed_keys@[before.len() as int]@ == passing@[j as int]@);
                assert forall|t: int|
                    0 <= t < j + 1 && !fresh.contains(passing@[t]@) implies exists|u: int|
                    0 <= u < removed_keys@.len() && #[trigger] removed_keys@[u]@
                        == passing@[t]@ by {
                    if t < j {
                        let u = choose|u: int|
                            0 <= u < before.len() && #[trigger] before[u]@ == passing@[t]@;
                        assert(removed_keys@[u]@ == passing@[t]@);
                    }
                }
            }
            j += 1;
        }
        proof {
            let gone = key_set(removed_keys@, removed_keys@.len());
            assert(gone =~= passing0.difference(fresh)) by {
                assert forall|x: Seq<u8>| gone.contains(x) <==> passing0.difference(
                    fresh,
                ).contains(x) by {
                    if gone.contains(x) {
                        let u = choose|u: int|
                            0 <= u < removed_keys@.len() && u < removed_keys@.len()
                                && #[trigger] removed_keys@[u]@ == x;
                        assert(passing0.contains(removed_keys@[u]@));
                    }
                    if passing0.contains(x) && !fresh.contains(x) {
                        let t = choose|t: int| 0 <= t < passing@.len() && #[trigger] passing@[t]@ == x;
                        let u = choose|u: int|
                            0 <= u < removed_keys@.len() && #[trigger] removed_keys@[u]@
                                == passing@[t]@;
                        assert(removed_keys@[u]@ == x);
                    }
                }
            }
        }
        self.db.remove_batch(removed_keys.as_slice());

        self.root_hash = root_hash;
        self.gen_keys.clear();
        self.passing_keys.clear();
        match recover_from_db(&*self.db, &root_hash) {
            Ok(n) => {
                self.root = n;
                Ok(root_hash)
            },
            Err(e) => Err(e),
        }
    }

    /// Prove constructs a merkle proof for key. The result contains all encoded nodes
    /// on the path to the value at key. The value itself is also included in the last
    /// node and can be retrieved by verifying the proof.
    ///
    /// If the trie does not contain a value for key, the returned proof contains all
    /// nodes of the longest existing prefix of the key (at least the root node), ending
    /// with the node that proves the absence of the key.
    pub fn get_proof(&self, key: &[u8]) -> (r: TrieResult<Vec<Vec<u8>>>)
        requires
            self.wf(),
        ensures
            match r {
                Ok(proof) => path_spec(self.store(), self.root_model(), path_of(key@, true))
                    matches Ok(nodes) && byte_strings(proof@) == proof_spec(
                    self.root_model(),
                    nodes,
                ),
                Err(e) => path_spec(self.store(), self.root_model(), path_of(key@, true)) == Err::<
                    Seq<NodeModel>,
                    ErrorKind,
                >(e.kind()),
            },
    {
        let path = match get_path_at(&*self.db, &self.root, &Nibbles::from_raw(key, true)) {
            Ok(p) => p,
            Err(e) => {
                return Err(e);
            },
        };
        let ghost nodes = models(path@);
        let ghost expected = proof_spec(self.root@, nodes);
        let mut scratch_cache = BlobCache::new();
        let mut scratch_keys = KeySet::new();
        let mut out: Vec<Vec<u8>> = Vec::new();
        match &self.root {
            Node::Empty => {},
            node => {
                let raw = encode_raw(node, &mut scratch_cache, &mut scratch_keys);
                out.push(raw);
            },
        }
        let ghost base = out@.len();
        let mut i: usize = path.len();
        while i > 0
            invariant
                i <= path@.len(),
                nodes == models(path@),
                expected == proof_spec(self.root@, nodes),
                base == (if self.root@ is Empty {
                    0nat
                } else {
                    1nat
                }),
                out@.len() == base + (path@.len() - i),
                forall|t: int| 0 <= t < out@.len() ==> (#[trigger] out@[t])@ == expected[t],
                forall|t: int|
                    0 <= t < path@.len() ==> (#[trigger] path@[t])@.wf() && !(path@[t]@ is Hash),
            decreases i,
        {
            i -= 1;
            let raw = encode_raw(&path[i], &mut scratch_cache, &mut scratch_keys);
            out.push(raw);
        }
        assert(byte_strings(out@) =~= expected);
        Ok(out)
    }

    /// return value if key exists, None if key not exist, Error if proof is wrong
    pub fn verify_proof(&self, root_hash: H256, key: &[u8], proof: Vec<Vec<u8>>) -> (r: TrieResult<
        Option<Vec<u8>>,
    >)
        ensures
            match r {
                Ok(v) => verify_spec(root_hash@, key@, proof@) == Some(value_model(v)),
                Err(e) => e is InvalidProof && verify_spec(root_hash@, key@, proof@) is None,
            },
    {
        let mut memdb = MemoryDB::new(true);
        let mut i: usize = 0;
        while i < proof.len()
            invariant
                i <= proof@.len(),
                memdb.blobs() == proof_store(root_hash@, proof@, i as nat),
            decreases proof@.len() - i,
        {
            let hash = keccak256(proof[i].as_slice());
            if root_hash.equals(&hash) || proof[i].len() >= HASH_LEN {
                memdb.insert(hash, crate::node::copy_bytes(&proof[i]));
            }
            i += 1;
        }
        let trie = match PatriciaTrie::from(&mut memdb, root_hash) {
            Ok(t) => t,
            Err(_) => {
                return Err(TrieError::InvalidProof);
            },
        };
        match trie.get(key) {
            Ok(v) => Ok(v),
            Err(_) => Err(TrieError::InvalidProof),
        }
    }
}

/// The digests among the first `count` pairs.
pub open spec fn pair_keys(pairs: Seq<(H256, Vec<u8>)>, count: nat) -> Set<Seq<u8>> {
    Set::new(
        |k: Seq<u8>| exists|j: int| 0 <= j < count && j < pairs.len() && #[trigger] pairs[j].0@ == k,
    )
}

/// The byte strings that a list holds.
pub open spec fn byte_strings(list: Seq<Vec<u8>>) -> Seq<Seq<u8>> {
    Seq::new(list.len(), |i: int| list[i]@)
}

} // verus!
