//! Tries whose keys are digests: one that takes the key as it is, and one
//! that takes the digest of the key.
use crate::db::HashDB;
use crate::errors::ErrorKind;
use crate::hasher::keccak256;
use crate::hasher::keccak256_of;
use crate::hasher::H256;
use crate::iter::run_spec;
use crate::iter::start_walk;
use crate::iter::Outcome;
use crate::iter::TrieIterator;
use crate::lookup::path_spec;
use crate::lookup::value_result;
use crate::nibbles::path_of;
use crate::node::value_model;
use crate::node::NodeModel;
use crate::trie::byte_strings;
use crate::trie::proof_spec;
use crate::trie::verify_spec;
use crate::trie::PatriciaTrie;
use crate::trie::TrieResult;
use vstd::prelude::*;

verus! {

/// A trie whose keys are digests of 32 bytes.
pub struct TrieDB<'db, D: HashDB> {
    trie: PatriciaTrie<'db, D>,
}

/// A trie that keeps each value under the digest of its key.
pub struct SecTrieDB<'db, D: HashDB> {
    trie: TrieDB<'db, D>,
}

/// A walk over the keys and values of a trie whose keys are digests.
pub struct TrieDBIterator<'a, 'db, D: HashDB> {
    inner: TrieIterator<'a, 'db, D>,
}

impl<'a, 'db, D: HashDB> TrieDBIterator<'a, 'db, D> {
    /// The walk over the trie below.
    pub closed spec fn engine(&self) -> TrieIterator<'a, 'db, D> {
        self.inner
    }

    /// The next key of the trie with its value. The walk ends, for this
    /// call, where the walk below ends and where it gives a key that has not
    /// 32 bytes.
    pub fn next(&mut self) -> (r: Option<(H256, Vec<u8>)>)
        requires
            old(self).engine().wf(),
        ensures
            final(self).engine().wf(),
            final(self).engine().store() == old(self).engine().store(),
            exists|count: nat|
                count >= 1 && (#[trigger] run_spec(
                    old(self).engine().store(),
                    old(self).engine().walk(),
                    count,
                )).walk == final(self).engine().walk() && match r {
                    Some(pair) => run_spec(
                        old(self).engine().store(),
                        old(self).engine().walk(),
                        count,
                    ).outcome == Outcome::Yield(pair.0@, pair.1@),
                    None => match run_spec(
                        old(self).engine().store(),
                        old(self).engine().walk(),
                        count,
                    ).outcome {
                        Outcome::Yield(key, value) => key.len() != 32,
                        Outcome::Stop => true,
                        Outcome::Continue => false,
                    },
                },
    {
        match self.inner.next() {
            Some((key, value)) => {
                if key.len() == 32 {
                    Some((H256::from_slice(key.as_slice()), value))
                } else {
                    None
                }
            },
            None => None,
        }
    }
}

impl<'db, D: HashDB> TrieDB<'db, D> {
    /// The trie below.
    pub closed spec fn engine(&self) -> PatriciaTrie<'db, D> {
        self.trie
    }

    /// A walk over the keys and values of the trie.
    pub fn iter(&self) -> (r: TrieDBIterator<'_, 'db, D>)
        requires
            self.engine().wf(),
        ensures
            r.engine().wf(),
            r.engine().store() == self.engine().store(),
            r.engine().walk() == start_walk(self.engine().root_model()),
    {
        TrieDBIterator { inner: self.trie.iter() }
    }

    /// An empty trie over `db`.
    pub fn new(db: &'db mut D) -> (r: Self)
        ensures
            r.engine().wf(),
            r.engine().root_model() == NodeModel::Empty,
            r.engine().store() == old(db).blobs(),
            r.engine().light() == old(db).light(),
    {
        Self { trie: PatriciaTrie::new(db) }
    }

    /// The trie whose root is stored in `db` under the digest `root`.
    pub fn from(db: &'db mut D, root: H256) -> (r: TrieResult<Self>)
        ensures
            match r {
                Ok(t) => old(db).blobs().contains_key(root@) && crate::encoding::decode_spec(
                    old(db).blobs()[root@],
                    false,
                ) == Ok::<NodeModel, ErrorKind>(t.engine().root_model()) && t.engine().wf()
                    && t.engine().root_digest() == root@ && t.engine().store() == old(db).blobs()
                    && t.engine().light() == old(db).light(),
                Err(e) => if old(db).blobs().contains_key(root@) {
                    crate::encoding::decode_spec(old(db).blobs()[root@], false) == Err::<
                        NodeModel,
                        ErrorKind,
                    >(e.kind())
                } else {
                    e is InvalidStateRoot
                },
            },
    {
        match PatriciaTrie::from(db, root) {
            Ok(trie) => Ok(Self { trie }),
            Err(e) => Err(e),
        }
    }

    /// Returns the value for key stored in the trie.
    pub fn get(&self, key: &H256) -> (r: TrieResult<Option<Vec<u8>>>)
        requires
            self.engine().wf(),
        ensures
            value_result(r, self.engine().value_of(key@)),
    {
        self.trie.get(key.as_bytes())
    }

    /// Checks that the key is present in the trie
    pub fn contains(&self, key: &H256) -> (r: TrieResult<bool>)
        requires
            self.engine().wf(),
        ensures
            match r {
                Ok(b) => self.engine().value_of(key@) matches Ok(v) && b == v is Some,
                Err(e) => self.engine().value_of(key@) == Err::<Option<Seq<u8>>, ErrorKind>(
                    e.kind(),
                ),
            },
    {
        self.trie.contains(key.as_bytes())
    }

    /// Inserts value into trie and modifies it if it exists
    pub fn insert(&mut self, key: &H256, value: Vec<u8>) -> (r: TrieResult<()>)
        requires
            old(self).engine().wf(),
        ensures
            old(self).engine().inserted(final(self).engine(), key@, value@, r),
    {
        self.trie.insert(key.as_bytes(), value)
    }

    /// Removes any existing value for key from the trie.
    pub fn remove(&mut self, key: &H256) -> (r: TrieResult<bool>)
        requires
            old(self).engine().wf(),
        ensures
            old(self).engine().removed(final(self).engine(), key@, r),
    {
        self.trie.remove(key.as_bytes())
    }

    /// Saves all the nodes in the db, clears the cache data, recalculates the root.
    /// Returns the root hash of the trie.
    pub fn root(&mut self) -> (r: TrieResult<H256>)
        requires
            old(self).engine().wf(),
        ensures
            old(self).engine().committed(final(self).engine(), r),
    {
        self.trie.root()
    }

    /// Prove constructs a merkle proof for key. The result contains all encoded nodes
    /// on the path to the value at key. The value itself is also included in the last
    /// node and can be retrieved by verifying the proof.
    ///
    /// If the trie does not contain a value for key, the returned proof contains all
    /// nodes of the longest existing prefix of the key (at least the root node), ending
    /// with the node that proves the absence of the key.
    pub fn get_proof(&self, key: &H256) -> (r: TrieResult<Vec<Vec<u8>>>)
        requires
            self.engine().wf(),
        ensures
            match r {
                Ok(proof) => path_spec(
                    self.engine().store(),
                    self.engine().root_model(),
                    path_of(key@, true),
                ) matches Ok(nodes) && byte_strings(proof@) == proof_spec(
                    self.engine().root_model(),
                    nodes,
                ),
                Err(e) => path_spec(
                    self.engine().store(),
                    self.engine().root_model(),
                    path_of(key@, true),
                ) == Err::<Seq<NodeModel>, ErrorKind>(e.kind()),
            },
    {
        self.trie.get_proof(key.as_bytes())
    }

    /// return value if key exists, None if key not exist, Error if proof is wrong
    pub fn verify_proof(&self, root_hash: H256, key: &H256, proof: Vec<Vec<u8>>) -> (r: TrieResult<
        Option<Vec<u8>>,
    >)
        ensures
            match r {
                Ok(v) => verify_spec(root_hash@, key@, proof@) == Some(value_model(v)),
                Err(e) => e is InvalidProof && verify_spec(root_hash@, key@, proof@) is None,
            },
    {
        self.trie.verify_proof(root_hash, key.as_bytes(), proof)
    }
}

impl<'db, D: HashDB> SecTrieDB<'db, D> {
    /// The trie below.
    pub closed spec fn engine(&self) -> PatriciaTrie<'db, D> {
        self.trie.engine()
    }

    /// The trie of digests below.
    pub closed spec fn plain(&self) -> TrieDB<'db, D> {
        self.trie
    }

    /// The two views of the trie below are views of one trie.
    pub proof fn lemma_plain(&self)
        ensures
            self.plain().engine() == self.engine(),
    {
    }

    /// An empty trie over `db`.
    pub fn new(db: &'db mut D) -> (r: Self)
        ensures
            r.engine().wf(),
            r.engine().root_model() == NodeModel::Empty,
            r.engine().store() == old(db).blobs(),
            r.engine().light() == old(db).light(),
    {
        Self { trie: TrieDB::new(db) }
    }

    /// The trie whose root is stored in `db` under the digest `root`.
    pub fn from(db: &'db mut D, root: H256) -> (r: TrieResult<Self>)
        ensures
            match r {
                Ok(t) => old(db).blobs().contains_key(root@) && crate::encoding::decode_spec(
                    old(db).blobs()[root@],
                    false,
                ) == Ok::<NodeModel, ErrorKind>(t.engine().root_model()) && t.engine().wf()
                    && t.engine().root_digest() == root@ && t.engine().store() == old(db).blobs()
                    && t.engine().light() == old(db).light(),
                Err(e) => if old(db).blobs().contains_key(root@) {
                    crate::encoding::decode_spec(old(db).blobs()[root@], false) == Err::<
                        NodeModel,
                        ErrorKind,
                    >(e.kind())
                } else {
                    e is InvalidStateRoot
                },
            },
    {
        match TrieDB::from(db, root) {
            Ok(trie) => Ok(Self { trie }),
            Err(e) => Err(e),
        }
    }

    /// Returns the value for key stored in the trie.
    pub fn get(&self, key: &H256) -> (r: TrieResult<Option<Vec<u8>>>)
        requires
            self.engine().wf(),
        ensures
            value_result(r, self.engine().value_of(keccak256_of(key@))),
    {
        let key = keccak256(key.as_bytes());
        self.trie.get(&key)
    }

    /// Checks that the key is present in the trie
    pub fn contains(&self, key: &H256) -> (r: TrieResult<bool>)
        requires
            self.engine().wf(),
        ensures
            match r {
                Ok(b) => self.engine().value_of(keccak256_of(key@)) matches Ok(v) && b == v is Some,
                Err(e) => self.engine().value_of(keccak256_of(key@)) == Err::<
                    Option<Seq<u8>>,
                    ErrorKind,
                >(e.kind()),
            },
    {
        self.trie.contains(&keccak256(key.as_bytes()))
    }

    /// Inserts value into trie and modifies it if it exists
    pub fn insert(&mut self, key: &H256, value: Vec<u8>) -> (r: TrieResult<()>)
        requires
            old(self).engine().wf(),
        ensures
            old(self).engine().inserted(final(self).engine(), keccak256_of(key@), value@, r),
    {
        self.trie.insert(&keccak256(key.as_bytes()), value)
    }

    /// Removes any existing value for key from the trie.
    pub fn remove(&mut self, key: &H256) -> (r: TrieResult<bool>)
        requires
            old(self).engine().wf(),
        ensures
            old(self).engine().removed(final(self).engine(), keccak256_of(key@), r),
    {
        self.trie.remove(&keccak256(key.as_bytes()))
    }

    /// Saves all the nodes in the db, clears the cache data, recalculates the root.
    /// Returns the root hash of the trie.
    pub fn root(&mut self) -> (r: TrieResult<H256>)
        requires
            old(self).engine().wf(),
        ensures
            old(self).engine().committed(final(self).engine(), r),
    {
        self.trie.root()
    }

    /// The trie of digests below.
    pub fn trie(&self) -> (r: &TrieDB<'db, D>)
        ensures
            *r == self.plain(),
    {
        &self.trie
    }

    /// The trie of digests below, to be changed.
    pub fn trie_mut(&mut self) -> (r: &mut TrieDB<'db, D>)
        ensures
            *r == old(self).plain(),
            *final(r) == final(self).plain(),
    {
        &mut self.trie
    }
}

} // verus!
