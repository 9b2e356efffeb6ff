//! A Merkle Patricia trie over a digest-keyed blob store.
//!
//! The trie keeps its root in memory, reads the nodes below it from the store
//! as it walks, and writes what changed when it commits.
//!
//! ```text
//! let mut memdb = MemoryDB::new(true);
//! let key = keccak256(b"test-key");
//! let root = {
//!     let mut trie = TrieDB::new(&mut memdb);
//!     trie.insert(&key, b"test-value".to_vec()).unwrap();
//!     assert_eq!(trie.get(&key).unwrap(), Some(b"test-value".to_vec()));
//!     trie.root().unwrap()
//! };
//! let mut trie = TrieDB::from(&mut memdb, root).unwrap();
//! assert!(trie.contains(&key).unwrap());
//! assert!(trie.remove(&key).unwrap());
//! let new_root = trie.root().unwrap();
//! ```
pub mod cache;
pub mod canon;
pub mod codec;
pub mod db;
pub mod delete;
pub mod encoding;
pub mod errors;
pub mod eth;
pub mod hasher;
pub mod insert;
pub mod iter;
pub mod laws;
pub mod lookup;
pub mod nibbles;
pub mod node;
pub mod shape;
pub mod trie;
pub mod unique;
pub mod walk;

pub use db::HashDB;
pub use db::MemoryDB;
pub use errors::TrieError;
pub use eth::SecTrieDB;
pub use eth::TrieDB;
pub use hasher::keccak256;
pub use hasher::H256;
pub use iter::TrieIterator;
pub use trie::PatriciaTrie;
pub use trie::PatriciaTrieMut;
