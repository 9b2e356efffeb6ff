//! Reading a trie: the value under a path, and the stored nodes on the way.
use crate::db::HashDB;
use crate::encoding::decode_node;
use crate::encoding::decode_spec;
use crate::encoding::node_result;
use crate::errors::ErrorKind;
use crate::errors::TrieError;
use crate::hasher::H256;
use crate::nibbles::body;
use crate::nibbles::common_prefix_len;
use crate::nibbles::is_path;
use crate::nibbles::lemma_common_prefix;
use crate::nibbles::lemma_common_prefix_unique;
use crate::nibbles::terminated;
use crate::nibbles::Nibbles;
use crate::node::copy_bytes;
use crate::node::copy_value;
use crate::node::lemma_branch_model;
use crate::node::models;
use crate::node::value_model;
use crate::node::Node;
use crate::node::NodeModel;
use vstd::prelude::*;

verus! {

/// The path begins with the prefix.
pub open spec fn starts_with(path: Seq<u8>, prefix: Seq<u8>) -> bool {
    prefix.len() <= path.len() && path.take(prefix.len() as int) == prefix
}

/// A path begins with a prefix exactly if their common prefix is the whole
/// prefix.
pub proof fn lemma_starts_with(path: Seq<u8>, prefix: Seq<u8>)
    ensures
        starts_with(path, prefix) <==> common_prefix_len(path, prefix) == prefix.len(),
{
    lemma_common_prefix(path, prefix);
    let m = common_prefix_len(path, prefix);
    if m == prefix.len() {
        assert(prefix.take(m as int) =~= prefix);
    }
    if starts_with(path, prefix) {
        assert forall|i: int| 0 <= i < prefix.len() implies path[i] == prefix[i] by {
            assert(path.take(prefix.len() as int)[i] == prefix[i]);
        }
        lemma_common_prefix_unique(path, prefix, prefix.len());
    }
}

/// What is left of a well-formed path after its first entries is one too.
pub proof fn lemma_skip_path(path: Seq<u8>, count: int)
    requires
        is_path(path),
        0 <= count <= path.len(),
    ensures
        is_path(path.skip(count)),
        count < path.len() ==> terminated(path.skip(count)) == terminated(path),
{
    let rest = path.skip(count);
    if count < path.len() {
        assert(rest.last() == path.last());
        assert forall|i: int| 0 <= i < body(rest).len() implies #[trigger] body(rest)[i] < 16 by {
            assert(body(rest)[i] == body(path)[i + count]);
        }
    }
}

/// The node stored under a digest, or the error that reading it gives. A
/// digest under which nothing is stored stands for the empty node.
pub open spec fn recover_spec(blobs: Map<Seq<u8>, Seq<u8>>, digest: Seq<u8>) -> Result<
    NodeModel,
    ErrorKind,
> {
    if blobs.contains_key(digest) {
        decode_spec(blobs[digest], false)
    } else {
        Ok(NodeModel::Empty)
    }
}

/// The value under a path below a node, or the error that reading a stored
/// node on the way gives.
///
/// A leaf holds the value of its own key. A branch holds the value of the
/// path that ends at it, and sends every other path to the child at its
/// first nibble. An extension sends on the paths that begin with its prefix.
/// A reference stands for the node stored under its digest.
pub open spec fn get_spec(blobs: Map<Seq<u8>, Seq<u8>>, n: NodeModel, path: Seq<u8>) -> Result<
    Option<Seq<u8>>,
    ErrorKind,
>
    decreases path.len(), (if n is Hash {
        1nat
    } else {
        0nat
    }),
{
    match n {
        NodeModel::Empty => Ok(None),
        NodeModel::Leaf { key, value } => if key == path {
            Ok(Some(value))
        } else {
            Ok(None)
        },
        NodeModel::Branch { children, value } => if path.len() == 0 || path[0] == 16 {
            Ok(value)
        } else if path[0] < children.len() {
            get_spec(blobs, children[path[0] as int], path.skip(1))
        } else {
            Ok(None)
        },
        NodeModel::Extension { prefix, child } => if prefix.len() > 0 && starts_with(path, prefix) {
            get_spec(blobs, *child, path.skip(prefix.len() as int))
        } else {
            Ok(None)
        },
        NodeModel::Hash { digest } => match recover_spec(blobs, digest) {
            Err(e) => Err(e),
            Ok(m) => if m is Hash {
                Err(ErrorKind::InvalidData)
            } else {
                get_spec(blobs, m, path)
            },
        },
    }
}

/// The stored nodes that a walk along a path reads, the deepest first: each
/// one the node that a reference on the way stands for.
pub open spec fn path_spec(blobs: Map<Seq<u8>, Seq<u8>>, n: NodeModel, path: Seq<u8>) -> Result<
    Seq<NodeModel>,
    ErrorKind,
>
    decreases path.len(), (if n is Hash {
        1nat
    } else {
        0nat
    }),
{
    match n {
        NodeModel::Empty => Ok(Seq::empty()),
        NodeModel::Leaf { key, value } => Ok(Seq::empty()),
        NodeModel::Branch { children, value } => if path.len() == 0 || path[0] == 16 {
            Ok(Seq::empty())
        } else if path[0] < children.len() {
            path_spec(blobs, children[path[0] as int], path.skip(1))
        } else {
            Ok(Seq::empty())
        },
        NodeModel::Extension { prefix, child } => if prefix.len() > 0 && starts_with(path, prefix) {
            path_spec(blobs, *child, path.skip(prefix.len() as int))
        } else {
            Ok(Seq::empty())
        },
        NodeModel::Hash { digest } => match recover_spec(blobs, digest) {
            Err(e) => Err(e),
            Ok(m) => if m is Hash {
                Err(ErrorKind::InvalidData)
            } else {
                match path_spec(blobs, m, path) {
                    Err(e) => Err(e),
                    Ok(rest) => Ok(rest.push(m)),
                }
            },
        },
    }
}

/// The outcome of a lookup is the one that the model gives.
pub open spec fn value_result(
    r: Result<Option<Vec<u8>>, TrieError>,
    s: Result<Option<Seq<u8>>, ErrorKind>,
) -> bool {
    match r {
        Ok(v) => s == Ok::<Option<Seq<u8>>, ErrorKind>(value_model(v)),
        Err(e) => s == Err::<Option<Seq<u8>>, ErrorKind>(e.kind()),
    }
}

/// The outcome of a walk is the one that the model gives.
pub open spec fn nodes_result(r: Result<Vec<Node>, TrieError>, s: Result<Seq<NodeModel>, ErrorKind>) -> bool {
    match r {
        Ok(v) => s == Ok::<Seq<NodeModel>, ErrorKind>(models(v@)),
        Err(e) => s == Err::<Seq<NodeModel>, ErrorKind>(e.kind()),
    }
}

/// Reads the node stored under a digest. Where nothing is stored under it,
/// the node is taken to be empty.
pub fn recover_from_db<D: HashDB>(db: &D, key: &H256) -> (r: Result<Node, TrieError>)
    ensures
        node_result(r, recover_spec(db.blobs(), key@)),
        r matches Ok(n) ==> n@.wf() && !(n@ is Hash),
{
    match db.get(key) {
        Some(value) => decode_node(value.as_slice(), false),
        None => Ok(Node::Empty),
    }
}

/// The value under `partial` below the node `n`.
pub fn get_at<D: HashDB>(db: &D, n: &Node, partial: &Nibbles) -> (r: Result<
    Option<Vec<u8>>,
    TrieError,
>)
    requires
        n@.wf(),
        is_path(partial@),
    ensures
        value_result(r, get_spec(db.blobs(), n@, partial@)),
    decreases partial@.len(), (if n@ is Hash {
        1nat
    } else {
        0nat
    }),
{
    match n {
        Node::Empty => Ok(None),
        Node::Leaf { key, value } => {
            if key.equals(partial) {
                Ok(Some(copy_bytes(value)))
            } else {
                Ok(None)
            }
        },
        Node::Branch { children, value } => {
            proof {
                lemma_branch_model(*children, *value);
            }
            if partial.is_empty() || partial.at(0) == 16 {
                Ok(copy_value(value))
            } else {
                let index = partial.at(0);
                proof {
                    lemma_skip_path(partial@, 1);
                    assert(body(partial@)[0] < 16);
                    assert(models(children@)[index as int].wf());
                }
                get_at(db, &children[index], &partial.offset(1))
            }
        },
        Node::Extension { prefix, node } => {
            let match_len = partial.common_prefix(prefix);
            proof {
                lemma_starts_with(partial@, prefix@);
            }
            if match_len == prefix.len() {
                proof {
                    lemma_skip_path(partial@, match_len as int);
                }
                get_at(db, node, &partial.offset(match_len))
            } else {
                Ok(None)
            }
        },
        Node::Hash(hash) => {
            match recover_from_db(db, hash) {
                Ok(resolved) => get_at(db, &resolved, partial),
                Err(e) => Err(e),
            }
        },
    }
}

/// The stored nodes that the walk along `partial` below `n` reads, the
/// deepest first. Nodes that stand inside their parent's encoding are not
/// among them.
pub fn get_path_at<D: HashDB>(db: &D, n: &Node, partial: &Nibbles) -> (r: Result<
    Vec<Node>,
    TrieError,
>)
    requires
        n@.wf(),
        is_path(partial@),
    ensures
        nodes_result(r, path_spec(db.blobs(), n@, partial@)),
        r matches Ok(v) ==> forall|i: int|
            0 <= i < v@.len() ==> (#[trigger] v@[i])@.wf() && !(v@[i]@ is Hash),
    decreases partial@.len(), (if n@ is Hash {
        1nat
    } else {
        0nat
    }),
{
    match n {
        Node::Empty => {
            let v: Vec<Node> = Vec::new();
            assert(models(v@) =~= Seq::<NodeModel>::empty());
            Ok(v)
        },
        Node::Leaf { key, value } => {
            let v: Vec<Node> = Vec::new();
            assert(models(v@) =~= Seq::<NodeModel>::empty());
            Ok(v)
        },
        Node::Branch { children, value } => {
            proof {
                lemma_branch_model(*children, *value);
            }
            if partial.is_empty() || partial.at(0) == 16 {
                let v: Vec<Node> = Vec::new();
                assert(models(v@) =~= Seq::<NodeModel>::empty());
                Ok(v)
            } else {
                let index = partial.at(0);
                proof {
                    lemma_skip_path(partial@, 1);
                    assert(body(partial@)[0] < 16);
                    assert(models(children@)[index as int].wf());
                }
                get_path_at(db, &children[index], &partial.offset(1))
            }
        },
        Node::Extension { prefix, node } => {
            let match_len = partial.common_prefix(prefix);
            proof {
                lemma_starts_with(partial@, prefix@);
            }
            if match_len == prefix.len() {
                proof {
                    lemma_skip_path(partial@, match_len as int);
                }
                get_path_at(db, node, &partial.offset(match_len))
            } else {
                let v: Vec<Node> = Vec::new();
                assert(models(v@) =~= Seq::<NodeModel>::empty());
                Ok(v)
            }
        },
        Node::Hash(hash) => {
            match recover_from_db(db, hash) {
                Ok(resolved) => {
                    match get_path_at(db, &resolved, partial) {
                        Ok(rest) => {
                            let mut rest = rest;
                            let ghost before = rest@;
                            rest.push(resolved);
                            assert(models(rest@) =~= models(before).push(resolved@));
                            Ok(rest)
                        },
                        Err(e) => Err(e),
                    }
                },
                Err(e) => Err(e),
            }
        },
    }
}

} // verus!
