//! Taking a path out of a trie, and bringing what is left back into shape.
use crate::cache::KeySet;
use crate::db::HashDB;
use crate::encoding::decode_node;
use crate::errors::ErrorKind;
use crate::errors::TrieError;
use crate::laws::lemma_delete_get;
use crate::lookup::get_spec;
use crate::lookup::lemma_skip_path;
use crate::lookup::lemma_starts_with;
use crate::lookup::recover_from_db;
use crate::lookup::recover_spec;
use crate::lookup::starts_with;
use crate::nibbles::is_inner_path;
use crate::nibbles::is_leaf_path;
use crate::nibbles::Nibbles;
use crate::node::lemma_branch_model;
use crate::node::models;
use crate::node::replace_child;
use crate::node::Failed;
use crate::node::Node;
use crate::node::NodeModel;
use vstd::prelude::*;

verus! {

/// A node brought back into shape, and the digests of the stored nodes that
/// were read for it.
pub struct Settled {
    pub node: NodeModel,
    pub touched: Set<Seq<u8>>,
}

/// What a removal gives: the node that takes the place of the old one,
/// whether anything was removed, and the digests of the stored nodes that
/// were read on the way.
pub struct Removed {
    pub node: NodeModel,
    pub deleted: bool,
    pub touched: Set<Seq<u8>>,
}

/// The number of slots that are not empty among the first `count` children.
pub open spec fn count_live(children: Seq<NodeModel>, count: nat) -> nat
    decreases count,
{
    if count == 0 || count > children.len() {
        0
    } else {
        count_live(children, (count - 1) as nat) + if children[count - 1] is Empty {
            0nat
        } else {
            1nat
        }
    }
}

/// The last slot that is not empty among the first `count` children, or -1.
pub open spec fn last_live(children: Seq<NodeModel>, count: nat) -> int
    decreases count,
{
    if count == 0 || count > children.len() {
        -1
    } else if children[count - 1] is Empty {
        last_live(children, (count - 1) as nat)
    } else {
        count - 1
    }
}

/// No path is longer than this.
pub open spec fn longest() -> nat {
    usize::MAX as nat
}

/// How far a node is from its shape, first part: a branch is farthest, an
/// extension nearer the longer its prefix is.
pub open spec fn unsettled(n: NodeModel) -> nat {
    match n {
        NodeModel::Branch { children, value } => longest() + 2,
        NodeModel::Extension { prefix, child } => if prefix.len() <= longest() {
            (longest() - prefix.len() + 1) as nat
        } else {
            0
        },
        _ => 0,
    }
}

/// The number of extensions that stand one above the other at a node.
pub open spec fn stacked(n: NodeModel) -> nat
    decreases n,
{
    match n {
        NodeModel::Extension { prefix, child } => 1 + stacked(*child),
        _ => 0,
    }
}

/// How far a node is from its shape, second part: an extension above a
/// reference has the reference to read first; one whose prefix is longer
/// than any path has the extensions below it to take in.
pub open spec fn unread(n: NodeModel) -> nat {
    match n {
        NodeModel::Extension { prefix, child } => if prefix.len() > longest() {
            stacked(*child)
        } else if *child is Hash {
            1
        } else {
            0
        },
        _ => 0,
    }
}

/// The node that takes the place of one that a removal has weakened, or the
/// error that reading a stored node for it gives.
///
/// A branch with a value and no child becomes a leaf. A branch with one
/// child and no value becomes an extension of one nibble above that child,
/// which is then brought into shape itself. An extension above an extension
/// becomes one extension; above a leaf, one leaf. An extension above a
/// reference reads the node from the store, notes its digest, and goes on
/// with what it read; a reference under which nothing is stored is an error
/// here, and so is one below a prefix longer than any path. Every other node
/// stays as it is.
pub open spec fn degenerate_spec(blobs: Map<Seq<u8>, Seq<u8>>, n: NodeModel) -> Result<
    Settled,
    ErrorKind,
>
    decreases unsettled(n), unread(n),
{
    match n {
        NodeModel::Branch { children, value } => {
            let live = count_live(children, children.len());
            let at = last_live(children, children.len());
            if live == 0 && value is Some {
                Ok(
                    Settled {
                        node: NodeModel::Leaf { key: seq![16u8], value: value->Some_0 },
                        touched: Set::empty(),
                    },
                )
            } else if live == 1 && value is None && 0 <= at < children.len() {
                degenerate_spec(
                    blobs,
                    NodeModel::Extension { prefix: seq![at as u8], child: Box::new(children[at]) },
                )
            } else {
                Ok(Settled { node: n, touched: Set::empty() })
            }
        },
        NodeModel::Extension { prefix, child } => match *child {
            NodeModel::Extension { prefix: below, child: grandchild } => if below.len() > 0 {
                degenerate_spec(
                    blobs,
                    NodeModel::Extension { prefix: prefix + below, child: grandchild },
                )
            } else {
                Ok(Settled { node: n, touched: Set::empty() })
            },
            NodeModel::Leaf { key, value } => Ok(
                Settled { node: NodeModel::Leaf { key: prefix + key, value }, touched: Set::empty() },
            ),
            NodeModel::Hash { digest } => if !blobs.contains_key(digest) || prefix.len()
                > longest() {
                Err(ErrorKind::InvalidData)
            } else {
                match recover_spec(blobs, digest) {
                    Err(e) => Err(e),
                    Ok(stored) => if stored is Hash {
                        Err(ErrorKind::InvalidData)
                    } else {
                        match degenerate_spec(
                            blobs,
                            NodeModel::Extension { prefix, child: Box::new(stored) },
                        ) {
                            Err(e) => Err(e),
                            Ok(s) => Ok(Settled { node: s.node, touched: s.touched.insert(digest) }),
                        }
                    },
                }
            },
            _ => Ok(Settled { node: n, touched: Set::empty() }),
        },
        _ => Ok(Settled { node: n, touched: Set::empty() }),
    }
}

/// What a removal gives once the node that it weakened is back in shape.
pub open spec fn settle(blobs: Map<Seq<u8>, Seq<u8>>, n: NodeModel, touched: Set<Seq<u8>>) -> Result<
    Removed,
    ErrorKind,
> {
    match degenerate_spec(blobs, n) {
        Err(e) => Err(e),
        Ok(s) => Ok(Removed { node: s.node, deleted: true, touched: touched.union(s.touched) }),
    }
}

/// The node that takes the place of `n` once nothing stands under `path`
/// below it, with the answer whether anything was removed, or the error that
/// reading a stored node on the way gives.
///
/// A leaf with this key goes. A branch drops its own value where the path
/// ends at it, and reports a removal whether or not it had one; else it
/// hands the path to the child at the path's first nibble. An extension
/// hands on the paths that begin with its prefix. A reference is read from
/// the store, and its digest is noted. A node below which something was
/// removed is brought back into shape.
pub open spec fn delete_spec(blobs: Map<Seq<u8>, Seq<u8>>, n: NodeModel, path: Seq<u8>) -> Result<
    Removed,
    ErrorKind,
>
    decreases path.len(), (if n is Hash {
        1nat
    } else {
        0nat
    }),
{
    match n {
        NodeModel::Empty => Ok(Removed { node: n, deleted: false, touched: Set::empty() }),
        NodeModel::Leaf { key, value } => if key == path {
            Ok(Removed { node: NodeModel::Empty, deleted: true, touched: Set::empty() })
        } else {
            Ok(Removed { node: n, deleted: false, touched: Set::empty() })
        },
        NodeModel::Branch { children, value } => if path.len() == 0 {
            Ok(Removed { node: n, deleted: false, touched: Set::empty() })
        } else if path[0] == 16 {
            settle(blobs, NodeModel::Branch { children, value: None }, Set::empty())
        } else if path[0] < children.len() {
            match delete_spec(blobs, children[path[0] as int], path.skip(1)) {
                Err(e) => Err(e),
                Ok(below) => if below.deleted {
                    settle(
                        blobs,
                        NodeModel::Branch {
                            children: children.update(path[0] as int, below.node),
                            value,
                        },
                        below.touched,
                    )
                } else {
                    Ok(Removed { node: n, deleted: false, touched: below.touched })
                },
            }
        } else {
            Ok(Removed { node: n, deleted: false, touched: Set::empty() })
        },
        NodeModel::Extension { prefix, child } => if prefix.len() > 0 && starts_with(path, prefix) {
            match delete_spec(blobs, *child, path.skip(prefix.len() as int)) {
                Err(e) => Err(e),
                Ok(below) => if below.deleted {
                    settle(
                        blobs,
                        NodeModel::Extension { prefix, child: Box::new(below.node) },
                        below.touched,
                    )
                } else {
                    Ok(Removed { node: n, deleted: false, touched: below.touched })
                },
            }
        } else {
            Ok(Removed { node: n, deleted: false, touched: Set::empty() })
        },
        NodeModel::Hash { digest } => match recover_spec(blobs, digest) {
            Err(e) => Err(e),
            Ok(stored) => if stored is Hash {
                Err(ErrorKind::InvalidData)
            } else {
                match delete_spec(blobs, stored, path) {
                    Err(e) => Err(e),
                    Ok(below) => Ok(
                        Removed {
                            node: below.node,
                            deleted: below.deleted,
                            touched: below.touched.insert(digest),
                        },
                    ),
                }
            },
        },
    }
}

/// A prefix of nibbles before a path that reaches a value makes a path that
/// reaches a value; before nibbles, nibbles.
pub proof fn lemma_joined_paths(prefix: Seq<u8>, rest: Seq<u8>)
    requires
        is_inner_path(prefix),
    ensures
        is_leaf_path(rest) ==> is_leaf_path(prefix + rest),
        is_inner_path(rest) ==> is_inner_path(prefix + rest),
{
    let joined = prefix + rest;
    if is_leaf_path(rest) {
        assert(joined.last() == rest.last());
        assert forall|i: int| 0 <= i < joined.drop_last().len() implies #[trigger] joined.drop_last()[i]
            < 16 by {
            if i < prefix.len() {
                assert(prefix[i] < 16);
            } else {
                assert(rest.drop_last()[i - prefix.len()] < 16);
            }
        }
    }
    if is_inner_path(rest) {
        assert forall|i: int| 0 <= i < joined.len() implies #[trigger] joined[i] < 16 by {
            if i < prefix.len() {
                assert(prefix[i] < 16);
            } else {
                assert(rest[i - prefix.len()] < 16);
            }
        }
    }
}

/// Whether a node is the empty node.
fn is_empty_node(n: &Node) -> (r: bool)
    ensures
        r == (n@ is Empty),
{
    match n {
        Node::Empty => true,
        _ => false,
    }
}

/// The digest of a node that is a reference.
fn reference_of(n: &Node) -> (r: Option<crate::hasher::H256>)
    ensures
        match r {
            Some(h) => n@ == (NodeModel::Hash { digest: h@ }),
            None => !(n@ is Hash),
        },
{
    match n {
        Node::Hash(h) => Some(*h),
        _ => None,
    }
}

/// Brings a node back into shape after something below it was removed. The
/// digests of the stored nodes that are read for it are added to
/// `passing_keys`.
pub fn degenerate<D: HashDB>(db: &D, passing_keys: &mut KeySet, n: Node) -> (r: Result<
    Node,
    TrieError,
>)
    requires
        n@.wf(),
    ensures
        match r {
            Ok(m) => degenerate_spec(db.blobs(), n@) matches Ok(s) && s.node == m@
                && final(passing_keys)@ == old(passing_keys)@.union(s.touched) && m@.wf(),
            Err(e) => degenerate_spec(db.blobs(), n@) == Err::<Settled, ErrorKind>(e.kind())
                && old(passing_keys)@.subset_of(final(passing_keys)@),
        },
    decreases unsettled(n@), unread(n@),
{
    let ghost before = passing_keys@;
    assert(before.union(Set::empty()) =~= before);
    match n {
        Node::Branch { children, value } => {
            proof {
                lemma_branch_model(children, value);
            }
            let mut used_indexs: Vec<usize> = Vec::new();
            let mut i: usize = 0;
            while i < 16
                invariant
                    i <= 16,
                    children@.len() == 16,
                    used_indexs@.len() == count_live(models(children@), i as nat),
                    used_indexs@.len() > 0 ==> used_indexs@[used_indexs@.len() - 1] == last_live(
                        models(children@),
                        i as nat,
                    ),
                    used_indexs@.len() > 0 ==> 0 <= last_live(models(children@), i as nat) < i,
                    used_indexs@.len() > 0 ==> !(models(children@)[last_live(
                        models(children@),
                        i as nat,
                    )] is Empty),
                decreases 16 - i,
            {
                if !is_empty_node(&children[i]) {
                    used_indexs.push(i);
                }
                i += 1;
            }
            if used_indexs.len() == 0 && value.is_some() {
                let key = Nibbles::from_raw(&[], true);
                assert(key@ =~= seq![16u8]);
                Ok(Node::from_leaf(key, value.unwrap()))
            } else if used_indexs.len() == 1 && value.is_none() {
                let used_index = used_indexs[0];
                assert(models(children@)[used_index as int].wf());
                let mut children = children;
                let child = replace_child(&mut children, used_index, Node::Empty);
                let mut hex: Vec<u8> = Vec::new();
                hex.push(used_index as u8);
                assert(hex@ =~= seq![used_index as u8]);
                let new_node = Node::from_extension(Nibbles::from_hex(hex), child);
                degenerate(db, passing_keys, new_node)
            } else {
                Ok(Node::from_branch(children, value))
            }
        },
        Node::Extension { prefix, node } => {
            proof {
                prefix.lemma_fits();
            }
            assert(node@.wf());
            match *node {
                Node::Extension { prefix: below, node: grandchild } => {
                    let new_prefix = prefix.join(&below);
                    proof {
                        new_prefix.lemma_fits();
                        lemma_joined_paths(prefix@, below@);
                        assert(grandchild@.wf());
                        assert(below@.len() > 0);
                    }
                    let new_n = Node::from_extension(new_prefix, *grandchild);
                    degenerate(db, passing_keys, new_n)
                },
                Node::Leaf { key, value } => {
                    let new_prefix = prefix.join(&key);
                    proof {
                        lemma_joined_paths(prefix@, key@);
                    }
                    Ok(Node::from_leaf(new_prefix, value))
                },
                Node::Hash(hash) => {
                    passing_keys.insert(hash);
                    match db.get(&hash) {
                        None => Err(TrieError::InvalidData),
                        Some(blob) => match decode_node(blob.as_slice(), false) {
                            Err(e) => Err(e),
                            Ok(stored) => {
                                let new_n = Node::from_extension(prefix, stored);
                                match degenerate(db, passing_keys, new_n) {
                                    Ok(m) => {
                                        proof {
                                            let s = degenerate_spec(db.blobs(), new_n@)->Ok_0;
                                            assert(before.insert(hash@).union(s.touched)
                                                =~= before.union(s.touched.insert(hash@)));
                                        }
                                        Ok(m)
                                    },
                                    Err(e) => Err(e),
                                }
                            },
                        },
                    }
                },
                other => Ok(Node::from_extension(prefix, other)),
            }
        },
        other => Ok(other),
    }
}

/// Brings the node that a removal weakened back into shape and reports the
/// removal. Where that fails, nothing is left of the node.
fn settle_node<D: HashDB>(db: &D, passing_keys: &mut KeySet, n: Node, Ghost(touched): Ghost<
    Set<Seq<u8>>,
>, Ghost(start): Ghost<Set<Seq<u8>>>) -> (r: Result<(Node, bool), Failed>)
    requires
        n@.wf(),
        old(passing_keys)@ == start.union(touched),
    ensures
        match r {
            Ok(out) => settle(db.blobs(), n@, touched) matches Ok(s) && s.node == out.0@
                && s.deleted == out.1 && final(passing_keys)@ == start.union(s.touched)
                && out.0@.wf(),
            Err(f) => settle(db.blobs(), n@, touched) == Err::<Removed, ErrorKind>(f.error.kind())
                && !f.intact && start.subset_of(final(passing_keys)@),
        },
{
    match degenerate(db, passing_keys, n) {
        Ok(m) => {
            proof {
                let s = degenerate_spec(db.blobs(), n@)->Ok_0;
                assert(start.union(touched).union(s.touched) =~= start.union(
                    touched.union(s.touched),
                ));
            }
            Ok((m, true))
        },
        Err(e) => Err(Failed { node: Node::Empty, intact: false, error: e }),
    }
}

/// Removes what stands under `partial` below the node `n`, and gives the
/// node that takes the place of `n` and whether anything was removed. The
/// digests of the stored nodes that are read on the way are added to
/// `passing_keys`. Where a stored node on the way cannot be read, the node
/// `n` is handed back as it was; where the failure comes later, while what
/// is left is brought into shape, nothing is handed back.
pub fn delete_at<D: HashDB>(db: &D, passing_keys: &mut KeySet, n: Node, partial: &Nibbles) -> (r:
    Result<(Node, bool), Failed>)
    requires
        n@.wf(),
        is_leaf_path(partial@),
    ensures
        match r {
            Ok(out) => delete_spec(db.blobs(), n@, partial@) matches Ok(s) && s.node == out.0@
                && s.deleted == out.1 && final(passing_keys)@ == old(passing_keys)@.union(
                s.touched,
            ) && out.0@.wf(),
            Err(f) => delete_spec(db.blobs(), n@, partial@) == Err::<Removed, ErrorKind>(
                f.error.kind(),
            ) && f.intact == (get_spec(db.blobs(), n@, partial@) is Err) && (f.intact ==> f.node@
                == n@) && old(passing_keys)@.subset_of(final(passing_keys)@),
        },
    decreases partial@.len(), (if n@ is Hash {
        1nat
    } else {
        0nat
    }),
{
    let ghost before = passing_keys@;
    assert(before.union(Set::empty()) =~= before);
    match n {
        Node::Empty => Ok((Node::Empty, false)),
        Node::Leaf { key, value } => {
            if key.equals(partial) {
                Ok((Node::Empty, true))
            } else {
                Ok((Node::Leaf { key, value }, false))
            }
        },
        Node::Branch { children, value } => {
            proof {
                lemma_branch_model(children, value);
            }
            let mut children = children;
            if partial.at(0) == 16 {
                let weakened = Node::from_branch(children, None);
                return settle_node(db, passing_keys, weakened, Ghost(Set::empty()), Ghost(before));
            }
            let index = partial.at(0);
            proof {
                if partial@.len() == 1 {
                    assert(partial@.last() == 16);
                }
                assert(partial@.drop_last()[0] < 16);
                lemma_skip_path(partial@, 1);
                assert(models(children@)[index as int].wf());
            }
            let ghost slots = models(children@);
            let saved = reference_of(&children[index]);
            let child = replace_child(&mut children, index, Node::Empty);
            match delete_at(db, passing_keys, child, &partial.offset(1)) {
                Ok((new_n, deleted)) => {
                    let ghost below = delete_spec(db.blobs(), child@, partial@.skip(1))->Ok_0;
                    if deleted {
                        replace_child(&mut children, index, new_n);
                        assert(models(children@) =~= slots.update(index as int, new_n@));
                        let weakened = Node::from_branch(children, value);
                        assert(weakened@.wf());
                        proof {
                            lemma_delete_get(
                                db.blobs(),
                                child@,
                                partial@.skip(1),
                                partial@.skip(1),
                            );
                        }
                        settle_node(db, passing_keys, weakened, Ghost(below.touched), Ghost(before))
                    } else {
                        let restored = match saved {
                            Some(h) => Node::Hash(h),
                            None => new_n,
                        };
                        replace_child(&mut children, index, restored);
                        assert(models(children@) =~= slots);
                        Ok((Node::from_branch(children, value), false))
                    }
                },
                Err(f) => {
                    if f.intact {
                        replace_child(&mut children, index, f.node);
                        assert(models(children@) =~= slots);
                        Err(
                            Failed {
                                node: Node::from_branch(children, value),
                                intact: true,
                                error: f.error,
                            },
                        )
                    } else {
                        Err(Failed { node: Node::Empty, intact: false, error: f.error })
                    }
                },
            }
        },
        Node::Extension { prefix, node } => {
            let match_len = partial.common_prefix(&prefix);
            proof {
                lemma_starts_with(partial@, prefix@);
            }
            if match_len == prefix.len() {
                proof {
                    lemma_skip_path(partial@, match_len as int);
                    crate::insert::lemma_prefix_in_leaf_path(partial@, prefix@);
                }
                let saved = reference_of(&*node);
                let ghost child_model = node@;
                match delete_at(db, passing_keys, *node, &partial.offset(match_len)) {
                    Ok((new_n, deleted)) => {
                        let ghost below = delete_spec(
                            db.blobs(),
                            child_model,
                            partial@.skip(match_len as int),
                        )->Ok_0;
                        if deleted {
                            let weakened = Node::from_extension(prefix, new_n);
                            assert(weakened@.wf());
                            proof {
                                lemma_delete_get(
                                    db.blobs(),
                                    child_model,
                                    partial@.skip(match_len as int),
                                    partial@.skip(match_len as int),
                                );
                            }
                            settle_node(
                                db,
                                passing_keys,
                                weakened,
                                Ghost(below.touched),
                                Ghost(before),
                            )
                        } else {
                            let restored = match saved {
                                Some(h) => Node::Hash(h),
                                None => new_n,
                            };
                            Ok((Node::from_extension(prefix, restored), false))
                        }
                    },
                    Err(f) => {
                        if f.intact {
                            Err(
                                Failed {
                                    node: Node::from_extension(prefix, f.node),
                                    intact: true,
                                    error: f.error,
                                },
                            )
                        } else {
                            Err(Failed { node: Node::Empty, intact: false, error: f.error })
                        }
                    },
                }
            } else {
                Ok((Node::Extension { prefix, node }, false))
            }
        },
        Node::Hash(hash_node) => {
            passing_keys.insert(hash_node);
            match recover_from_db(db, &hash_node) {
                Ok(stored) => {
                    match delete_at(db, passing_keys, stored, partial) {
                        Ok(out) => {
                            proof {
                                let s = delete_spec(db.blobs(), stored@, partial@)->Ok_0;
                                assert(before.insert(hash_node@).union(s.touched) =~= before.union(
                                    s.touched.insert(hash_node@),
                                ));
                            }
                            Ok(out)
                        },
                        Err(f) => {
                            if f.intact {
                                Err(
                                    Failed {
                                        node: Node::Hash(hash_node),
                                        intact: true,
                                        error: f.error,
                                    },
                                )
                            } else {
                                Err(Failed { node: Node::Empty, intact: false, error: f.error })
                            }
                        },
                    }
                },
                Err(e) => Err(Failed { node: Node::Hash(hash_node), intact: true, error: e }),
            }
        },
    }
}

} // verus!
