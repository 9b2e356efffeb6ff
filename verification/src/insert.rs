//! Putting a value under a path.
use crate::cache::KeySet;
use crate::db::HashDB;
use crate::errors::ErrorKind;
use crate::errors::TrieError;
use crate::lookup::lemma_skip_path;
use crate::lookup::recover_from_db;
use crate::lookup::recover_spec;
use crate::nibbles::common_prefix_len;
use crate::nibbles::is_inner_path;
use crate::nibbles::is_leaf_path;
use crate::nibbles::lemma_common_prefix;
use crate::nibbles::lemma_common_prefix_unique;
use crate::nibbles::Nibbles;
use crate::node::empty_children;
use crate::node::lemma_branch_model;
use crate::node::models;
use crate::node::no_children;
use crate::node::replace_child;
use crate::node::Failed;
use crate::node::value_model;
use crate::node::Node;
use crate::node::NodeModel;
use vstd::prelude::*;

verus! {

/// The slots of a branch.
pub struct Slots {
    pub children: Seq<NodeModel>,
    pub value: Option<Seq<u8>>,
}

/// The slots after a key has been given its place in them. The entry of the
/// key at position `at` picks the slot: the terminator picks the value of the
/// branch, a nibble the child of that number, which becomes a leaf with the
/// rest of the key.
pub open spec fn place(slots: Slots, key: Seq<u8>, at: int, value: Seq<u8>) -> Slots {
    if key[at] == 16 {
        Slots { children: slots.children, value: Some(value) }
    } else {
        Slots {
            children: slots.children.update(
                key[at] as int,
                NodeModel::Leaf { key: key.skip(at + 1), value },
            ),
            value: slots.value,
        }
    }
}

/// What an insertion gives: the node that takes the place of the old one,
/// and the digests of the stored nodes that were read on the way.
pub struct Inserted {
    pub node: NodeModel,
    pub touched: Set<Seq<u8>>,
}

/// The order in which an insertion works through the kinds of nodes.
pub open spec fn insert_rank(n: NodeModel) -> nat {
    match n {
        NodeModel::Hash { digest } => 2,
        NodeModel::Extension { prefix, child } => 1,
        _ => 0,
    }
}

/// The branch that takes the place of an extension whose prefix parts from
/// the path at once: the rest of the extension hangs at the first nibble of
/// the prefix.
pub open spec fn split_extension(prefix: Seq<u8>, child: NodeModel) -> NodeModel {
    let moved = if prefix.len() == 1 {
        child
    } else {
        NodeModel::Extension { prefix: prefix.skip(1), child: Box::new(child) }
    };
    NodeModel::Branch { children: no_children().update(prefix[0] as int, moved), value: None }
}

/// The node that takes the place of `n` once `value` stands under `path`
/// below it, or the error that reading a stored node on the way gives.
///
/// The empty node becomes a leaf. A leaf with the same key takes the new
/// value; one with another key gives way to a branch that holds both, below
/// an extension for what the two keys share. A branch takes the value for
/// itself where the path ends at it, and else hands it to the child at the
/// path's first nibble. An extension hands it on where the path begins with
/// its prefix, and else is split where the two part. A reference is read
/// from the store, and its digest is noted.
pub open spec fn insert_spec(
    blobs: Map<Seq<u8>, Seq<u8>>,
    n: NodeModel,
    path: Seq<u8>,
    value: Seq<u8>,
) -> Result<Inserted, ErrorKind>
    decreases path.len(), insert_rank(n),
{
    match n {
        NodeModel::Empty => Ok(
            Inserted { node: NodeModel::Leaf { key: path, value }, touched: Set::empty() },
        ),
        NodeModel::Leaf { key, value: old_value } => if key == path {
            Ok(Inserted { node: NodeModel::Leaf { key, value }, touched: Set::empty() })
        } else {
            let m = common_prefix_len(path, key) as int;
            let first = place(Slots { children: no_children(), value: None }, key, m, old_value);
            let both = place(first, path, m, value);
            let branch = NodeModel::Branch { children: both.children, value: both.value };
            if m == 0 {
                Ok(Inserted { node: branch, touched: Set::empty() })
            } else {
                Ok(
                    Inserted {
                        node: NodeModel::Extension { prefix: path.take(m), child: Box::new(branch) },
                        touched: Set::empty(),
                    },
                )
            }
        },
        NodeModel::Branch { children, value: branch_value } => if path.len() == 0 {
            Ok(Inserted { node: n, touched: Set::empty() })
        } else if path[0] == 16 {
            Ok(
                Inserted {
                    node: NodeModel::Branch { children, value: Some(value) },
                    touched: Set::empty(),
                },
            )
        } else if path[0] < children.len() {
            match insert_spec(blobs, children[path[0] as int], path.skip(1), value) {
                Err(e) => Err(e),
                Ok(below) => Ok(
                    Inserted {
                        node: NodeModel::Branch {
                            children: children.update(path[0] as int, below.node),
                            value: branch_value,
                        },
                        touched: below.touched,
                    },
                ),
            }
        } else {
            Ok(Inserted { node: n, touched: Set::empty() })
        },
        NodeModel::Extension { prefix, child } => {
            let m = common_prefix_len(path, prefix) as int;
            if prefix.len() == 0 || m >= path.len() {
                Ok(Inserted { node: n, touched: Set::empty() })
            } else if m == 0 {
                insert_spec(blobs, split_extension(prefix, *child), path, value)
            } else if m == prefix.len() {
                match insert_spec(blobs, *child, path.skip(m), value) {
                    Err(e) => Err(e),
                    Ok(below) => Ok(
                        Inserted {
                            node: NodeModel::Extension { prefix, child: Box::new(below.node) },
                            touched: below.touched,
                        },
                    ),
                }
            } else {
                match insert_spec(
                    blobs,
                    NodeModel::Extension { prefix: prefix.skip(m), child },
                    path.skip(m),
                    value,
                ) {
                    Err(e) => Err(e),
                    Ok(below) => Ok(
                        Inserted {
                            node: NodeModel::Extension {
                                prefix: prefix.take(m),
                                child: Box::new(below.node),
                            },
                            touched: below.touched,
                        },
                    ),
                }
            }
        },
        NodeModel::Hash { digest } => match recover_spec(blobs, digest) {
            Err(e) => Err(e),
            Ok(stored) => if stored is Hash {
                Err(ErrorKind::InvalidData)
            } else {
                match insert_spec(blobs, stored, path, value) {
                    Err(e) => Err(e),
                    Ok(below) => Ok(
                        Inserted { node: below.node, touched: below.touched.insert(digest) },
                    ),
                }
            },
        },
    }
}

/// Two paths that reach a value are the same path where one begins with the
/// other; where they differ, both go on after what they share.
pub proof fn lemma_leaf_paths(a: Seq<u8>, b: Seq<u8>)
    requires
        is_leaf_path(a),
        is_leaf_path(b),
    ensures
        common_prefix_len(a, b) == b.len() <==> a == b,
        a != b ==> common_prefix_len(a, b) < a.len() && common_prefix_len(a, b) < b.len(),
{
    lemma_common_prefix(a, b);
    let m = common_prefix_len(a, b) as int;
    if a == b {
        lemma_common_prefix_unique(a, b, a.len());
    }
    if m == b.len() {
        assert(a.take(m)[m - 1] == b.take(m)[m - 1]);
        if m < a.len() {
            assert(a.drop_last()[m - 1] < 16);
        }
        assert(a.take(m) =~= a);
        assert(b.take(m) =~= b);
    }
    if m == a.len() {
        assert(a.take(m)[m - 1] == b.take(m)[m - 1]);
        if m < b.len() {
            assert(b.drop_last()[m - 1] < 16);
        }
        assert(a.take(m) =~= a);
        assert(b.take(m) =~= b);
    }
}

/// A path that reaches a value goes on after what it shares with a prefix
/// of nibbles.
pub proof fn lemma_prefix_in_leaf_path(path: Seq<u8>, prefix: Seq<u8>)
    requires
        is_leaf_path(path),
        is_inner_path(prefix),
    ensures
        common_prefix_len(path, prefix) < path.len(),
{
    lemma_common_prefix(path, prefix);
    let m = common_prefix_len(path, prefix) as int;
    if m == path.len() {
        assert(path.take(m)[m - 1] == prefix.take(m)[m - 1]);
        assert(prefix[m - 1] < 16);
    }
}

/// The slots that hold a key in its place have the shape that the slots of
/// every branch have.
pub proof fn lemma_place_wf(slots: Slots, key: Seq<u8>, at: int, value: Seq<u8>)
    requires
        is_leaf_path(key),
        0 <= at < key.len(),
        slots.children.len() == 16,
        forall|i: int| 0 <= i < 16 ==> (#[trigger] slots.children[i]).wf(),
    ensures
        place(slots, key, at, value).children.len() == 16,
        forall|i: int| 0 <= i < 16 ==> (#[trigger] place(slots, key, at, value).children[i]).wf(),
{
    if key[at] != 16 {
        assert(at < key.len() - 1);
        assert(key.drop_last()[at] < 16);
        lemma_skip_path(key, at + 1);
        let rest = key.skip(at + 1);
        assert(is_leaf_path(rest));
    }
}

/// Putting a value into the branch that takes the place of an extension,
/// under a path that parts from the prefix at once, reads no stored node and
/// so cannot fail.
pub proof fn lemma_insert_split_ok(
    blobs: Map<Seq<u8>, Seq<u8>>,
    prefix: Seq<u8>,
    child: NodeModel,
    path: Seq<u8>,
    value: Seq<u8>,
)
    requires
        prefix.len() > 0,
        is_inner_path(prefix),
        is_leaf_path(path),
        path[0] != prefix[0],
    ensures
        insert_spec(blobs, split_extension(prefix, child), path, value) is Ok,
{
    reveal_with_fuel(insert_spec, 2);
    let children = split_extension(prefix, child)->Branch_children;
    assert(prefix[0] < 16);
    if path.len() == 1 {
        assert(path.last() == 16);
    } else {
        assert(path.drop_last()[0] < 16);
    }
    if path[0] != 16 {
        assert(children[path[0] as int] == no_children()[path[0] as int]);
    }
}

/// Putting a value below an extension, under a path that parts from the
/// prefix at once, reads no stored node and so cannot fail.
pub proof fn lemma_insert_parted_ok(
    blobs: Map<Seq<u8>, Seq<u8>>,
    prefix: Seq<u8>,
    child: NodeModel,
    path: Seq<u8>,
    value: Seq<u8>,
)
    requires
        prefix.len() > 0,
        is_inner_path(prefix),
        is_leaf_path(path),
        path[0] != prefix[0],
    ensures
        insert_spec(blobs, NodeModel::Extension { prefix, child: Box::new(child) }, path, value) is Ok,
{
    lemma_insert_split_ok(blobs, prefix, child, path, value);
    assert(common_prefix_len(path, prefix) == 0);
}

/// Gives a key its place among the slots of a branch.
fn branch_insert(
    children: &mut Vec<Node>,
    value: &mut Option<Vec<u8>>,
    key: &Nibbles,
    at: usize,
    leaf_value: Vec<u8>,
)
    requires
        is_leaf_path(key@),
        at < key@.len(),
        old(children)@.len() == 16,
    ensures
        final(children)@.len() == 16,
        (Slots { children: models(final(children)@), value: value_model(*final(value)) }) == place(
            Slots { children: models(old(children)@), value: value_model(*old(value)) },
            key@,
            at as int,
            leaf_value@,
        ),
{
    let index = key.at(at);
    proof {
        key.lemma_fits();
    }
    if index == 16 {
        *value = Some(leaf_value);
    } else {
        proof {
            if at == key@.len() - 1 {
                assert(key@.last() == 16);
            }
            assert(key@.drop_last()[at as int] < 16);
        }
        let leaf = Node::from_leaf(key.offset(at + 1), leaf_value);
        replace_child(children, index, leaf);
    }
}

/// Puts `value` under `partial` below the node `n`, and gives the node that
/// takes the place of `n`. The digests of the stored nodes that are read on
/// the way are added to `passing_keys`. Where a stored node cannot be read,
/// the node `n` is handed back as it was.
pub fn insert_at<D: HashDB>(
    db: &D,
    passing_keys: &mut KeySet,
    n: Node,
    partial: Nibbles,
    value: Vec<u8>,
) -> (r: Result<Node, Failed>)
    requires
        n@.wf(),
        is_leaf_path(partial@),
    ensures
        match r {
            Ok(m) => insert_spec(db.blobs(), n@, partial@, value@) matches Ok(s) && s.node == m@
                && final(passing_keys)@ == old(passing_keys)@.union(s.touched) && m@.wf(),
            Err(f) => insert_spec(db.blobs(), n@, partial@, value@) == Err::<Inserted, ErrorKind>(
                f.error.kind(),
            ) && f.intact && f.node@ == n@ && old(passing_keys)@.subset_of(final(passing_keys)@),
        },
    decreases partial@.len(), insert_rank(n@),
{
    let ghost before = passing_keys@;
    assert(before.union(Set::empty()) =~= before);
    match n {
        Node::Empty => Ok(Node::from_leaf(partial, value)),
        Node::Leaf { key, value: old_value } => {
            let match_index = partial.common_prefix(&key);
            proof {
                lemma_leaf_paths(partial@, key@);
            }
            if match_index == key.len() {
                return Ok(Node::Leaf { key, value });
            }
            let mut children = empty_children();
            let mut branch_value: Option<Vec<u8>> = None;
            let ghost empty_slots = Slots { children: no_children(), value: None };
            branch_insert(&mut children, &mut branch_value, &key, match_index, old_value);
            let ghost first = Slots { children: models(children@), value: value_model(branch_value) };
            branch_insert(&mut children, &mut branch_value, &partial, match_index, value);
            proof {
                lemma_place_wf(empty_slots, key@, match_index as int, old_value@);
                lemma_place_wf(first, partial@, match_index as int, value@);
            }
            let branch = Node::from_branch(children, branch_value);
            assert(branch@.wf());
            if match_index == 0 {
                Ok(branch)
            } else {
                let prefix = partial.slice(0, match_index);
                proof {
                    assert forall|i: int| 0 <= i < prefix@.len() implies #[trigger] prefix@[i]
                        < 16 by {
                        assert(partial@.drop_last()[i] < 16);
                    }
                }
                Ok(Node::from_extension(prefix, branch))
            }
        },
        Node::Branch { children, value: branch_value } => {
            proof {
                lemma_branch_model(children, branch_value);
            }
            let mut children = children;
            if partial.at(0) == 16 {
                return Ok(Node::from_branch(children, Some(value)));
            }
            let index = partial.at(0);
            proof {
                if partial@.len() == 1 {
                    assert(partial@.last() == 16);
                }
                assert(partial@.drop_last()[0] < 16);
                lemma_skip_path(partial@, 1);
                assert(models(children@)[index as int].wf());
            }
            let ghost slots = models(children@);
            let child = replace_child(&mut children, index, Node::Empty);
            match insert_at(db, passing_keys, child, partial.offset(1), value) {
                Ok(new_child) => {
                    replace_child(&mut children, index, new_child);
                    assert(models(children@) =~= slots.update(index as int, new_child@));
                    Ok(Node::from_branch(children, branch_value))
                },
                Err(f) => {
                    replace_child(&mut children, index, f.node);
                    assert(models(children@) =~= slots);
                    Err(
                        Failed {
                            node: Node::from_branch(children, branch_value),
                            intact: true,
                            error: f.error,
                        },
                    )
                },
            }
        },
        Node::Extension { prefix, node } => {
            let match_index = partial.common_prefix(&prefix);
            proof {
                lemma_prefix_in_leaf_path(partial@, prefix@);
                lemma_common_prefix(partial@, prefix@);
                lemma_skip_path(partial@, match_index as int);
            }
            let ghost child_model = node@;
            if match_index == 0 {
                let mut children = empty_children();
                let first = prefix.at(0);
                let moved = if prefix.len() == 1 {
                    *node
                } else {
                    let rest = prefix.offset(1);
                    proof {
                        assert forall|i: int| 0 <= i < rest@.len() implies #[trigger] rest@[i]
                            < 16 by {
                            assert(prefix@[i + 1] < 16);
                        }
                    }
                    Node::from_extension(rest, *node)
                };
                assert(prefix@[0] < 16);
                replace_child(&mut children, first, moved);
                assert forall|i: int| 0 <= i < 16 implies (#[trigger] models(children@)[i]).wf() by {
                    if i != first {
                        assert(models(children@)[i] == no_children()[i]);
                    }
                }
                let branch = Node::from_branch(children, None);
                assert(branch@ == split_extension(prefix@, child_model));
                proof {
                    lemma_insert_split_ok(db.blobs(), prefix@, child_model, partial@, value@);
                }
                return insert_at(db, passing_keys, branch, partial, value);
            }
            if match_index == prefix.len() {
                match insert_at(db, passing_keys, *node, partial.offset(match_index), value) {
                    Ok(new_node) => Ok(Node::from_extension(prefix, new_node)),
                    Err(f) => Err(
                        Failed {
                            node: Node::from_extension(prefix, f.node),
                            intact: true,
                            error: f.error,
                        },
                    ),
                }
            } else {
                let rest = prefix.offset(match_index);
                let head = prefix.slice(0, match_index);
                proof {
                    assert forall|i: int| 0 <= i < rest@.len() implies #[trigger] rest@[i] < 16 by {
                        assert(prefix@[i + match_index] < 16);
                    }
                    assert forall|i: int| 0 <= i < head@.len() implies #[trigger] head@[i] < 16 by {
                        assert(prefix@[i] < 16);
                    }
                }
                let new_ext = Node::from_extension(rest, *node);
                proof {
                    lemma_insert_parted_ok(
                        db.blobs(),
                        rest@,
                        child_model,
                        partial@.skip(match_index as int),
                        value@,
                    );
                }
                match insert_at(db, passing_keys, new_ext, partial.offset(match_index), value) {
                    Ok(new_node) => Ok(Node::from_extension(head, new_node)),
                    Err(f) => Err(f),
                }
            }
        },
        Node::Hash(hash_node) => {
            passing_keys.insert(hash_node);
            match recover_from_db(db, &hash_node) {
                Ok(stored) => {
                    match insert_at(db, passing_keys, stored, partial, value) {
                        Ok(m) => {
                            proof {
                                let s = insert_spec(db.blobs(), stored@, partial@, value@)->Ok_0;
                                assert(before.insert(hash_node@).union(s.touched) =~= before.union(
                                    s.touched.insert(hash_node@),
                                ));
                            }
                            Ok(m)
                        },
                        Err(f) => Err(
                            Failed { node: Node::Hash(hash_node), intact: true, error: f.error },
                        ),
                    }
                },
                Err(e) => Err(Failed { node: Node::Hash(hash_node), intact: true, error: e }),
            }
        },
    }
}

} // verus!
