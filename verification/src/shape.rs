//! The shape of nodes is kept by every change to a trie.
use crate::delete::count_live;
use crate::delete::degenerate_spec;
use crate::delete::delete_spec;
use crate::delete::last_live;
use crate::delete::lemma_joined_paths;
use crate::delete::longest;
use crate::delete::unread;
use crate::delete::unsettled;
use crate::encoding::lemma_decode_wf;
use crate::insert::insert_rank;
use crate::insert::insert_spec;
use crate::insert::lemma_leaf_paths;
use crate::insert::lemma_place_wf;
use crate::insert::lemma_prefix_in_leaf_path;
use crate::insert::place;
use crate::insert::split_extension;
use crate::insert::Slots;
use crate::lookup::lemma_skip_path;
use crate::lookup::recover_spec;
use crate::lookup::starts_with;
use crate::nibbles::common_prefix_len;
use crate::nibbles::is_inner_path;
use crate::nibbles::is_leaf_path;
use crate::nibbles::lemma_common_prefix;
use crate::node::no_children;
use crate::node::NodeModel;
use vstd::prelude::*;

verus! {

/// What is stored under a digest is read as a node of the shape that every
/// node has, and as no reference.
pub proof fn lemma_recover_wf(blobs: Map<Seq<u8>, Seq<u8>>, digest: Seq<u8>)
    ensures
        recover_spec(blobs, digest) matches Ok(m) ==> m.wf() && !(m is Hash),
{
    if blobs.contains_key(digest) {
        lemma_decode_wf(blobs[digest], false);
    }
}

/// A part of a prefix of nibbles is a prefix of nibbles.
pub proof fn lemma_inner_parts(prefix: Seq<u8>, at: int)
    requires
        is_inner_path(prefix),
        0 <= at <= prefix.len(),
    ensures
        is_inner_path(prefix.take(at)),
        is_inner_path(prefix.skip(at)),
{
    assert forall|i: int| 0 <= i < prefix.take(at).len() implies #[trigger] prefix.take(at)[i]
        < 16 by {
        assert(prefix[i] < 16);
    }
    assert forall|i: int| 0 <= i < prefix.skip(at).len() implies #[trigger] prefix.skip(at)[i]
        < 16 by {
        assert(prefix[i + at] < 16);
    }
}

/// The first entries of a path that reaches a value, short of its end, are
/// nibbles.
pub proof fn lemma_leaf_path_head(path: Seq<u8>, at: int)
    requires
        is_leaf_path(path),
        0 <= at < path.len(),
    ensures
        is_inner_path(path.take(at)),
        at < path.len() - 1 ==> path[at] < 16,
        at == path.len() - 1 ==> path[at] == 16,
        path[at] <= 16,
{
    assert forall|i: int| 0 <= i < path.take(at).len() implies #[trigger] path.take(at)[i] < 16 by {
        assert(path.drop_last()[i] < 16);
    }
    if at < path.len() - 1 {
        assert(path.drop_last()[at] < 16);
    }
}

/// The branch that takes the place of an extension has the shape of a node.
pub proof fn lemma_split_wf(prefix: Seq<u8>, child: NodeModel)
    requires
        prefix.len() > 0,
        is_inner_path(prefix),
        child.wf(),
    ensures
        split_extension(prefix, child).wf(),
{
    lemma_inner_parts(prefix, 1);
    assert(prefix[0] < 16);
    let split = split_extension(prefix, child);
    let children = split->Branch_children;
    assert forall|i: int| 0 <= i < children.len() implies (#[trigger] children[i]).wf() by {
        if i != prefix[0] as int {
            assert(children[i] == no_children()[i]);
        }
    }
}

/// An insertion into a node of the shape that every node has gives one.
pub proof fn lemma_insert_wf(
    blobs: Map<Seq<u8>, Seq<u8>>,
    n: NodeModel,
    path: Seq<u8>,
    value: Seq<u8>,
)
    requires
        n.wf(),
        is_leaf_path(path),
    ensures
        insert_spec(blobs, n, path, value) matches Ok(s) ==> s.node.wf(),
    decreases path.len(), insert_rank(n),
{
    match n {
        NodeModel::Empty => {},
        NodeModel::Leaf { key, value: old_value } => {
            if key != path {
                lemma_leaf_paths(path, key);
                let m = common_prefix_len(path, key) as int;
                let empty_slots = Slots { children: no_children(), value: None };
                lemma_place_wf(empty_slots, key, m, old_value);
                let first = place(empty_slots, key, m, old_value);
                lemma_place_wf(first, path, m, value);
                lemma_leaf_path_head(path, m);
                let both = place(first, path, m, value);
                let branch = NodeModel::Branch { children: both.children, value: both.value };
                assert(branch.wf());
            }
        },
        NodeModel::Branch { children, value: branch_value } => {
            lemma_leaf_path_head(path, 0);
            if path[0] != 16 {
                lemma_skip_path(path, 1);
                assert(children[path[0] as int].wf());
                lemma_insert_wf(blobs, children[path[0] as int], path.skip(1), value);
                if let Ok(below) = insert_spec(blobs, children[path[0] as int], path.skip(1), value) {
                    let updated = children.update(path[0] as int, below.node);
                    assert forall|i: int| 0 <= i < updated.len() implies (#[trigger] updated[i]).wf() by {
                        if i != path[0] as int {
                            assert(children[i].wf());
                        }
                    }
                }
            } else {
                assert((NodeModel::Branch { children, value: Some(value) }).wf());
            }
        },
        NodeModel::Extension { prefix, child } => {
            let m = common_prefix_len(path, prefix) as int;
            lemma_prefix_in_leaf_path(path, prefix);
            lemma_common_prefix(path, prefix);
            lemma_skip_path(path, m);
            lemma_inner_parts(prefix, m);
            if m == 0 {
                lemma_split_wf(prefix, *child);
                lemma_insert_wf(blobs, split_extension(prefix, *child), path, value);
            } else if m == prefix.len() {
                lemma_insert_wf(blobs, *child, path.skip(m), value);
            } else {
                lemma_insert_wf(
                    blobs,
                    NodeModel::Extension { prefix: prefix.skip(m), child },
                    path.skip(m),
                    value,
                );
            }
        },
        NodeModel::Hash { digest } => {
            lemma_recover_wf(blobs, digest);
            if let Ok(stored) = recover_spec(blobs, digest) {
                lemma_insert_wf(blobs, stored, path, value);
            }
        },
    }
}

/// The slot that `last_live` names is in the branch and is not empty.
pub proof fn lemma_last_live(children: Seq<NodeModel>, count: nat)
    requires
        count <= children.len(),
    ensures
        count_live(children, count) > 0 ==> 0 <= last_live(children, count) < count && !(
        children[last_live(children, count)] is Empty),
        count_live(children, count) == 0 ==> forall|i: int|
            0 <= i < count ==> (#[trigger] children[i]) is Empty,
        count_live(children, count) == 1 ==> forall|i: int|
            0 <= i < count && i != last_live(children, count) ==> (#[trigger] children[i]) is Empty,
    decreases count,
{
    if count > 0 {
        lemma_last_live(children, (count - 1) as nat);
    }
}

/// Bringing a node of the shape that every node has into shape gives one.
pub proof fn lemma_degenerate_wf(blobs: Map<Seq<u8>, Seq<u8>>, n: NodeModel)
    requires
        n.wf(),
    ensures
        degenerate_spec(blobs, n) matches Ok(s) ==> s.node.wf(),
    decreases unsettled(n), unread(n),
{
    match n {
        NodeModel::Branch { children, value } => {
            let live = count_live(children, children.len());
            let at = last_live(children, children.len());
            if live == 0 && value is Some {
                let key = seq![16u8];
                assert(key.drop_last() =~= Seq::<u8>::empty());
                assert(key.last() == 16);
                assert(is_leaf_path(key));
            } else if live == 1 && value is None && 0 <= at < children.len() {
                assert(children[at].wf());
                let single = seq![at as u8];
                assert(single[0] < 16);
                assert(is_inner_path(single));
                lemma_degenerate_wf(
                    blobs,
                    NodeModel::Extension { prefix: seq![at as u8], child: Box::new(children[at]) },
                );
            }
        },
        NodeModel::Extension { prefix, child } => match *child {
            NodeModel::Extension { prefix: below, child: grandchild } => {
                assert(child.wf());
                if below.len() > 0 {
                    lemma_joined_paths(prefix, below);
                    assert(grandchild.wf());
                    lemma_degenerate_wf(
                        blobs,
                        NodeModel::Extension { prefix: prefix + below, child: grandchild },
                    );
                }
            },
            NodeModel::Leaf { key, value } => {
                assert(child.wf());
                lemma_joined_paths(prefix, key);
            },
            NodeModel::Hash { digest } => {
                lemma_recover_wf(blobs, digest);
                if blobs.contains_key(digest) && prefix.len() <= longest() {
                    if let Ok(stored) = recover_spec(blobs, digest) {
                        lemma_degenerate_wf(
                            blobs,
                            NodeModel::Extension { prefix, child: Box::new(stored) },
                        );
                    }
                }
            },
            _ => {},
        },
        _ => {},
    }
}

/// A removal from a node of the shape that every node has gives one.
pub proof fn lemma_delete_wf(blobs: Map<Seq<u8>, Seq<u8>>, n: NodeModel, path: Seq<u8>)
    requires
        n.wf(),
        is_leaf_path(path),
    ensures
        delete_spec(blobs, n, path) matches Ok(s) ==> s.node.wf(),
    decreases path.len(), (if n is Hash {
        1nat
    } else {
        0nat
    }),
{
    match n {
        NodeModel::Branch { children, value } => {
            lemma_leaf_path_head(path, 0);
            if path[0] == 16 {
                lemma_degenerate_wf(blobs, NodeModel::Branch { children, value: None });
            } else {
                lemma_skip_path(path, 1);
                lemma_delete_wf(blobs, children[path[0] as int], path.skip(1));
                if let Ok(below) = delete_spec(blobs, children[path[0] as int], path.skip(1)) {
                    if below.deleted {
                        let weakened = NodeModel::Branch {
                            children: children.update(path[0] as int, below.node),
                            value,
                        };
                        assert(weakened.wf());
                        lemma_degenerate_wf(blobs, weakened);
                    }
                }
            }
        },
        NodeModel::Extension { prefix, child } => {
            if starts_with(path, prefix) {
                crate::lookup::lemma_starts_with(path, prefix);
                lemma_prefix_in_leaf_path(path, prefix);
                lemma_skip_path(path, prefix.len() as int);
                lemma_delete_wf(blobs, *child, path.skip(prefix.len() as int));
                if let Ok(below) = delete_spec(blobs, *child, path.skip(prefix.len() as int)) {
                    if below.deleted {
                        lemma_degenerate_wf(
                            blobs,
                            NodeModel::Extension { prefix, child: Box::new(below.node) },
                        );
                    }
                }
            }
        },
        NodeModel::Hash { digest } => {
            lemma_recover_wf(blobs, digest);
            if let Ok(stored) = recover_spec(blobs, digest) {
                lemma_delete_wf(blobs, stored, path);
            }
        },
        _ => {},
    }
}

/// What an insertion puts in the place of a node that is no reference is no
/// reference.
pub proof fn lemma_insert_no_reference(
    blobs: Map<Seq<u8>, Seq<u8>>,
    n: NodeModel,
    path: Seq<u8>,
    value: Seq<u8>,
)
    ensures
        insert_spec(blobs, n, path, value) matches Ok(s) ==> !(s.node is Hash) || n is Branch
            || n is Extension,
        !(n is Hash) ==> (insert_spec(blobs, n, path, value) matches Ok(s) ==> !(s.node is Hash)),
    decreases path.len(), crate::insert::insert_rank(n),
{
    match n {
        NodeModel::Extension { prefix, child } => {
            let m = crate::nibbles::common_prefix_len(path, prefix) as int;
            if prefix.len() == 0 || m >= path.len() {
            } else if m == 0 {
                lemma_insert_no_reference(
                    blobs,
                    crate::insert::split_extension(prefix, *child),
                    path,
                    value,
                );
            }
        },
        NodeModel::Hash { digest } => {
            if let Ok(stored) = recover_spec(blobs, digest) {
                if !(stored is Hash) {
                    lemma_insert_no_reference(blobs, stored, path, value);
                }
            }
        },
        _ => {},
    }
}

/// What bringing a node into shape gives is no reference, if the node was
/// none.
pub proof fn lemma_degenerate_no_reference(blobs: Map<Seq<u8>, Seq<u8>>, n: NodeModel)
    requires
        !(n is Hash),
    ensures
        crate::delete::degenerate_spec(blobs, n) matches Ok(s) ==> !(s.node is Hash),
    decreases crate::delete::unsettled(n), crate::delete::unread(n),
{
    match n {
        NodeModel::Branch { children, value } => {
            let live = crate::delete::count_live(children, children.len());
            let at = crate::delete::last_live(children, children.len());
            if live == 1 && value is None && 0 <= at < children.len() {
                lemma_degenerate_no_reference(
                    blobs,
                    NodeModel::Extension { prefix: seq![at as u8], child: Box::new(children[at]) },
                );
            }
        },
        NodeModel::Extension { prefix, child } => match *child {
            NodeModel::Extension { prefix: below, child: grandchild } => {
                if below.len() > 0 {
                    lemma_degenerate_no_reference(
                        blobs,
                        NodeModel::Extension { prefix: prefix + below, child: grandchild },
                    );
                }
            },
            NodeModel::Hash { digest } => {
                if blobs.contains_key(digest) && prefix.len() <= crate::delete::longest() {
                    if let Ok(stored) = recover_spec(blobs, digest) {
                        if !(stored is Hash) {
                            lemma_degenerate_no_reference(
                                blobs,
                                NodeModel::Extension { prefix, child: Box::new(stored) },
                            );
                        }
                    }
                }
            },
            _ => {},
        },
        _ => {},
    }
}

/// What a removal puts in the place of a node is no reference.
pub proof fn lemma_delete_no_reference(blobs: Map<Seq<u8>, Seq<u8>>, n: NodeModel, path: Seq<u8>)
    ensures
        !(n is Hash) ==> (delete_spec(blobs, n, path) matches Ok(s) ==> !(s.node is Hash)),
    decreases path.len(), (if n is Hash {
        1nat
    } else {
        0nat
    }),
{
    match n {
        NodeModel::Branch { children, value } => {
            if path.len() == 0 {
            } else if path[0] == 16 {
                lemma_degenerate_no_reference(blobs, NodeModel::Branch { children, value: None });
            } else if path[0] < children.len() {
                if let Ok(below) = delete_spec(blobs, children[path[0] as int], path.skip(1)) {
                    if below.deleted {
                        lemma_degenerate_no_reference(
                            blobs,
                            NodeModel::Branch {
                                children: children.update(path[0] as int, below.node),
                                value,
                            },
                        );
                    }
                }
            }
        },
        NodeModel::Extension { prefix, child } => {
            if prefix.len() > 0 && crate::lookup::starts_with(path, prefix) {
                if let Ok(below) = delete_spec(blobs, *child, path.skip(prefix.len() as int)) {
                    if below.deleted {
                        lemma_degenerate_no_reference(
                            blobs,
                            NodeModel::Extension { prefix, child: Box::new(below.node) },
                        );
                    }
                }
            }
        },
        _ => {},
    }
}

} // verus!
