//! The one shape of a trie that is held in memory: no extension above a
//! leaf or another extension, no branch with fewer than two slots in use.
//! Insertions and removals keep a trie in that shape.
use crate::delete::count_live;
use crate::delete::degenerate_spec;
use crate::delete::delete_spec;
use crate::delete::last_live;
use crate::delete::lemma_joined_paths;
use crate::delete::unread;
use crate::delete::unsettled;
use crate::insert::insert_rank;
use crate::insert::insert_spec;
use crate::insert::lemma_leaf_paths;
use crate::insert::lemma_prefix_in_leaf_path;
use crate::insert::place;
use crate::insert::split_extension;
use crate::insert::Slots;
use crate::lookup::lemma_skip_path;
use crate::lookup::starts_with;
use crate::nibbles::common_prefix_len;
use crate::nibbles::is_inner_path;
use crate::nibbles::is_leaf_path;
use crate::nibbles::lemma_common_prefix;
use crate::node::no_children;
use crate::node::NodeModel;
use crate::shape::lemma_inner_parts;
use crate::shape::lemma_last_live;
use crate::shape::lemma_leaf_path_head;
use crate::shape::lemma_split_wf;
use vstd::prelude::*;

verus! {

/// The trie below the node is all in memory: it holds no reference.
pub open spec fn in_memory(n: NodeModel) -> bool
    decreases n,
{
    match n {
        NodeModel::Hash { digest } => false,
        NodeModel::Extension { prefix, child } => in_memory(*child),
        NodeModel::Branch { children, value } => forall|i: int|
            0 <= i < children.len() ==> in_memory(#[trigger] children[i]),
        _ => true,
    }
}

/// The number of slots of a branch that are in use, its own value counted
/// as one.
pub open spec fn slots_used(children: Seq<NodeModel>, value: Option<Seq<u8>>) -> nat {
    count_live(children, children.len()) + if value is Some {
        1nat
    } else {
        0nat
    }
}

/// Below the node, every extension stands above a branch, and every branch
/// has two slots in use or more.
pub open spec fn settled(n: NodeModel) -> bool
    decreases n,
{
    match n {
        NodeModel::Extension { prefix, child } => *child is Branch && settled(*child),
        NodeModel::Branch { children, value } => slots_used(children, value) >= 2 && forall|i: int|
            0 <= i < children.len() ==> settled(#[trigger] children[i]),
        _ => true,
    }
}

/// A trie in memory, in its one shape.
pub open spec fn canonical(n: NodeModel) -> bool {
    n.wf() && in_memory(n) && settled(n)
}

/// A node that a removal has weakened: what is below it is in shape, a
/// branch has a slot in use, and an extension stands above something.
pub open spec fn weakened(n: NodeModel) -> bool {
    n.wf() && in_memory(n) && match n {
        NodeModel::Branch { children, value } => slots_used(children, value) >= 1 && forall|i: int|
            0 <= i < children.len() ==> settled(#[trigger] children[i]),
        NodeModel::Extension { prefix, child } => settled(*child) && !(*child is Empty),
        _ => true,
    }
}

/// Sixteen empty slots hold nothing.
pub proof fn lemma_count_none(count: nat)
    requires
        count <= 16,
    ensures
        count_live(no_children(), count) == 0,
    decreases count,
{
    if count > 0 {
        lemma_count_none((count - 1) as nat);
    }
}

/// The number of slots in use after one slot was given another node.
pub proof fn lemma_count_update(children: Seq<NodeModel>, at: int, node: NodeModel, count: nat)
    requires
        0 <= at < children.len(),
        count <= children.len(),
    ensures
        count_live(children.update(at, node), count) == count_live(children, count) + (if at
            < count {
            (if node is Empty {
                0int
            } else {
                1int
            }) - (if children[at] is Empty {
                0int
            } else {
                1int
            })
        } else {
            0int
        }),
    decreases count,
{
    if count > 0 {
        lemma_count_update(children, at, node, (count - 1) as nat);
    }
}

/// The branch that holds two keys which part at the place `at` is in shape.
pub proof fn lemma_two_keys_canonical(
    key: Seq<u8>,
    old_value: Seq<u8>,
    path: Seq<u8>,
    value: Seq<u8>,
    at: int,
)
    requires
        is_leaf_path(key),
        is_leaf_path(path),
        0 <= at < key.len(),
        at < path.len(),
        key[at] != path[at],
    ensures
        ({
            let first = place(Slots { children: no_children(), value: None }, key, at, old_value);
            let both = place(first, path, at, value);
            canonical(NodeModel::Branch { children: both.children, value: both.value })
        }),
{
    let none = Slots { children: no_children(), value: None };
    let first = place(none, key, at, old_value);
    let both = place(first, path, at, value);
    let branch = NodeModel::Branch { children: both.children, value: both.value };
    crate::insert::lemma_place_wf(none, key, at, old_value);
    crate::insert::lemma_place_wf(first, path, at, value);
    lemma_leaf_path_head(key, at);
    lemma_leaf_path_head(path, at);
    lemma_count_none(16);
    if key[at] != 16 {
        lemma_count_update(
            no_children(),
            key[at] as int,
            NodeModel::Leaf { key: key.skip(at + 1), value: old_value },
            16,
        );
    }
    if path[at] != 16 {
        lemma_count_update(
            first.children,
            path[at] as int,
            NodeModel::Leaf { key: path.skip(at + 1), value },
            16,
        );
    }
    assert(branch.wf());
    assert forall|i: int| 0 <= i < both.children.len() implies in_memory(
        #[trigger] both.children[i],
    ) && settled(both.children[i]) by {
        if key[at] != 16 && i == key[at] as int {
        } else if path[at] != 16 && i == path[at] as int {
        } else {
            assert(both.children[i] == no_children()[i]);
        }
    }
}

/// The branch that takes the place of an extension, with a value put into
/// it under a path that parts from the prefix at once, is in shape.
pub proof fn lemma_insert_into_split(
    blobs: Map<Seq<u8>, Seq<u8>>,
    prefix: Seq<u8>,
    child: NodeModel,
    path: Seq<u8>,
    value: Seq<u8>,
)
    requires
        canonical(NodeModel::Extension { prefix, child: Box::new(child) }),
        is_leaf_path(path),
        path[0] != prefix[0],
    ensures
        insert_spec(blobs, split_extension(prefix, child), path, value) matches Ok(s) && canonical(
            s.node,
        ) && s.node is Branch,
{
    reveal_with_fuel(insert_spec, 2);
    let split = split_extension(prefix, child);
    let children = split->Branch_children;
    lemma_split_wf(prefix, child);
    lemma_inner_parts(prefix, 1);
    lemma_leaf_path_head(path, 0);
    let moved = if prefix.len() == 1 {
        child
    } else {
        NodeModel::Extension { prefix: prefix.skip(1), child: Box::new(child) }
    };
    assert(prefix[0] < 16);
    assert(children[prefix[0] as int] == moved);
    lemma_count_none(16);
    lemma_count_update(no_children(), prefix[0] as int, moved, 16);
    assert(in_memory(moved) && settled(moved));
    assert forall|i: int| 0 <= i < children.len() implies in_memory(#[trigger] children[i])
        && settled(children[i]) by {
        if i != prefix[0] as int {
            assert(children[i] == no_children()[i]);
        }
    }
    if path[0] == 16 {
        let result = NodeModel::Branch { children, value: Some(value) };
        assert(result.wf());
    } else {
        let d = path[0] as int;
        lemma_skip_path(path, 1);
        assert(children[d] == NodeModel::Empty);
        let leaf = NodeModel::Leaf { key: path.skip(1), value };
        let updated = children.update(d, leaf);
        lemma_count_update(children, d, leaf, 16);
        let result = NodeModel::Branch { children: updated, value: None };
        assert forall|i: int| 0 <= i < updated.len() implies (#[trigger] updated[i]).wf()
            && in_memory(updated[i]) && settled(updated[i]) by {
            if i != d {
                assert(updated[i] == children[i]);
                assert(children[i].wf());
            }
        }
        assert(result.wf());
    }
}

/// An insertion into a trie in shape gives a trie in shape, and never fails.
pub proof fn lemma_insert_canonical(
    blobs: Map<Seq<u8>, Seq<u8>>,
    n: NodeModel,
    path: Seq<u8>,
    value: Seq<u8>,
)
    requires
        canonical(n),
        is_leaf_path(path),
    ensures
        insert_spec(blobs, n, path, value) matches Ok(s) && canonical(s.node) && !(s.node is Empty)
            && (n is Branch || (n is Extension && common_prefix_len(path, n->prefix) == 0)
            ==> s.node is Branch),
    decreases path.len(), insert_rank(n),
{
    match n {
        NodeModel::Empty => {},
        NodeModel::Leaf { key, value: old_value } => {
            if key != path {
                lemma_leaf_paths(path, key);
                lemma_common_prefix(path, key);
                let m = common_prefix_len(path, key) as int;
                lemma_two_keys_canonical(key, old_value, path, value, m);
                lemma_leaf_path_head(path, m);
            }
        },
        NodeModel::Branch { children, value: branch_value } => {
            lemma_leaf_path_head(path, 0);
            if path[0] == 16 {
                let result = NodeModel::Branch { children, value: Some(value) };
                assert(result.wf());
            } else {
                let d = path[0] as int;
                lemma_skip_path(path, 1);
                assert(children[d].wf() && in_memory(children[d]) && settled(children[d]));
                lemma_insert_canonical(blobs, children[d], path.skip(1), value);
                let below = insert_spec(blobs, children[d], path.skip(1), value)->Ok_0;
                let updated = children.update(d, below.node);
                lemma_count_update(children, d, below.node, 16);
                assert forall|i: int| 0 <= i < updated.len() implies (#[trigger] updated[i]).wf()
                    && in_memory(updated[i]) && settled(updated[i]) by {
                    if i != d {
                        assert(updated[i] == children[i]);
                        assert(children[i].wf());
                    }
                }
                let result = NodeModel::Branch { children: updated, value: branch_value };
                assert(result.wf());
            }
        },
        NodeModel::Extension { prefix, child } => {
            let m = common_prefix_len(path, prefix) as int;
            lemma_prefix_in_leaf_path(path, prefix);
            lemma_common_prefix(path, prefix);
            lemma_skip_path(path, m);
            lemma_inner_parts(prefix, m);
            if m == 0 {
                lemma_insert_into_split(blobs, prefix, *child, path, value);
            } else if m == prefix.len() {
                lemma_insert_canonical(blobs, *child, path.skip(m), value);
            } else {
                let rest = NodeModel::Extension { prefix: prefix.skip(m), child };
                assert(canonical(rest));
                assert(common_prefix_len(path.skip(m), prefix.skip(m)) == 0) by {
                    assert(path.skip(m)[0] == path[m]);
                    assert(prefix.skip(m)[0] == prefix[m]);
                }
                lemma_insert_canonical(blobs, rest, path.skip(m), value);
            }
        },
        NodeModel::Hash { digest } => {},
    }
}

/// Bringing a weakened node into shape gives a trie in shape, and never
/// fails; it gives the empty node only for the empty node.
pub proof fn lemma_degenerate_canonical(blobs: Map<Seq<u8>, Seq<u8>>, n: NodeModel)
    requires
        weakened(n),
    ensures
        degenerate_spec(blobs, n) matches Ok(s) && canonical(s.node) && (!(n is Empty) ==> !(
        s.node is Empty)),
    decreases unsettled(n), unread(n),
{
    match n {
        NodeModel::Branch { children, value } => {
            let live = count_live(children, children.len());
            let at = last_live(children, children.len());
            lemma_last_live(children, children.len());
            if live == 0 && value is Some {
                let key = seq![16u8];
                assert(key.drop_last() =~= Seq::<u8>::empty());
                assert(key.last() == 16);
                assert(is_leaf_path(key));
                let leaf = NodeModel::Leaf { key, value: value->Some_0 };
                assert(canonical(leaf));
            } else if live == 1 && value is None && 0 <= at < children.len() {
                let single = seq![at as u8];
                assert(single[0] < 16);
                assert(is_inner_path(single));
                assert(children[at].wf() && in_memory(children[at]) && settled(children[at]));
                let ext = NodeModel::Extension { prefix: single, child: Box::new(children[at]) };
                assert(ext.wf());
                assert(in_memory(ext));
                assert(weakened(ext));
                lemma_degenerate_canonical(
                    blobs,
                    NodeModel::Extension { prefix: single, child: Box::new(children[at]) },
                );
            } else {
                assert forall|i: int| 0 <= i < children.len() implies (#[trigger] children[i]).wf()
                    && in_memory(children[i]) && settled(children[i]) by {}
            }
        },
        NodeModel::Extension { prefix, child } => {
            assert(child.wf());
            assert(in_memory(*child));
            assert(settled(*child));
            match *child {
                NodeModel::Extension { prefix: below, child: grandchild } => {
                    lemma_joined_paths(prefix, below);
                    assert(grandchild.wf());
                    assert(in_memory(*grandchild));
                    assert(settled(*grandchild));
                    assert(*grandchild is Branch);
                    let merged = NodeModel::Extension { prefix: prefix + below, child: grandchild };
                    assert(merged.wf());
                    assert(in_memory(merged));
                    assert(weakened(merged));
                    lemma_degenerate_canonical(
                        blobs,
                        NodeModel::Extension { prefix: prefix + below, child: grandchild },
                    );
                },
                NodeModel::Leaf { key, value } => {
                    lemma_joined_paths(prefix, key);
                    let joined = NodeModel::Leaf { key: prefix + key, value };
                    assert(joined.wf());
                },
                NodeModel::Branch { children, value } => {
                    assert(settled(n));
                },
                _ => {},
            }
        },
        _ => {},
    }
}

/// A removal from a trie in shape gives a trie in shape, and never fails;
/// below a branch or an extension something is always left.
pub proof fn lemma_delete_canonical(blobs: Map<Seq<u8>, Seq<u8>>, n: NodeModel, path: Seq<u8>)
    requires
        canonical(n),
        is_leaf_path(path),
    ensures
        delete_spec(blobs, n, path) matches Ok(s) && canonical(s.node) && (n is Branch
            || n is Extension ==> !(s.node is Empty)),
    decreases path.len(), (if n is Hash {
        1nat
    } else {
        0nat
    }),
{
    match n {
        NodeModel::Branch { children, value } => {
            lemma_leaf_path_head(path, 0);
            if path[0] == 16 {
                let less = NodeModel::Branch { children, value: None };
                assert(less.wf());
                lemma_degenerate_canonical(blobs, less);
            } else {
                let d = path[0] as int;
                lemma_skip_path(path, 1);
                assert(children[d].wf() && in_memory(children[d]) && settled(children[d]));
                lemma_delete_canonical(blobs, children[d], path.skip(1));
                let below = delete_spec(blobs, children[d], path.skip(1))->Ok_0;
                if below.deleted {
                    let updated = children.update(d, below.node);
                    lemma_count_update(children, d, below.node, 16);
                    assert forall|i: int| 0 <= i < updated.len() implies (
                    #[trigger] updated[i]).wf() && in_memory(updated[i]) && settled(
                        updated[i],
                    ) by {
                        if i != d {
                            assert(updated[i] == children[i]);
                            assert(children[i].wf());
                        }
                    }
                    let less = NodeModel::Branch { children: updated, value };
                    assert(less.wf());
                    lemma_degenerate_canonical(blobs, less);
                }
            }
        },
        NodeModel::Extension { prefix, child } => {
            if starts_with(path, prefix) {
                crate::laws::lemma_leaf_after_prefix(path, prefix);
                lemma_delete_canonical(blobs, *child, path.skip(prefix.len() as int));
                let below = delete_spec(blobs, *child, path.skip(prefix.len() as int))->Ok_0;
                if below.deleted {
                    let less = NodeModel::Extension { prefix, child: Box::new(below.node) };
                    lemma_degenerate_canonical(blobs, less);
                }
            }
        },
        _ => {},
    }
}

} // verus!
