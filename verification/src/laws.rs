//! What the operations of a trie mean for the values under its keys.
use crate::delete::count_live;
use crate::delete::degenerate_spec;
use crate::delete::delete_spec;
use crate::delete::last_live;
use crate::delete::lemma_joined_paths;
use crate::delete::unread;
use crate::delete::unsettled;
use crate::db::without;
use crate::encoding::null_blob;
use crate::encoding::pending_node;
use crate::encoding::raw_of;
use crate::hasher::keccak256_of;
use crate::insert::insert_rank;
use crate::insert::insert_spec;
use crate::insert::lemma_leaf_paths;
use crate::insert::lemma_prefix_in_leaf_path;
use crate::insert::place;
use crate::insert::split_extension;
use crate::insert::Slots;
use crate::lookup::get_spec;
use crate::lookup::lemma_skip_path;
use crate::lookup::recover_spec;
use crate::lookup::starts_with;
use crate::nibbles::common_prefix_len;
use crate::nibbles::is_inner_path;
use crate::nibbles::is_leaf_path;
use crate::nibbles::lemma_common_prefix;
use crate::nibbles::path_of;
use crate::nibbles::unpack;
use crate::node::no_children;
use crate::node::NodeModel;
use crate::shape::lemma_delete_wf;
use crate::shape::lemma_inner_parts;
use crate::shape::lemma_insert_wf;
use crate::shape::lemma_last_live;
use crate::shape::lemma_leaf_path_head;
use crate::shape::lemma_recover_wf;
use crate::shape::lemma_split_wf;
use crate::trie::commit_blobs;
use crate::trie::commit_store;
use crate::trie::nothing_pending;
use crate::trie::proof_spec;
use vstd::prelude::*;

verus! {

/// Two sequences are the same exactly if they are the same before and from
/// a position on.
pub proof fn lemma_same_parts(a: Seq<u8>, b: Seq<u8>, at: int)
    requires
        0 <= at <= b.len(),
    ensures
        a == b <==> at <= a.len() && a.take(at) == b.take(at) && a.skip(at) == b.skip(at),
{
    if at <= a.len() && a.take(at) == b.take(at) && a.skip(at) == b.skip(at) {
        assert(a =~= a.take(at) + a.skip(at));
        assert(b =~= b.take(at) + b.skip(at));
    }
}

/// A path begins with a prefix exactly if it begins with the first part of
/// the prefix and goes on with the rest.
pub proof fn lemma_starts_with_parts(path: Seq<u8>, prefix: Seq<u8>, at: int)
    requires
        0 <= at <= prefix.len(),
    ensures
        starts_with(path, prefix) <==> starts_with(path, prefix.take(at)) && starts_with(
            path.skip(at),
            prefix.skip(at),
        ),
        starts_with(path, prefix) ==> path.skip(prefix.len() as int) == path.skip(at).skip(
            prefix.len() - at,
        ),
{
    let n = prefix.len() as int;
    if starts_with(path, prefix) {
        assert(path.take(at) =~= prefix.take(at)) by {
            assert forall|i: int| 0 <= i < at implies path.take(at)[i] == prefix.take(at)[i] by {
                assert(path.take(n)[i] == prefix[i]);
            }
        }
        assert(path.skip(at).take(n - at) =~= prefix.skip(at)) by {
            assert forall|i: int| 0 <= i < n - at implies path.skip(at).take(n - at)[i]
                == prefix.skip(at)[i] by {
                assert(path.take(n)[i + at] == prefix[i + at]);
            }
        }
        assert(path.skip(n) =~= path.skip(at).skip(n - at));
    }
    if starts_with(path, prefix.take(at)) && starts_with(path.skip(at), prefix.skip(at)) {
        assert(path.take(n) =~= prefix) by {
            assert forall|i: int| 0 <= i < n implies path.take(n)[i] == prefix[i] by {
                if i < at {
                    assert(path.take(at)[i] == prefix.take(at)[i]);
                } else {
                    assert(path.skip(at).take(n - at)[i - at] == prefix.skip(at)[i - at]);
                }
            }
        }
    }
}

/// A path that reaches a value and begins with a prefix of nibbles goes on
/// after the prefix, with a path that reaches a value.
pub proof fn lemma_leaf_after_prefix(path: Seq<u8>, prefix: Seq<u8>)
    requires
        is_leaf_path(path),
        is_inner_path(prefix),
        starts_with(path, prefix),
    ensures
        path.len() > prefix.len(),
        is_leaf_path(path.skip(prefix.len() as int)),
{
    if path.len() == prefix.len() {
        assert(path.take(prefix.len() as int) =~= path);
        assert(prefix[prefix.len() - 1] < 16);
    }
    lemma_skip_path(path, prefix.len() as int);
}

/// A path that reaches a value and begins with the terminator is the
/// terminator alone.
pub proof fn lemma_only_terminator(path: Seq<u8>)
    requires
        is_leaf_path(path),
        path[0] == 16,
    ensures
        path == seq![16u8],
{
    if path.len() > 1 {
        assert(path.drop_last()[0] < 16);
    }
    assert(path =~= seq![16u8]);
}

/// Two paths with the same first entry are the same exactly if what follows
/// it is the same.
pub proof fn lemma_same_tail(a: Seq<u8>, b: Seq<u8>)
    requires
        a.len() > 0,
        b.len() > 0,
        a[0] == b[0],
    ensures
        a == b <==> a.skip(1) == b.skip(1),
{
    if a.skip(1) == b.skip(1) {
        assert(a =~= seq![a[0]] + a.skip(1));
        assert(b =~= seq![b[0]] + b.skip(1));
    }
}

/// The branch that holds two keys which part at their first entry gives each
/// key its value, and no other path a value.
pub proof fn lemma_two_keys(
    blobs: Map<Seq<u8>, Seq<u8>>,
    a: Seq<u8>,
    a_value: Seq<u8>,
    b: Seq<u8>,
    b_value: Seq<u8>,
    q: Seq<u8>,
)
    requires
        is_leaf_path(a),
        is_leaf_path(b),
        is_leaf_path(q),
        a[0] != b[0],
    ensures
        ({
            let first = place(Slots { children: no_children(), value: None }, a, 0, a_value);
            let both = place(first, b, 0, b_value);
            get_spec(blobs, NodeModel::Branch { children: both.children, value: both.value }, q)
                == (if q == b {
                Ok::<Option<Seq<u8>>, crate::errors::ErrorKind>(Some(b_value))
            } else if q == a {
                Ok(Some(a_value))
            } else {
                Ok(None)
            })
        }),
{
    let first = place(Slots { children: no_children(), value: None }, a, 0, a_value);
    let both = place(first, b, 0, b_value);
    let branch = NodeModel::Branch { children: both.children, value: both.value };
    reveal_with_fuel(get_spec, 3);
    lemma_leaf_path_head(a, 0);
    lemma_leaf_path_head(b, 0);
    lemma_leaf_path_head(q, 0);
    if a[0] == 16 {
        lemma_only_terminator(a);
    }
    if b[0] == 16 {
        lemma_only_terminator(b);
    }
    if q[0] == 16 {
        lemma_only_terminator(q);
    } else {
        let d = q[0] as int;


        if d == b[0] {
            lemma_same_tail(q, b);
            assert(both.children[d] == (NodeModel::Leaf { key: b.skip(1), value: b_value }));
        } else if d == a[0] {
            lemma_same_tail(q, a);
            assert(both.children[d] == (NodeModel::Leaf { key: a.skip(1), value: a_value }));
        } else {
            assert(both.children[d] == NodeModel::Empty);
        }
    }
}

/// Giving a key its place in a branch looks at the key from the place on.
pub proof fn lemma_place_skip(slots: Slots, key: Seq<u8>, at: int, value: Seq<u8>)
    requires
        0 <= at < key.len(),
    ensures
        place(slots, key, at, value) == place(slots, key.skip(at), 0, value),
{
    assert(key.skip(at).skip(1) =~= key.skip(at + 1));
}

/// The branch that takes the place of an extension gives every path what
/// the extension gave it.
pub proof fn lemma_split_get(
    blobs: Map<Seq<u8>, Seq<u8>>,
    prefix: Seq<u8>,
    child: NodeModel,
    q: Seq<u8>,
)
    requires
        prefix.len() > 0,
        is_inner_path(prefix),
        is_leaf_path(q),
    ensures
        get_spec(blobs, split_extension(prefix, child), q) == get_spec(
            blobs,
            NodeModel::Extension { prefix, child: Box::new(child) },
            q,
        ),
{
    let ext = NodeModel::Extension { prefix, child: Box::new(child) };
    let split = split_extension(prefix, child);
    reveal_with_fuel(get_spec, 3);
    lemma_leaf_path_head(q, 0);
    assert(prefix[0] < 16);
    lemma_starts_with_parts(q, prefix, 1);
    let head = prefix.take(1);
    if q[0] == prefix[0] {
        assert(q.take(1) =~= head);
        if prefix.len() == 1 {
            assert(prefix.skip(1) =~= Seq::<u8>::empty());
            assert(q.skip(1).take(0) =~= Seq::<u8>::empty());
            assert(prefix =~= head);
        } else {
            let moved = NodeModel::Extension { prefix: prefix.skip(1), child: Box::new(child) };
            assert(split->Branch_children[q[0] as int] == moved);
        }
    } else {
        if starts_with(q, head) {
            assert(q.take(1)[0] == head[0]);
        }
        if q[0] != 16 {
            assert(split->Branch_children[q[0] as int] == NodeModel::Empty);
        }
    }
}

/// After an insertion, the key that was inserted has the new value, and
/// every other key has what it had before.
pub proof fn lemma_insert_get(
    blobs: Map<Seq<u8>, Seq<u8>>,
    n: NodeModel,
    path: Seq<u8>,
    value: Seq<u8>,
    q: Seq<u8>,
)
    requires
        n.wf(),
        is_leaf_path(path),
        is_leaf_path(q),
        insert_spec(blobs, n, path, value) is Ok,
    ensures
        get_spec(blobs, insert_spec(blobs, n, path, value)->Ok_0.node, q) == (if q == path {
            Ok::<Option<Seq<u8>>, crate::errors::ErrorKind>(Some(value))
        } else {
            get_spec(blobs, n, q)
        }),
    decreases path.len(), insert_rank(n),
{
    let result = insert_spec(blobs, n, path, value)->Ok_0.node;
    match n {
        NodeModel::Empty => {},
        NodeModel::Leaf { key, value: old_value } => {
            if key != path {
                lemma_leaf_paths(path, key);
                lemma_common_prefix(path, key);
                let m = common_prefix_len(path, key) as int;
                let empty_slots = Slots { children: no_children(), value: None };
                let first = place(empty_slots, key, m, old_value);
                let both = place(first, path, m, value);
                let branch = NodeModel::Branch { children: both.children, value: both.value };
                lemma_place_skip(empty_slots, key, m, old_value);
                lemma_place_skip(first, path, m, value);
                lemma_skip_path(path, m);
                lemma_skip_path(key, m);
                lemma_leaf_path_head(path, m);
                let shared = path.take(m);
                if m == 0 {
                    assert(path.skip(0) =~= path);
                    assert(key.skip(0) =~= key);
                    lemma_two_keys(blobs, key, old_value, path, value, q);
                } else if starts_with(q, shared) {
                    lemma_leaf_after_prefix(q, shared);
                    lemma_two_keys(
                        blobs,
                        key.skip(m),
                        old_value,
                        path.skip(m),
                        value,
                        q.skip(m),
                    );
                    lemma_same_parts(q, path, m);
                    lemma_same_parts(q, key, m);
                } else {
                    lemma_same_parts(q, path, m);
                    lemma_same_parts(q, key, m);
                }
            }
        },
        NodeModel::Branch { children, value: branch_value } => {
            lemma_leaf_path_head(path, 0);
            lemma_leaf_path_head(q, 0);
            if path[0] == 16 {
                lemma_only_terminator(path);
                if q[0] == 16 {
                    lemma_only_terminator(q);
                }
            } else {
                let d = path[0] as int;
                lemma_skip_path(path, 1);
                if q[0] == 16 {
                } else if q[0] == path[0] {
                    lemma_skip_path(q, 1);
                    assert(children[d].wf());
                    lemma_insert_get(blobs, children[d], path.skip(1), value, q.skip(1));
                    lemma_same_tail(q, path);
                } else {
                }
            }
        },
        NodeModel::Extension { prefix, child } => {
            let m = common_prefix_len(path, prefix) as int;
            lemma_prefix_in_leaf_path(path, prefix);
            lemma_common_prefix(path, prefix);
            lemma_skip_path(path, m);
            lemma_inner_parts(prefix, m);
            if m == 0 {
                lemma_split_wf(prefix, *child);
                lemma_split_get(blobs, prefix, *child, q);
                lemma_insert_get(blobs, split_extension(prefix, *child), path, value, q);
            } else if m == prefix.len() {
                assert(prefix.take(m) =~= prefix);
                if starts_with(q, prefix) {
                    lemma_leaf_after_prefix(q, prefix);
                    lemma_insert_get(blobs, *child, path.skip(m), value, q.skip(m));
                    lemma_same_parts(q, path, m);
                } else {
                    lemma_same_parts(q, path, m);
                }
            } else {
                let head = prefix.take(m);
                let rest = NodeModel::Extension { prefix: prefix.skip(m), child };
                lemma_starts_with_parts(q, prefix, m);
                if starts_with(q, head) {
                    lemma_leaf_after_prefix(q, head);
                    lemma_insert_get(blobs, rest, path.skip(m), value, q.skip(m));
                    lemma_same_parts(q, path, m);
                } else {
                    lemma_same_parts(q, path, m);
                }
            }
        },
        NodeModel::Hash { digest } => {
            lemma_recover_wf(blobs, digest);
            let stored = recover_spec(blobs, digest)->Ok_0;
            lemma_insert_get(blobs, stored, path, value, q);
        },
    }
}

/// Bringing a node into shape leaves every key what it had.
pub proof fn lemma_degenerate_get(blobs: Map<Seq<u8>, Seq<u8>>, n: NodeModel, q: Seq<u8>)
    requires
        n.wf(),
        is_leaf_path(q),
        degenerate_spec(blobs, n) is Ok,
    ensures
        get_spec(blobs, degenerate_spec(blobs, n)->Ok_0.node, q) == get_spec(blobs, n, q),
    decreases unsettled(n), unread(n),
{
    reveal_with_fuel(get_spec, 3);
    lemma_leaf_path_head(q, 0);
    match n {
        NodeModel::Branch { children, value } => {
            let live = count_live(children, children.len());
            let at = last_live(children, children.len());
            lemma_last_live(children, children.len());
            if live == 0 && value is Some {
                if q[0] == 16 {
                    lemma_only_terminator(q);
                } else {
                    assert(children[q[0] as int] is Empty);
                    assert(seq![16u8][0] != q[0]);
                }
            } else if live == 1 && value is None && 0 <= at < children.len() {
                let single = seq![at as u8];
                let ext = NodeModel::Extension { prefix: single, child: Box::new(children[at]) };
                assert(single[0] < 16);
                assert(is_inner_path(single));
                assert(children[at].wf());
                if q[0] == at {
                    assert(q.take(1) =~= single);
                } else {
                    if starts_with(q, single) {
                        assert(q.take(1)[0] == single[0]);
                    }
                    if q[0] != 16 {
                        assert(children[q[0] as int] is Empty);
                    }
                }
                assert(get_spec(blobs, ext, q) == get_spec(blobs, n, q));
                lemma_degenerate_get(blobs, ext, q);
            }
        },
        NodeModel::Extension { prefix, child } => {
            assert(child.wf());
            match *child {
                NodeModel::Extension { prefix: below, child: grandchild } => {
                    if below.len() > 0 {
                        let joined = prefix + below;
                        let merged = NodeModel::Extension { prefix: joined, child: grandchild };
                        lemma_joined_paths(prefix, below);
                        assert(joined.take(prefix.len() as int) =~= prefix);
                        assert(joined.skip(prefix.len() as int) =~= below);
                        lemma_starts_with_parts(q, joined, prefix.len() as int);
                        assert(grandchild.wf());
                        assert(get_spec(blobs, merged, q) == get_spec(blobs, n, q));
                        lemma_degenerate_get(blobs, merged, q);
                    }
                },
                NodeModel::Leaf { key, value } => {
                    let joined = prefix + key;
                    assert(joined.take(prefix.len() as int) =~= prefix);
                    assert(joined.skip(prefix.len() as int) =~= key);
                    lemma_same_parts(q, joined, prefix.len() as int);
                },
                NodeModel::Hash { digest } => {
                    lemma_recover_wf(blobs, digest);
                    let stored = recover_spec(blobs, digest)->Ok_0;
                    let read = NodeModel::Extension { prefix, child: Box::new(stored) };
                    assert(get_spec(blobs, read, q) == get_spec(blobs, n, q));
                    lemma_degenerate_get(blobs, read, q);
                },
                _ => {},
            }
        },
        _ => {},
    }
}

/// Whether the walk along a path ends at a branch: the place where a
/// removal reports that it removed something, whether or not the branch held
/// a value.
pub open spec fn ends_at_branch(blobs: Map<Seq<u8>, Seq<u8>>, n: NodeModel, path: Seq<u8>) -> bool
    decreases path.len(), (if n is Hash {
        1nat
    } else {
        0nat
    }),
{
    match n {
        NodeModel::Branch { children, value } => if path.len() == 0 {
            false
        } else if path[0] == 16 {
            true
        } else if path[0] < children.len() {
            ends_at_branch(blobs, children[path[0] as int], path.skip(1))
        } else {
            false
        },
        NodeModel::Extension { prefix, child } => prefix.len() > 0 && starts_with(path, prefix)
            && ends_at_branch(blobs, *child, path.skip(prefix.len() as int)),
        NodeModel::Hash { digest } => match recover_spec(blobs, digest) {
            Err(e) => false,
            Ok(stored) => !(stored is Hash) && ends_at_branch(blobs, stored, path),
        },
        _ => false,
    }
}

/// After a removal, the key that was removed has no value, and every other
/// key has what it had before. The removal reports that it removed
/// something exactly if the key had a value or its path ends at a branch.
pub proof fn lemma_delete_get(blobs: Map<Seq<u8>, Seq<u8>>, n: NodeModel, path: Seq<u8>, q: Seq<u8>)
    requires
        n.wf(),
        is_leaf_path(path),
        is_leaf_path(q),
        delete_spec(blobs, n, path) is Ok,
    ensures
        get_spec(blobs, delete_spec(blobs, n, path)->Ok_0.node, q) == (if q == path {
            Ok::<Option<Seq<u8>>, crate::errors::ErrorKind>(None)
        } else {
            get_spec(blobs, n, q)
        }),
        get_spec(blobs, n, path) is Ok,
        delete_spec(blobs, n, path)->Ok_0.deleted == (get_spec(blobs, n, path)->Ok_0 is Some
            || ends_at_branch(blobs, n, path)),
    decreases path.len(), (if n is Hash {
        1nat
    } else {
        0nat
    }),
{
    lemma_leaf_path_head(path, 0);
    lemma_leaf_path_head(q, 0);
    match n {
        NodeModel::Empty => {},
        NodeModel::Leaf { key, value } => {},
        NodeModel::Branch { children, value } => {
            if path[0] == 16 {
                lemma_only_terminator(path);
                if q[0] == 16 {
                    lemma_only_terminator(q);
                }
                let weakened = NodeModel::Branch { children, value: None };
                assert(weakened.wf());
                lemma_degenerate_get(blobs, weakened, q);
            } else {
                let d = path[0] as int;
                lemma_skip_path(path, 1);
                assert(children[d].wf());
                let below = delete_spec(blobs, children[d], path.skip(1))->Ok_0;
                if q[0] == path[0] {
                    lemma_skip_path(q, 1);
                    lemma_delete_get(blobs, children[d], path.skip(1), q.skip(1));
                    lemma_same_tail(q, path);
                } else {
                    lemma_delete_get(blobs, children[d], path.skip(1), path.skip(1));
                }
                if below.deleted {
                    let weakened = NodeModel::Branch {
                        children: children.update(d, below.node),
                        value,
                    };
                    lemma_delete_wf(blobs, children[d], path.skip(1));
                    assert(weakened.wf());
                    lemma_degenerate_get(blobs, weakened, q);
                }
            }
        },
        NodeModel::Extension { prefix, child } => {
            if starts_with(path, prefix) {
                let m = prefix.len() as int;
                lemma_leaf_after_prefix(path, prefix);
                let below = delete_spec(blobs, *child, path.skip(m))->Ok_0;
                if starts_with(q, prefix) {
                    lemma_leaf_after_prefix(q, prefix);
                    lemma_delete_get(blobs, *child, path.skip(m), q.skip(m));
                    lemma_same_parts(q, path, m);
                } else {
                    lemma_delete_get(blobs, *child, path.skip(m), path.skip(m));
                    lemma_same_parts(q, path, m);
                }
                if below.deleted {
                    let weakened = NodeModel::Extension { prefix, child: Box::new(below.node) };
                    lemma_delete_wf(blobs, *child, path.skip(m));
                    lemma_degenerate_get(blobs, weakened, q);
                }
            }
        },
        NodeModel::Hash { digest } => {
            lemma_recover_wf(blobs, digest);
            let stored = recover_spec(blobs, digest)->Ok_0;
            lemma_delete_get(blobs, stored, path, q);
        },
    }
}

/// The nibbles of a byte string give the byte string back.
pub proof fn lemma_unpack_injective(a: Seq<u8>, b: Seq<u8>)
    requires
        unpack(a) == unpack(b),
    ensures
        a == b,
{
    assert(unpack(a).len() == 2 * a.len());
    assert(unpack(b).len() == 2 * b.len());
    assert(a.len() == b.len());
    assert forall|i: int| 0 <= i < a.len() implies a[i] == b[i] by {
        assert((2 * i) / 2 == i && (2 * i) % 2 == 0);
        assert((2 * i + 1) / 2 == i && (2 * i + 1) % 2 == 1);
        assert(unpack(a)[2 * i] == a[i] / 16);
        assert(unpack(b)[2 * i] == b[i] / 16);
        assert(unpack(a)[2 * i + 1] == a[i] % 16);
        assert(unpack(b)[2 * i + 1] == b[i] % 16);
        let x = a[i] as int;
        let y = b[i] as int;
        assert(x == 16 * (x / 16) + x % 16);
        assert(y == 16 * (y / 16) + y % 16);
    }
    assert(a =~= b);
}

/// The path of a key reaches a value, and two keys with the same path are
/// the same key.
pub proof fn lemma_key_paths(a: Seq<u8>, b: Seq<u8>)
    ensures
        is_leaf_path(path_of(a, true)),
        path_of(a, true) == path_of(b, true) <==> a == b,
{
    let pa = path_of(a, true);
    let pb = path_of(b, true);
    assert(pa.drop_last() =~= unpack(a));
    assert(pb.drop_last() =~= unpack(b));
    assert(pa.last() == 16);
    if pa == pb {
        lemma_unpack_injective(a, b);
    }
}

/// Get after insert: once a value has been put under a key, the key has
/// that value, and every other key has what it had before.
pub proof fn lemma_get_after_insert(
    blobs: Map<Seq<u8>, Seq<u8>>,
    root: NodeModel,
    key: Seq<u8>,
    value: Seq<u8>,
    other: Seq<u8>,
)
    requires
        root.wf(),
        insert_spec(blobs, root, path_of(key, true), value) is Ok,
    ensures
        insert_spec(blobs, root, path_of(key, true), value)->Ok_0.node.wf(),
        get_spec(
            blobs,
            insert_spec(blobs, root, path_of(key, true), value)->Ok_0.node,
            path_of(other, true),
        ) == (if other == key {
            Ok::<Option<Seq<u8>>, crate::errors::ErrorKind>(Some(value))
        } else {
            get_spec(blobs, root, path_of(other, true))
        }),
{
    lemma_key_paths(key, other);
    lemma_key_paths(other, key);
    lemma_insert_wf(blobs, root, path_of(key, true), value);
    lemma_insert_get(blobs, root, path_of(key, true), value, path_of(other, true));
}

/// The root after the pairs of a list have been inserted one after the
/// other, or the first error on the way.
pub open spec fn insert_all(
    blobs: Map<Seq<u8>, Seq<u8>>,
    root: NodeModel,
    pairs: Seq<(Seq<u8>, Seq<u8>)>,
) -> Result<NodeModel, crate::errors::ErrorKind>
    decreases pairs.len(),
{
    if pairs.len() == 0 {
        Ok(root)
    } else {
        match insert_all(blobs, root, pairs.drop_last()) {
            Err(e) => Err(e),
            Ok(before) => match insert_spec(
                blobs,
                before,
                path_of(pairs.last().0, true),
                pairs.last().1,
            ) {
                Err(e) => Err(e),
                Ok(s) => Ok(s.node),
            },
        }
    }
}

/// The value that the last pair with this key gives it, if there is such a
/// pair.
pub open spec fn last_value(pairs: Seq<(Seq<u8>, Seq<u8>)>, key: Seq<u8>) -> Option<Seq<u8>>
    decreases pairs.len(),
{
    if pairs.len() == 0 {
        None
    } else if pairs.last().0 == key {
        Some(pairs.last().1)
    } else {
        last_value(pairs.drop_last(), key)
    }
}

/// Get after a sequence of insertions: every key that was inserted has the
/// value that was inserted for it last, and every other key has what it had
/// before.
pub proof fn lemma_get_after_inserts(
    blobs: Map<Seq<u8>, Seq<u8>>,
    root: NodeModel,
    pairs: Seq<(Seq<u8>, Seq<u8>)>,
    key: Seq<u8>,
)
    requires
        root.wf(),
        insert_all(blobs, root, pairs) is Ok,
    ensures
        insert_all(blobs, root, pairs)->Ok_0.wf(),
        get_spec(blobs, insert_all(blobs, root, pairs)->Ok_0, path_of(key, true)) == (match last_value(
            pairs,
            key,
        ) {
            Some(v) => Ok::<Option<Seq<u8>>, crate::errors::ErrorKind>(Some(v)),
            None => get_spec(blobs, root, path_of(key, true)),
        }),
    decreases pairs.len(),
{
    if pairs.len() > 0 {
        lemma_get_after_inserts(blobs, root, pairs.drop_last(), key);
        let before = insert_all(blobs, root, pairs.drop_last())->Ok_0;
        lemma_get_after_insert(blobs, before, pairs.last().0, pairs.last().1, key);
    }
}

/// Remove twice: the first removal reports a removal exactly if the key had
/// a value or its path ends at a branch, the second exactly if the path
/// still ends at a branch; after each of them the key has no value.
pub proof fn lemma_remove_twice(blobs: Map<Seq<u8>, Seq<u8>>, root: NodeModel, key: Seq<u8>)
    requires
        root.wf(),
        delete_spec(blobs, root, path_of(key, true)) is Ok,
        delete_spec(
            blobs,
            delete_spec(blobs, root, path_of(key, true))->Ok_0.node,
            path_of(key, true),
        ) is Ok,
    ensures
        ({
            let path = path_of(key, true);
            let first = delete_spec(blobs, root, path)->Ok_0;
            let second = delete_spec(blobs, first.node, path)->Ok_0;
            &&& first.deleted == (get_spec(blobs, root, path)->Ok_0 is Some || ends_at_branch(
                blobs,
                root,
                path,
            ))
            &&& second.deleted == ends_at_branch(blobs, first.node, path)
            &&& get_spec(blobs, first.node, path) == Ok::<Option<Seq<u8>>, crate::errors::ErrorKind>(
                None,
            )
            &&& get_spec(blobs, second.node, path) == Ok::<Option<Seq<u8>>, crate::errors::ErrorKind>(
                None,
            )
        }),
{
    let path = path_of(key, true);
    lemma_key_paths(key, key);
    let first = delete_spec(blobs, root, path)->Ok_0;
    lemma_delete_wf(blobs, root, path);
    lemma_delete_get(blobs, root, path, path);
    lemma_delete_get(blobs, first.node, path, path);
}

/// Remove, for the keys whose path does not end at a branch afterwards: a
/// key that had a value is reported as removed by the first removal and as
/// absent by the second, and has no value after both.
pub proof fn lemma_remove_idempotent(blobs: Map<Seq<u8>, Seq<u8>>, root: NodeModel, key: Seq<u8>)
    requires
        root.wf(),
        get_spec(blobs, root, path_of(key, true)) matches Ok(Some(_)),
        delete_spec(blobs, root, path_of(key, true)) is Ok,
        delete_spec(
            blobs,
            delete_spec(blobs, root, path_of(key, true))->Ok_0.node,
            path_of(key, true),
        ) is Ok,
        !ends_at_branch(
            blobs,
            delete_spec(blobs, root, path_of(key, true))->Ok_0.node,
            path_of(key, true),
        ),
    ensures
        delete_spec(blobs, root, path_of(key, true))->Ok_0.deleted,
        !delete_spec(
            blobs,
            delete_spec(blobs, root, path_of(key, true))->Ok_0.node,
            path_of(key, true),
        )->Ok_0.deleted,
        get_spec(
            blobs,
            delete_spec(
                blobs,
                delete_spec(blobs, root, path_of(key, true))->Ok_0.node,
                path_of(key, true),
            )->Ok_0.node,
            path_of(key, true),
        ) == Ok::<Option<Seq<u8>>, crate::errors::ErrorKind>(None),
{
    lemma_remove_twice(blobs, root, key);
}

/// An empty value is a removal: what an insertion of an empty value does is
/// what a removal does, and after it the key has no value while every other
/// key has what it had before.
pub proof fn lemma_empty_value_removes(
    blobs: Map<Seq<u8>, Seq<u8>>,
    root: NodeModel,
    key: Seq<u8>,
    other: Seq<u8>,
)
    requires
        root.wf(),
        delete_spec(blobs, root, path_of(key, true)) is Ok,
    ensures
        delete_spec(blobs, root, path_of(key, true))->Ok_0.node.wf(),
        get_spec(blobs, delete_spec(blobs, root, path_of(key, true))->Ok_0.node, path_of(other, true))
            == (if other == key {
            Ok::<Option<Seq<u8>>, crate::errors::ErrorKind>(None)
        } else {
            get_spec(blobs, root, path_of(other, true))
        }),
{
    lemma_key_paths(key, other);
    lemma_key_paths(other, key);
    lemma_delete_wf(blobs, root, path_of(key, true));
    lemma_delete_get(blobs, root, path_of(key, true), path_of(other, true));
}

/// A proof begins with the root: the proof of a trie that is not empty has
/// the encoding of the root as its first node, whatever the key.
pub proof fn lemma_proof_begins_with_root(root: NodeModel, nodes: Seq<NodeModel>)
    requires
        !(root is Empty),
    ensures
        proof_spec(root, nodes).len() == nodes.len() + 1,
        proof_spec(root, nodes)[0] == raw_of(root),
{
}

/// The proof of an empty trie is empty.
pub proof fn lemma_proof_of_empty(nodes: Seq<NodeModel>)
    ensures
        proof_spec(NodeModel::Empty, nodes).len() == nodes.len(),
{
}

/// A commit leaves the root in the store: the encoded root stands under the
/// root digest, unless the encoding is shorter than a digest and a light
/// store was asked to forget that digest because a change had read it.
pub proof fn lemma_commit_holds_root(
    store: Map<Seq<u8>, Seq<u8>>,
    light: bool,
    root: NodeModel,
    passing: Set<Seq<u8>>,
)
    requires
        !(root is Hash),
        raw_of(root).len() >= 32 || !light || !passing.contains(keccak256_of(raw_of(root))),
    ensures
        commit_store(store, light, root, passing).contains_key(keccak256_of(raw_of(root))),
        commit_store(store, light, root, passing)[keccak256_of(raw_of(root))] == raw_of(root),
{
}

/// A commit of the empty trie leaves the encoding of the empty node in the
/// store under its digest, unless a light store was asked to forget it.
pub proof fn lemma_commit_of_empty(store: Map<Seq<u8>, Seq<u8>>, light: bool, passing: Set<Seq<u8>>)
    requires
        !light || !passing.contains(keccak256_of(null_blob())),
    ensures
        commit_store(store, light, NodeModel::Empty, passing) == without(
            store.insert(keccak256_of(null_blob()), null_blob()),
            light,
            passing,
        ),
        commit_store(store, light, NodeModel::Empty, passing)[keccak256_of(null_blob())]
            == null_blob(),
{
    let written = store.union_prefer_right(commit_blobs(NodeModel::Empty));
    assert(written =~= store.insert(keccak256_of(null_blob()), null_blob()));
    assert(passing.difference(pending_node(NodeModel::Empty, nothing_pending()).fresh) =~= passing);
}

/// Round trip through the root: a trie that has been committed holds as
/// its root what the store gives back under the root digest, so a trie that
/// is opened at that digest over the same store is the same trie, and a walk
/// over the one gives, move by move, what a walk over the other gives.
pub proof fn lemma_reopened_is_committed(
    store: Map<Seq<u8>, Seq<u8>>,
    digest: Seq<u8>,
    committed: NodeModel,
    reopened: NodeModel,
    steps: nat,
)
    requires
        recover_spec(store, digest) == Ok::<NodeModel, crate::errors::ErrorKind>(committed),
        store.contains_key(digest),
        crate::encoding::decode_spec(store[digest], false) == Ok::<
            NodeModel,
            crate::errors::ErrorKind,
        >(reopened),
    ensures
        reopened == committed,
        crate::walk::walk_all(store, crate::iter::start_walk(reopened), steps)
            == crate::walk::walk_all(store, crate::iter::start_walk(committed), steps),
{
}

} // verus!
