//! Two tries in memory that hold the same values under the same keys are
//! the same trie, and so have the same root digest.
use crate::canon::canonical;
use crate::canon::in_memory;
use crate::canon::lemma_delete_canonical;
use crate::canon::lemma_insert_canonical;
use crate::canon::settled;
use crate::canon::slots_used;
use crate::delete::count_live;
use crate::delete::delete_spec;
use crate::delete::last_live;
use crate::delete::lemma_joined_paths;
use crate::encoding::raw_of;
use crate::errors::ErrorKind;
use crate::hasher::keccak256_of;
use crate::insert::insert_spec;
use crate::laws::lemma_delete_get;
use crate::laws::lemma_insert_get;
use crate::laws::lemma_key_paths;
use crate::lookup::get_spec;
use crate::lookup::starts_with;
use crate::nibbles::is_inner_path;
use crate::nibbles::is_leaf_path;
use crate::nibbles::path_of;
use crate::node::NodeModel;
use crate::shape::lemma_last_live;
use vstd::prelude::*;

verus! {

/// A lookup in a trie in memory never fails.
pub proof fn lemma_get_in_memory(blobs: Map<Seq<u8>, Seq<u8>>, n: NodeModel, q: Seq<u8>)
    requires
        in_memory(n),
    ensures
        get_spec(blobs, n, q) is Ok,
    decreases n,
{
    match n {
        NodeModel::Branch { children, value } => {
            if q.len() > 0 && q[0] != 16 && q[0] < children.len() {
                lemma_get_in_memory(blobs, children[q[0] as int], q.skip(1));
            }
        },
        NodeModel::Extension { prefix, child } => {
            if prefix.len() > 0 && starts_with(q, prefix) {
                lemma_get_in_memory(blobs, *child, q.skip(prefix.len() as int));
            }
        },
        _ => {},
    }
}

/// A key of a trie that is not empty.
pub open spec fn some_key(n: NodeModel) -> Seq<u8>
    decreases n,
{
    match n {
        NodeModel::Leaf { key, value } => key,
        NodeModel::Extension { prefix, child } => prefix + some_key(*child),
        NodeModel::Branch { children, value } => {
            let at = last_live(children, children.len());
            if value is Some || !(0 <= at < children.len()) {
                seq![16u8]
            } else {
                seq![at as u8] + some_key(children[at])
            }
        },
        _ => seq![16u8],
    }
}

/// A path that begins with a nibble and goes on with a path that reaches a
/// value reaches a value, and a branch hands it to the child at that nibble.
pub proof fn lemma_branch_path(
    blobs: Map<Seq<u8>, Seq<u8>>,
    children: Seq<NodeModel>,
    value: Option<Seq<u8>>,
    at: int,
    rest: Seq<u8>,
)
    requires
        0 <= at < 16,
        children.len() == 16,
        is_leaf_path(rest),
    ensures
        is_leaf_path(seq![at as u8] + rest),
        (seq![at as u8] + rest)[0] == at,
        get_spec(blobs, NodeModel::Branch { children, value }, seq![at as u8] + rest) == get_spec(
            blobs,
            children[at],
            rest,
        ),
{
    let single = seq![at as u8];
    assert(single[0] < 16);
    assert(is_inner_path(single));
    lemma_joined_paths(single, rest);
    assert((single + rest).skip(1) =~= rest);
}

/// A path that begins with the prefix of an extension is handed to the
/// child of the extension.
pub proof fn lemma_extension_path(
    blobs: Map<Seq<u8>, Seq<u8>>,
    prefix: Seq<u8>,
    child: NodeModel,
    rest: Seq<u8>,
)
    requires
        prefix.len() > 0,
        is_inner_path(prefix),
        is_leaf_path(rest),
    ensures
        is_leaf_path(prefix + rest),
        starts_with(prefix + rest, prefix),
        get_spec(blobs, NodeModel::Extension { prefix, child: Box::new(child) }, prefix + rest)
            == get_spec(blobs, child, rest),
{
    lemma_joined_paths(prefix, rest);
    assert((prefix + rest).take(prefix.len() as int) =~= prefix);
    assert((prefix + rest).skip(prefix.len() as int) =~= rest);
}

/// A trie in shape that is not empty holds a value under the key that
/// `some_key` names.
pub proof fn lemma_some_key(blobs: Map<Seq<u8>, Seq<u8>>, n: NodeModel)
    requires
        canonical(n),
        !(n is Empty),
    ensures
        is_leaf_path(some_key(n)),
        get_spec(blobs, n, some_key(n)) matches Ok(Some(_)),
    decreases n,
{
    match n {
        NodeModel::Extension { prefix, child } => {
            lemma_some_key(blobs, *child);
            lemma_extension_path(blobs, prefix, *child, some_key(*child));
        },
        NodeModel::Branch { children, value } => {
            lemma_last_live(children, children.len());
            let at = last_live(children, children.len());
            if value is Some {
                let key = seq![16u8];
                assert(key.drop_last() =~= Seq::<u8>::empty());
                assert(key.last() == 16);
            } else {
                assert(children[at].wf() && in_memory(children[at]) && settled(children[at]));
                lemma_some_key(blobs, children[at]);
                lemma_branch_path(blobs, children, value, at, some_key(children[at]));
            }
        },
        _ => {},
    }
}

/// Whether a slot of a branch is in use: one of the sixteen children, or,
/// under the number 16, the value of the branch.
pub open spec fn slot_used(children: Seq<NodeModel>, value: Option<Seq<u8>>, slot: int) -> bool {
    (slot == 16 && value is Some) || (0 <= slot < 16 && !(children[slot] is Empty))
}

/// A key that a branch holds through one of its slots.
pub open spec fn slot_key(children: Seq<NodeModel>, slot: int) -> Seq<u8> {
    if 0 <= slot < 16 {
        seq![slot as u8] + some_key(children[slot])
    } else {
        seq![16u8]
    }
}

/// A branch in shape holds a value under the key of each slot in use.
pub proof fn lemma_slot_key(
    blobs: Map<Seq<u8>, Seq<u8>>,
    children: Seq<NodeModel>,
    value: Option<Seq<u8>>,
    slot: int,
)
    requires
        canonical(NodeModel::Branch { children, value }),
        slot_used(children, value, slot),
    ensures
        is_leaf_path(slot_key(children, slot)),
        slot_key(children, slot)[0] == slot,
        get_spec(blobs, NodeModel::Branch { children, value }, slot_key(children, slot)) matches Ok(
            Some(_),
        ),
{
    if 0 <= slot < 16 {
        assert(children[slot].wf() && in_memory(children[slot]) && settled(children[slot]));
        lemma_some_key(blobs, children[slot]);
        lemma_branch_path(blobs, children, value, slot, some_key(children[slot]));
    } else {
        let key = seq![16u8];
        assert(key.drop_last() =~= Seq::<u8>::empty());
        assert(key.last() == 16);
    }
}

/// Among the first `count` children, as many are in use as up to and with
/// the last one in use.
pub proof fn lemma_count_to_last(children: Seq<NodeModel>, count: nat)
    requires
        count <= children.len(),
        count_live(children, count) > 0,
    ensures
        0 <= last_live(children, count) < count,
        count_live(children, count) == count_live(children, last_live(children, count) as nat) + 1,
    decreases count,
{
    if count > 0 {
        if children[count - 1] is Empty {
            lemma_count_to_last(children, (count - 1) as nat);
        }
    }
}

/// A branch with two slots in use has two different slots in use.
pub proof fn lemma_two_slots(children: Seq<NodeModel>, value: Option<Seq<u8>>) -> (slots: (int, int))
    requires
        children.len() == 16,
        slots_used(children, value) >= 2,
    ensures
        slots.0 != slots.1,
        slot_used(children, value, slots.0),
        slot_used(children, value, slots.1),
{
    lemma_last_live(children, 16);
    let last = last_live(children, 16);
    lemma_count_to_last(children, 16);
    if value is Some {
        (16, last)
    } else {
        lemma_last_live(children, last as nat);
        let before = last_live(children, last as nat);
        (last, before)
    }
}

/// A branch or an extension in shape holds two keys that part at its first
/// fork: at once for a branch, after the prefix for an extension.
pub proof fn lemma_two_keys_exist(blobs: Map<Seq<u8>, Seq<u8>>, n: NodeModel) -> (keys: (
    Seq<u8>,
    Seq<u8>,
))
    requires
        canonical(n),
        n is Branch || n is Extension,
    ensures
        is_leaf_path(keys.0),
        is_leaf_path(keys.1),
        get_spec(blobs, n, keys.0) matches Ok(Some(_)),
        get_spec(blobs, n, keys.1) matches Ok(Some(_)),
        n is Branch ==> keys.0[0] != keys.1[0],
        n is Extension ==> starts_with(keys.0, n->prefix) && starts_with(keys.1, n->prefix)
            && keys.0.len() > n->prefix.len() && keys.1.len() > n->prefix.len()
            && keys.0[n->prefix.len() as int] != keys.1[n->prefix.len() as int],
    decreases n,
{
    match n {
        NodeModel::Branch { children, value } => {
            let slots = lemma_two_slots(children, value);
            lemma_slot_key(blobs, children, value, slots.0);
            lemma_slot_key(blobs, children, value, slots.1);
            (slot_key(children, slots.0), slot_key(children, slots.1))
        },
        NodeModel::Extension { prefix, child } => {
            let below = lemma_two_keys_exist(blobs, *child);
            lemma_extension_path(blobs, prefix, *child, below.0);
            lemma_extension_path(blobs, prefix, *child, below.1);
            (prefix + below.0, prefix + below.1)
        },
        _ => (Seq::empty(), Seq::empty()),
    }
}

/// The two tries hold the same value, or none, under every path that
/// reaches a value.
pub open spec fn same_values(blobs: Map<Seq<u8>, Seq<u8>>, a: NodeModel, b: NodeModel) -> bool {
    forall|q: Seq<u8>| is_leaf_path(q) ==> #[trigger] get_spec(blobs, a, q) == get_spec(blobs, b, q)
}

/// A trie in shape that holds nothing is the empty trie.
pub proof fn lemma_unique_empty(blobs: Map<Seq<u8>, Seq<u8>>, b: NodeModel)
    requires
        canonical(b),
        same_values(blobs, NodeModel::Empty, b),
    ensures
        b == NodeModel::Empty,
{
    if !(b is Empty) {
        lemma_some_key(blobs, b);
        assert(get_spec(blobs, NodeModel::Empty, some_key(b)) == get_spec(blobs, b, some_key(b)));
    }
}

/// A trie in shape that holds what a leaf holds is that leaf.
pub proof fn lemma_unique_leaf(blobs: Map<Seq<u8>, Seq<u8>>, a: NodeModel, b: NodeModel)
    requires
        a is Leaf,
        canonical(a),
        canonical(b),
        same_values(blobs, a, b),
    ensures
        a == b,
{
    let key = a->key;
    assert(get_spec(blobs, a, key) == get_spec(blobs, b, key));
    match b {
        NodeModel::Branch { children, value } => {
            let keys = lemma_two_keys_exist(blobs, b);
            assert(get_spec(blobs, a, keys.0) == get_spec(blobs, b, keys.0));
            assert(get_spec(blobs, a, keys.1) == get_spec(blobs, b, keys.1));
        },
        NodeModel::Extension { prefix, child } => {
            let keys = lemma_two_keys_exist(blobs, b);
            assert(get_spec(blobs, a, keys.0) == get_spec(blobs, b, keys.0));
            assert(get_spec(blobs, a, keys.1) == get_spec(blobs, b, keys.1));
        },
        _ => {},
    }
}

/// Two tries in shape that hold the same values under the same paths are
/// the same trie.
pub proof fn lemma_unique(blobs: Map<Seq<u8>, Seq<u8>>, a: NodeModel, b: NodeModel)
    requires
        canonical(a),
        canonical(b),
        same_values(blobs, a, b),
    ensures
        a == b,
    decreases a,
{
    assert(same_values(blobs, b, a)) by {
        assert forall|q: Seq<u8>| is_leaf_path(q) implies #[trigger] get_spec(blobs, b, q)
            == get_spec(blobs, a, q) by {
            assert(get_spec(blobs, a, q) == get_spec(blobs, b, q));
        }
    }
    match a {
        NodeModel::Empty => {
            lemma_unique_empty(blobs, b);
        },
        NodeModel::Leaf { key, value } => {
            lemma_unique_leaf(blobs, a, b);
        },
        NodeModel::Extension { prefix: pa, child: ca } => {
            let keys = lemma_two_keys_exist(blobs, a);
            assert(get_spec(blobs, a, keys.0) == get_spec(blobs, b, keys.0));
            assert(get_spec(blobs, a, keys.1) == get_spec(blobs, b, keys.1));
            match b {
                NodeModel::Empty => {},
                NodeModel::Leaf { key, value } => {},
                NodeModel::Branch { children, value } => {
                    let others = lemma_two_keys_exist(blobs, b);
                    assert(get_spec(blobs, a, others.0) == get_spec(blobs, b, others.0));
                    assert(get_spec(blobs, a, others.1) == get_spec(blobs, b, others.1));
                    assert(others.0.take(pa.len() as int)[0] == pa[0]);
                    assert(others.1.take(pa.len() as int)[0] == pa[0]);
                },
                NodeModel::Extension { prefix: pb, child: cb } => {
                    let others = lemma_two_keys_exist(blobs, b);
                    assert(get_spec(blobs, a, others.0) == get_spec(blobs, b, others.0));
                    assert(get_spec(blobs, a, others.1) == get_spec(blobs, b, others.1));
                    let la = pa.len() as int;
                    let lb = pb.len() as int;
                    if lb > la {
                        assert(keys.0.take(lb)[la] == pb[la]);
                        assert(keys.1.take(lb)[la] == pb[la]);
                    }
                    if la > lb {
                        assert(others.0.take(la)[lb] == pa[lb]);
                        assert(others.1.take(la)[lb] == pa[lb]);
                    }
                    assert(pa =~= pb) by {
                        assert forall|i: int| 0 <= i < la implies pa[i] == pb[i] by {
                            assert(keys.0.take(la)[i] == pa[i]);
                            assert(keys.0.take(lb)[i] == pb[i]);
                        }
                    }
                    assert(same_values(blobs, *ca, *cb)) by {
                        assert forall|q: Seq<u8>| is_leaf_path(q) implies #[trigger] get_spec(
                            blobs,
                            *ca,
                            q,
                        ) == get_spec(blobs, *cb, q) by {
                            lemma_extension_path(blobs, pa, *ca, q);
                            lemma_extension_path(blobs, pb, *cb, q);
                            assert(get_spec(blobs, a, pa + q) == get_spec(blobs, b, pa + q));
                        }
                    }
                    lemma_unique(blobs, *ca, *cb);
                },
                NodeModel::Hash { digest } => {},
            }
        },
        NodeModel::Branch { children: cha, value: va } => {
            let keys = lemma_two_keys_exist(blobs, a);
            assert(get_spec(blobs, a, keys.0) == get_spec(blobs, b, keys.0));
            assert(get_spec(blobs, a, keys.1) == get_spec(blobs, b, keys.1));
            match b {
                NodeModel::Empty => {},
                NodeModel::Leaf { key, value } => {},
                NodeModel::Extension { prefix: pb, child: cb } => {
                    assert(keys.0.take(pb.len() as int)[0] == pb[0]);
                    assert(keys.1.take(pb.len() as int)[0] == pb[0]);
                },
                NodeModel::Branch { children: chb, value: vb } => {
                    let end = seq![16u8];
                    assert(end.drop_last() =~= Seq::<u8>::empty());
                    assert(end.last() == 16);
                    assert(is_leaf_path(end));
                    assert(get_spec(blobs, a, end) == get_spec(blobs, b, end));
                    assert(va == vb);
                    assert forall|i: int| 0 <= i < 16 implies cha[i] == chb[i] by {
                        assert(cha[i].wf() && in_memory(cha[i]) && settled(cha[i]));
                        assert(chb[i].wf() && in_memory(chb[i]) && settled(chb[i]));
                        assert(same_values(blobs, cha[i], chb[i])) by {
                            assert forall|q: Seq<u8>| is_leaf_path(q) implies #[trigger] get_spec(
                                blobs,
                                cha[i],
                                q,
                            ) == get_spec(blobs, chb[i], q) by {
                                lemma_branch_path(blobs, cha, va, i, q);
                                lemma_branch_path(blobs, chb, vb, i, q);
                                assert(get_spec(blobs, a, seq![i as u8] + q) == get_spec(
                                    blobs,
                                    b,
                                    seq![i as u8] + q,
                                ));
                            }
                        }
                        lemma_unique(blobs, cha[i], chb[i]);
                    }
                    assert(cha =~= chb);
                },
                NodeModel::Hash { digest } => {},
            }
        },
        NodeModel::Hash { digest } => {},
    }
}

/// A change to a trie: a value put under a key, or a key removed.
pub enum Change {
    Put { key: Seq<u8>, value: Seq<u8> },
    Drop { key: Seq<u8> },
}

/// The root after a change: an empty value put under a key removes the key.
pub open spec fn changed(blobs: Map<Seq<u8>, Seq<u8>>, root: NodeModel, change: Change) -> Result<
    NodeModel,
    ErrorKind,
> {
    match change {
        Change::Put { key, value } => if value.len() > 0 {
            match insert_spec(blobs, root, path_of(key, true), value) {
                Err(e) => Err(e),
                Ok(s) => Ok(s.node),
            }
        } else {
            match delete_spec(blobs, root, path_of(key, true)) {
                Err(e) => Err(e),
                Ok(s) => Ok(s.node),
            }
        },
        Change::Drop { key } => match delete_spec(blobs, root, path_of(key, true)) {
            Err(e) => Err(e),
            Ok(s) => Ok(s.node),
        },
    }
}

/// The root after the changes of a list, one after the other, or the first
/// error on the way.
pub open spec fn changed_all(blobs: Map<Seq<u8>, Seq<u8>>, root: NodeModel, changes: Seq<Change>) -> Result<
    NodeModel,
    ErrorKind,
>
    decreases changes.len(),
{
    if changes.len() == 0 {
        Ok(root)
    } else {
        match changed_all(blobs, root, changes.drop_last()) {
            Err(e) => Err(e),
            Ok(before) => changed(blobs, before, changes.last()),
        }
    }
}

/// Every path under which the trie holds a value is the path of a key.
pub open spec fn keyed_by_bytes(blobs: Map<Seq<u8>, Seq<u8>>, n: NodeModel) -> bool {
    forall|q: Seq<u8>|
        is_leaf_path(q) && (#[trigger] get_spec(blobs, n, q) matches Ok(Some(_))) ==> exists|
            key: Seq<u8>,
        |
            q == #[trigger] path_of(key, true)
}

/// A change keeps a trie in memory in shape and its keys the paths of byte
/// strings, and never fails.
pub proof fn lemma_changed(blobs: Map<Seq<u8>, Seq<u8>>, root: NodeModel, change: Change)
    requires
        canonical(root),
        keyed_by_bytes(blobs, root),
    ensures
        changed(blobs, root, change) matches Ok(after) && canonical(after) && keyed_by_bytes(
            blobs,
            after,
        ),
{
    let key = match change {
        Change::Put { key, value } => key,
        Change::Drop { key } => key,
    };
    let path = path_of(key, true);
    lemma_key_paths(key, key);
    let inserts = change matches Change::Put { key, value } && value.len() > 0;
    if inserts {
        let value = change->value;
        lemma_insert_canonical(blobs, root, path, value);
        let after = insert_spec(blobs, root, path, value)->Ok_0.node;
        assert forall|q: Seq<u8>|
            is_leaf_path(q) && (#[trigger] get_spec(blobs, after, q) matches Ok(
                Some(_),
            )) implies exists|k: Seq<u8>| q == #[trigger] path_of(k, true) by {
            lemma_insert_get(blobs, root, path, value, q);
            if q == path {
                assert(q == path_of(key, true));
            } else {
                assert(get_spec(blobs, root, q) matches Ok(Some(_)));
            }
        }
    } else {
        lemma_delete_canonical(blobs, root, path);
        let after = delete_spec(blobs, root, path)->Ok_0.node;
        assert forall|q: Seq<u8>|
            is_leaf_path(q) && (#[trigger] get_spec(blobs, after, q) matches Ok(
                Some(_),
            )) implies exists|k: Seq<u8>| q == #[trigger] path_of(k, true) by {
            lemma_delete_get(blobs, root, path, q);
            if q != path {
                assert(get_spec(blobs, root, q) matches Ok(Some(_)));
            }
        }
    }
}

/// Changes to an empty trie in memory give a trie in shape whose keys are
/// the paths of byte strings, and never fail.
pub proof fn lemma_changed_all(blobs: Map<Seq<u8>, Seq<u8>>, changes: Seq<Change>)
    ensures
        changed_all(blobs, NodeModel::Empty, changes) matches Ok(after) && canonical(after)
            && keyed_by_bytes(blobs, after),
    decreases changes.len(),
{
    if changes.len() > 0 {
        lemma_changed_all(blobs, changes.drop_last());
        let before = changed_all(blobs, NodeModel::Empty, changes.drop_last())->Ok_0;
        lemma_changed(blobs, before, changes.last());
    }
}

/// Root determinism: two tries in memory, each made from the empty trie by
/// a sequence of insertions and removals, that hold the same value, or none,
/// under every key are the same trie, and the digests of their encoded roots
/// are the same.
pub proof fn lemma_root_determinism(
    blobs: Map<Seq<u8>, Seq<u8>>,
    first: Seq<Change>,
    second: Seq<Change>,
)
    requires
        forall|key: Seq<u8>| #[trigger]
            get_spec(
                blobs,
                changed_all(blobs, NodeModel::Empty, first)->Ok_0,
                path_of(key, true),
            ) == get_spec(
                blobs,
                changed_all(blobs, NodeModel::Empty, second)->Ok_0,
                path_of(key, true),
            ),
    ensures
        changed_all(blobs, NodeModel::Empty, first) is Ok,
        changed_all(blobs, NodeModel::Empty, second) is Ok,
        changed_all(blobs, NodeModel::Empty, first) == changed_all(blobs, NodeModel::Empty, second),
        keccak256_of(raw_of(changed_all(blobs, NodeModel::Empty, first)->Ok_0)) == keccak256_of(
            raw_of(changed_all(blobs, NodeModel::Empty, second)->Ok_0),
        ),
{
    lemma_changed_all(blobs, first);
    lemma_changed_all(blobs, second);
    let a = changed_all(blobs, NodeModel::Empty, first)->Ok_0;
    let b = changed_all(blobs, NodeModel::Empty, second)->Ok_0;
    assert(same_values(blobs, a, b)) by {
        assert forall|q: Seq<u8>| is_leaf_path(q) implies #[trigger] get_spec(blobs, a, q)
            == get_spec(blobs, b, q) by {
            lemma_get_in_memory(blobs, a, q);
            lemma_get_in_memory(blobs, b, q);
            if get_spec(blobs, a, q) matches Ok(Some(_)) {
                let key = choose|key: Seq<u8>| q == #[trigger] path_of(key, true);
                assert(get_spec(blobs, a, path_of(key, true)) == get_spec(
                    blobs,
                    b,
                    path_of(key, true),
                ));
            } else if get_spec(blobs, b, q) matches Ok(Some(_)) {
                let key = choose|key: Seq<u8>| q == #[trigger] path_of(key, true);
                assert(get_spec(blobs, a, path_of(key, true)) == get_spec(
                    blobs,
                    b,
                    path_of(key, true),
                ));
            }
        }
    }
    lemma_unique(blobs, a, b);
}

} // verus!
