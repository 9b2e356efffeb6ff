//! What a walk over a trie in memory gives: the keys and values of the trie,
//! in the order of the paths.
use crate::canon::in_memory;
use crate::iter::advanced;
use crate::iter::entering;
use crate::iter::run_spec;
use crate::iter::start_walk;
use crate::iter::step_spec;
use crate::iter::Frame;
use crate::iter::Outcome;
use crate::iter::Stepped;
use crate::iter::TraceStatus;
use crate::iter::Walk;
use crate::nibbles::all_nibbles;
use crate::nibbles::body;
use crate::laws::lemma_key_paths;
use crate::lookup::get_spec;
use crate::nibbles::is_leaf_path;
use crate::nibbles::pack;
use crate::nibbles::path_of;
use crate::nibbles::unpack;
use crate::unique::keyed_by_bytes;
use crate::unique::lemma_branch_path;
use crate::unique::lemma_extension_path;
use crate::node::NodeModel;
use vstd::prelude::*;

verus! {

/// A key with its value.
pub type Pair = (Seq<u8>, Seq<u8>);

/// The state of a walk after some moves, and the pairs that the moves gave.
pub struct Walked {
    pub walk: Walk,
    pub pairs: Seq<Pair>,
}

/// What a move gave, as a list.
pub open spec fn given(outcome: Outcome) -> Seq<Pair> {
    match outcome {
        Outcome::Yield(key, value) => seq![(key, value)],
        _ => Seq::empty(),
    }
}

/// The walk after `steps` moves, with the pairs that they gave, in order.
pub open spec fn walk_all(blobs: Map<Seq<u8>, Seq<u8>>, walk: Walk, steps: nat) -> Walked
    decreases steps,
{
    if steps == 0 {
        Walked { walk, pairs: Seq::empty() }
    } else {
        let first = step_spec(blobs, walk);
        let rest = walk_all(blobs, first.walk, (steps - 1) as nat);
        Walked { walk: rest.walk, pairs: given(first.outcome) + rest.pairs }
    }
}

/// Moves made one after the other give what the first ones gave and then
/// what the others gave.
pub proof fn lemma_walk_join(blobs: Map<Seq<u8>, Seq<u8>>, walk: Walk, a: nat, b: nat)
    ensures
        walk_all(blobs, walk, a + b) == (Walked {
            walk: walk_all(blobs, walk_all(blobs, walk, a).walk, b).walk,
            pairs: walk_all(blobs, walk, a).pairs + walk_all(
                blobs,
                walk_all(blobs, walk, a).walk,
                b,
            ).pairs,
        }),
    decreases a,
{
    if a == 0 {
        assert(Seq::<Pair>::empty() + walk_all(blobs, walk, b).pairs =~= walk_all(
            blobs,
            walk,
            b,
        ).pairs);
    } else {
        let first = step_spec(blobs, walk);
        lemma_walk_join(blobs, first.walk, (a - 1) as nat, b);
        let mid = walk_all(blobs, first.walk, (a - 1) as nat);
        let end = walk_all(blobs, mid.walk, b);
        assert(given(first.outcome) + (mid.pairs + end.pairs) =~= (given(first.outcome)
            + mid.pairs) + end.pairs);
    }
}

/// One move gives what `step_spec` says.
pub proof fn lemma_walk_one(blobs: Map<Seq<u8>, Seq<u8>>, walk: Walk)
    ensures
        walk_all(blobs, walk, 1) == (Walked {
            walk: step_spec(blobs, walk).walk,
            pairs: given(step_spec(blobs, walk).outcome),
        }),
{
    reveal_with_fuel(walk_all, 2);
    assert(given(step_spec(blobs, walk).outcome) + Seq::<Pair>::empty() =~= given(
        step_spec(blobs, walk).outcome,
    ));
}

/// The pairs below a node, in the order of the paths: each key is the path
/// from the root, packed into bytes.
pub open spec fn entries(n: NodeModel, path: Seq<u8>) -> Seq<Pair>
    decreases n, 0nat,
{
    match n {
        NodeModel::Leaf { key, value } => seq![(pack(body(path + key)), value)],
        NodeModel::Extension { prefix, child } => entries(*child, path + prefix),
        NodeModel::Branch { children, value } => given_value(value, path) + child_entries(
            children,
            path,
            children.len(),
        ),
        _ => Seq::empty(),
    }
}

/// The pair that a branch holds itself, as a list.
pub open spec fn given_value(value: Option<Seq<u8>>, path: Seq<u8>) -> Seq<Pair> {
    match value {
        Some(v) => seq![(pack(body(path)), v)],
        None => Seq::empty(),
    }
}

/// The pairs below the first `count` children of a branch.
pub open spec fn child_entries(children: Seq<NodeModel>, path: Seq<u8>, count: nat) -> Seq<Pair>
    decreases children, count,
{
    if count == 0 || count > children.len() {
        Seq::empty()
    } else {
        child_entries(children, path, (count - 1) as nat) + entries(
            children[count - 1],
            path.push((count - 1) as u8),
        )
    }
}

/// The number of moves that a walk makes at and below a node.
pub open spec fn cost(n: NodeModel) -> nat
    decreases n, 0nat,
{
    match n {
        NodeModel::Leaf { key, value } => 3,
        NodeModel::Extension { prefix, child } => 3 + cost(*child),
        NodeModel::Branch { children, value } => 3 + children_cost(children, children.len()),
        NodeModel::Empty => 1,
        NodeModel::Hash { digest } => 0,
    }
}

/// The number of moves that a walk makes for the first `count` children of
/// a branch.
pub open spec fn children_cost(children: Seq<NodeModel>, count: nat) -> nat
    decreases children, count,
{
    if count == 0 || count > children.len() {
        0
    } else {
        children_cost(children, (count - 1) as nat) + 1 + cost(children[count - 1])
    }
}

/// The frame of a branch that stands at the child `count`, or past the
/// branch after the last child.
pub open spec fn branch_frame(node: NodeModel, count: nat) -> Frame {
    Frame {
        node,
        status: if count < 16 {
            TraceStatus::Child(count as u8)
        } else {
            TraceStatus::End
        },
    }
}

/// The path while the walk is below a branch: the path to the branch and
/// the nibble of the child that was entered last.
pub open spec fn branch_path(path: Seq<u8>, count: nat) -> Seq<u8> {
    if count == 0 {
        path
    } else {
        path.push((count - 1) as u8)
    }
}

/// A walk that stands before a node of a trie in memory makes `cost` moves
/// at and below the node, gives the pairs below the node in their order,
/// and then stands where it stood, without the node.
pub proof fn lemma_walk_node(
    blobs: Map<Seq<u8>, Seq<u8>>,
    below: Seq<Frame>,
    n: NodeModel,
    path: Seq<u8>,
)
    requires
        n.wf(),
        in_memory(n),
        all_nibbles(path),
    ensures
        walk_all(blobs, Walk { frames: below.push(entering(n)), path }, cost(n)) == (Walked {
            walk: Walk { frames: below, path },
            pairs: entries(n, path),
        }),
    decreases n, 1nat,
{
    let start = Walk { frames: below.push(entering(n)), path };
    assert(start.frames.drop_last() =~= below);
    assert(start.frames.last() == entering(n));
    lemma_walk_one(blobs, start);
    match n {
        NodeModel::Empty => {},
        NodeModel::Hash { digest } => {},
        NodeModel::Leaf { key, value } => {
            let doing = Frame { node: n, status: TraceStatus::Doing };
            let done = Frame { node: n, status: TraceStatus::End };
            let second = Walk { frames: below.push(doing), path };
            let third = Walk { frames: below.push(done), path: path + key };
            assert(second.frames.drop_last() =~= below);
            assert(third.frames.drop_last() =~= below);
            assert((path + key).take((path + key).len() - key.len()) =~= path);
            lemma_walk_one(blobs, second);
            lemma_walk_one(blobs, third);
            lemma_walk_join(blobs, start, 1, 1);
            lemma_walk_join(blobs, start, 2, 1);
            assert(walk_all(blobs, start, 3).pairs =~= entries(n, path));
        },
        NodeModel::Extension { prefix, child } => {
            let doing = Frame { node: n, status: TraceStatus::Doing };
            let done = Frame { node: n, status: TraceStatus::End };
            let second = Walk { frames: below.push(doing), path };
            let longer = path + prefix;
            let inside = Walk { frames: below.push(done).push(entering(*child)), path: longer };
            let last = Walk { frames: below.push(done), path: longer };
            assert(second.frames.drop_last() =~= below);
            assert(last.frames.drop_last() =~= below);
            assert(longer.take(longer.len() - prefix.len()) =~= path);
            assert(all_nibbles(longer)) by {
                assert forall|i: int| 0 <= i < longer.len() implies #[trigger] longer[i] < 16 by {
                    if i < path.len() {
                        assert(path[i] < 16);
                    } else {
                        assert(prefix[i - path.len()] < 16);
                    }
                }
            }
            lemma_walk_one(blobs, second);
            lemma_walk_node(blobs, below.push(done), *child, longer);
            lemma_walk_one(blobs, last);
            lemma_walk_join(blobs, start, 1, 1);
            lemma_walk_join(blobs, start, 2, cost(*child));
            lemma_walk_join(blobs, start, 2 + cost(*child), 1);
            assert(walk_all(blobs, start, 3 + cost(*child)).pairs =~= entries(n, path));
        },
        NodeModel::Branch { children, value } => {
            let doing = Frame { node: n, status: TraceStatus::Doing };
            let second = Walk { frames: below.push(doing), path };
            let first_child = Walk { frames: below.push(branch_frame(n, 0)), path };
            let last = Walk { frames: below.push(branch_frame(n, 16)), path: branch_path(path, 16) };
            assert(second.frames.drop_last() =~= below);
            assert(last.frames.drop_last() =~= below);
            assert(path.push(15u8).drop_last() =~= path);
            lemma_walk_one(blobs, second);
            lemma_walk_children(blobs, below, n, path, 16);
            lemma_walk_one(blobs, last);
            let inner = children_cost(children, 16);
            lemma_walk_join(blobs, start, 1, 1);
            lemma_walk_join(blobs, start, 2, inner);
            lemma_walk_join(blobs, start, 2 + inner, 1);
            assert(walk_all(blobs, start, 3 + inner).pairs =~= entries(n, path));
        },
    }
}

/// A walk that stands at the first child of a branch of a trie in memory
/// gives, in the moves for the first `count` children, the pairs below
/// them, and then stands at the next child.
pub proof fn lemma_walk_children(
    blobs: Map<Seq<u8>, Seq<u8>>,
    below: Seq<Frame>,
    n: NodeModel,
    path: Seq<u8>,
    count: nat,
)
    requires
        n is Branch,
        n.wf(),
        in_memory(n),
        all_nibbles(path),
        count <= 16,
    ensures
        walk_all(
            blobs,
            Walk { frames: below.push(branch_frame(n, 0)), path },
            children_cost(n->children, count),
        ) == (Walked {
            walk: Walk { frames: below.push(branch_frame(n, count)), path: branch_path(path, count) },
            pairs: child_entries(n->children, path, count),
        }),
    decreases n, 0nat, count,
{
    let children = n->children;
    let start = Walk { frames: below.push(branch_frame(n, 0)), path };
    if count > 0 {
        let before = (count - 1) as nat;
        lemma_walk_children(blobs, below, n, path, before);
        let at = Walk { frames: below.push(branch_frame(n, before)), path: branch_path(path, before) };
        let child = children[before as int];
        let nibble = before as u8;
        let longer = path.push(nibble);
        let entered = Walk {
            frames: below.push(branch_frame(n, count)).push(entering(child)),
            path: longer,
        };
        assert(at.frames.drop_last() =~= below);
        assert(at.frames.last() == branch_frame(n, before));
        assert(advanced(branch_frame(n, before)) == branch_frame(n, count));
        if before > 0 {
            assert(path.push((before - 1) as u8).drop_last() =~= path);
        }
        assert(step_spec(blobs, at) == (Stepped { walk: entered, outcome: Outcome::Continue }));
        lemma_walk_one(blobs, at);
        assert(all_nibbles(longer)) by {
            assert forall|i: int| 0 <= i < longer.len() implies #[trigger] longer[i] < 16 by {
                if i < path.len() {
                    assert(path[i] < 16);
                }
            }
        }
        assert(child.wf() && in_memory(child));
        lemma_walk_node(blobs, below.push(branch_frame(n, count)), child, longer);
        let done = children_cost(children, before);
        lemma_walk_join(blobs, start, done, 1);
        lemma_walk_join(blobs, start, done + 1, cost(child));
        assert(walk_all(blobs, start, children_cost(children, count)).pairs =~= child_entries(
            children,
            path,
            count,
        ));
    }
}

/// The walk over a trie in memory gives the pairs of the trie in their
/// order, each key the path from the root packed into bytes, and ends with
/// nothing left to walk.
pub proof fn lemma_walk_gives_entries(blobs: Map<Seq<u8>, Seq<u8>>, root: NodeModel)
    requires
        root.wf(),
        in_memory(root),
    ensures
        walk_all(blobs, start_walk(root), cost(root)) == (Walked {
            walk: Walk { frames: Seq::empty(), path: Seq::empty() },
            pairs: entries(root, Seq::empty()),
        }),
{
    let none = Seq::<Frame>::empty();
    assert(start_walk(root).frames =~= none.push(entering(root)));
    lemma_walk_node(blobs, none, root, Seq::empty());
}

/// A run of moves that ends with a pair has given that pair and no other; a
/// run that stops has given none. The moves of the run are moves of the walk.
pub proof fn lemma_run_is_walk(blobs: Map<Seq<u8>, Seq<u8>>, walk: Walk, count: nat)
    requires
        count >= 1,
        !(run_spec(blobs, walk, count).outcome is Continue),
    ensures
        exists|steps: nat|
            1 <= steps <= count && #[trigger] walk_all(blobs, walk, steps) == (Walked {
                walk: run_spec(blobs, walk, count).walk,
                pairs: given(run_spec(blobs, walk, count).outcome),
            }),
    decreases count,
{
    let first = step_spec(blobs, walk);
    lemma_walk_one(blobs, walk);
    if count <= 1 || !(first.outcome is Continue) {
        assert(walk_all(blobs, walk, 1) == (Walked {
            walk: run_spec(blobs, walk, count).walk,
            pairs: given(run_spec(blobs, walk, count).outcome),
        }));
    } else {
        lemma_run_is_walk(blobs, first.walk, (count - 1) as nat);
        let steps = choose|steps: nat|
            1 <= steps <= count - 1 && #[trigger] walk_all(blobs, first.walk, steps) == (Walked {
                walk: run_spec(blobs, first.walk, (count - 1) as nat).walk,
                pairs: given(run_spec(blobs, first.walk, (count - 1) as nat).outcome),
            });
        lemma_walk_join(blobs, walk, 1, steps);
        assert(Seq::<Pair>::empty() + walk_all(blobs, first.walk, steps).pairs =~= walk_all(
            blobs,
            first.walk,
            steps,
        ).pairs);
        assert(walk_all(blobs, walk, 1 + steps) == (Walked {
            walk: run_spec(blobs, walk, count).walk,
            pairs: given(run_spec(blobs, walk, count).outcome),
        }));
    }
}

/// Splitting a byte string into nibbles and packing them again gives the
/// byte string back.
pub proof fn lemma_pack_unpack(raw: Seq<u8>)
    ensures
        pack(unpack(raw)) == raw,
        body(path_of(raw, true)) == unpack(raw),
{
    assert(unpack(raw).len() == 2 * raw.len());
    assert(pack(unpack(raw)).len() == raw.len());
    assert forall|i: int| 0 <= i < raw.len() implies #[trigger] pack(unpack(raw))[i] == raw[i] by {
        assert((2 * i) / 2 == i && (2 * i) % 2 == 0);
        assert((2 * i + 1) / 2 == i && (2 * i + 1) % 2 == 1);
        let x = raw[i] as int;
        assert(unpack(raw)[2 * i] == raw[i] / 16);
        assert(unpack(raw)[2 * i + 1] == raw[i] % 16);
        assert(x == 16 * (x / 16) + x % 16);
    }
    assert(pack(unpack(raw)) =~= raw);
    assert(path_of(raw, true).drop_last() =~= unpack(raw));
}

/// A path of nibbles with the terminator after it has the nibbles as its
/// body.
pub proof fn lemma_body_of_ended(path: Seq<u8>)
    requires
        all_nibbles(path),
    ensures
        body(path + seq![16u8]) == path,
{
    let ended = path + seq![16u8];
    assert(ended.last() == 16);
    assert(ended.drop_last() =~= path);
}

/// The pairs below the first children of a branch hold, from the place
/// where those of the child `slot` begin, the pairs below that child.
pub proof fn lemma_child_entries_at(
    children: Seq<NodeModel>,
    path: Seq<u8>,
    count: nat,
    slot: nat,
    index: int,
)
    requires
        slot < count <= children.len(),
        0 <= index < entries(children[slot as int], path.push(slot as u8)).len(),
    ensures
        child_entries(children, path, slot).len() + index < child_entries(children, path, count).len(),
        child_entries(children, path, count)[child_entries(children, path, slot).len() + index]
            == entries(children[slot as int], path.push(slot as u8))[index],
    decreases count,
{
    if slot + 1 < count {
        lemma_child_entries_at(children, path, (count - 1) as nat, slot, index);
    }
}

/// Each pair below the first children of a branch is a pair below one of
/// them.
pub proof fn lemma_child_entries_from(
    children: Seq<NodeModel>,
    path: Seq<u8>,
    count: nat,
    index: int,
) -> (place: (nat, int))
    requires
        count <= children.len(),
        0 <= index < child_entries(children, path, count).len(),
    ensures
        place.0 < count,
        0 <= place.1 < entries(children[place.0 as int], path.push(place.0 as u8)).len(),
        child_entries(children, path, count)[index] == entries(
            children[place.0 as int],
            path.push(place.0 as u8),
        )[place.1],
    decreases count,
{
    let before = child_entries(children, path, (count - 1) as nat);
    if index < before.len() {
        lemma_child_entries_from(children, path, (count - 1) as nat, index)
    } else {
        ((count - 1) as nat, index - before.len())
    }
}

/// Each pair that the walk gives is in the trie: its value stands under a
/// path below the node, and its key is the path from the root, packed.
pub proof fn lemma_entries_sound(
    blobs: Map<Seq<u8>, Seq<u8>>,
    n: NodeModel,
    path: Seq<u8>,
    index: int,
) -> (q: Seq<u8>)
    requires
        n.wf(),
        in_memory(n),
        all_nibbles(path),
        0 <= index < entries(n, path).len(),
    ensures
        is_leaf_path(q),
        get_spec(blobs, n, q) == Ok::<Option<Seq<u8>>, crate::errors::ErrorKind>(
            Some(entries(n, path)[index].1),
        ),
        entries(n, path)[index].0 == pack(body(path + q)),
    decreases n,
{
    match n {
        NodeModel::Leaf { key, value } => key,
        NodeModel::Extension { prefix, child } => {
            let longer = path + prefix;
            assert(all_nibbles(longer)) by {
                assert forall|i: int| 0 <= i < longer.len() implies #[trigger] longer[i] < 16 by {
                    if i < path.len() {
                        assert(path[i] < 16);
                    } else {
                        assert(prefix[i - path.len()] < 16);
                    }
                }
            }
            let rest = lemma_entries_sound(blobs, *child, longer, index);
            lemma_extension_path(blobs, prefix, *child, rest);
            assert(longer + rest =~= path + (prefix + rest));
            prefix + rest
        },
        NodeModel::Branch { children, value } => {
            let own = given_value(value, path);
            if index < own.len() {
                let end = seq![16u8];
                lemma_body_of_ended(path);
                assert(end.drop_last() =~= Seq::<u8>::empty());
                assert(end.last() == 16);
                end
            } else {
                let place = lemma_child_entries_from(children, path, 16, index - own.len());
                let slot = place.0 as int;
                let longer = path.push(slot as u8);
                assert(all_nibbles(longer)) by {
                    assert forall|i: int| 0 <= i < longer.len() implies #[trigger] longer[i]
                        < 16 by {
                        if i < path.len() {
                            assert(path[i] < 16);
                        }
                    }
                }
                assert(children[slot].wf() && in_memory(children[slot]));
                let rest = lemma_entries_sound(blobs, children[slot], longer, place.1);
                lemma_branch_path(blobs, children, value, slot, rest);
                assert(longer + rest =~= path + (seq![slot as u8] + rest));
                seq![slot as u8] + rest
            }
        },
        _ => Seq::empty(),
    }
}

/// Each value of the trie is among the pairs that the walk gives, under
/// the path from the root, packed.
pub proof fn lemma_entries_complete(
    blobs: Map<Seq<u8>, Seq<u8>>,
    n: NodeModel,
    path: Seq<u8>,
    q: Seq<u8>,
) -> (index: int)
    requires
        n.wf(),
        in_memory(n),
        all_nibbles(path),
        is_leaf_path(q),
        get_spec(blobs, n, q) matches Ok(Some(_)),
    ensures
        0 <= index < entries(n, path).len(),
        entries(n, path)[index] == (pack(body(path + q)), get_spec(blobs, n, q)->Ok_0->Some_0),
    decreases n,
{
    match n {
        NodeModel::Leaf { key, value } => 0,
        NodeModel::Extension { prefix, child } => {
            let longer = path + prefix;
            assert(all_nibbles(longer)) by {
                assert forall|i: int| 0 <= i < longer.len() implies #[trigger] longer[i] < 16 by {
                    if i < path.len() {
                        assert(path[i] < 16);
                    } else {
                        assert(prefix[i - path.len()] < 16);
                    }
                }
            }
            crate::laws::lemma_leaf_after_prefix(q, prefix);
            let rest = q.skip(prefix.len() as int);
            let index = lemma_entries_complete(blobs, *child, longer, rest);
            assert(q =~= prefix + rest);
            assert(longer + rest =~= path + q);
            index
        },
        NodeModel::Branch { children, value } => {
            crate::shape::lemma_leaf_path_head(q, 0);
            let own = given_value(value, path);
            if q[0] == 16 {
                crate::laws::lemma_only_terminator(q);
                lemma_body_of_ended(path);
                0
            } else {
                let slot = q[0] as nat;
                let longer = path.push(slot as u8);
                let rest = q.skip(1);
                assert(all_nibbles(longer)) by {
                    assert forall|i: int| 0 <= i < longer.len() implies #[trigger] longer[i]
                        < 16 by {
                        if i < path.len() {
                            assert(path[i] < 16);
                        }
                    }
                }
                crate::lookup::lemma_skip_path(q, 1);
                assert(children[slot as int].wf() && in_memory(children[slot as int]));
                let inner = lemma_entries_complete(blobs, children[slot as int], longer, rest);
                lemma_child_entries_at(children, path, 16, slot, inner);
                assert(q =~= seq![slot as u8] + rest);
                assert(longer + rest =~= path + q);
                own.len() + child_entries(children, path, slot).len() + inner
            }
        },
        _ => 0,
    }
}

/// The walk gives the trie: each pair that the walk over a trie in memory
/// gives is a key of the trie with its value, and each key of the trie is
/// given with its value.
pub proof fn lemma_walk_gives_the_trie(blobs: Map<Seq<u8>, Seq<u8>>, root: NodeModel)
    requires
        root.wf(),
        in_memory(root),
        keyed_by_bytes(blobs, root),
    ensures
        walk_all(blobs, start_walk(root), cost(root)).walk.frames.len() == 0,
        forall|i: int|
            0 <= i < walk_all(blobs, start_walk(root), cost(root)).pairs.len() ==> get_spec(
                blobs,
                root,
                path_of((#[trigger] walk_all(blobs, start_walk(root), cost(root)).pairs[i]).0, true),
            ) == Ok::<Option<Seq<u8>>, crate::errors::ErrorKind>(
                Some(walk_all(blobs, start_walk(root), cost(root)).pairs[i].1),
            ),
        forall|key: Seq<u8>|
            (#[trigger] get_spec(blobs, root, path_of(key, true)) matches Ok(Some(_))) ==> exists|
                i: int,
            |
                0 <= i < walk_all(blobs, start_walk(root), cost(root)).pairs.len() && #[trigger] walk_all(
                    blobs,
                    start_walk(root),
                    cost(root),
                ).pairs[i] == (key, get_spec(blobs, root, path_of(key, true))->Ok_0->Some_0),
{
    lemma_walk_gives_entries(blobs, root);
    let none = Seq::<u8>::empty();
    let pairs = entries(root, none);
    assert forall|i: int| 0 <= i < pairs.len() implies get_spec(
        blobs,
        root,
        path_of((#[trigger] pairs[i]).0, true),
    ) == Ok::<Option<Seq<u8>>, crate::errors::ErrorKind>(Some(pairs[i].1)) by {
        let q = lemma_entries_sound(blobs, root, none, i);
        assert(none + q =~= q);
        let key = choose|key: Seq<u8>| q == #[trigger] path_of(key, true);
        lemma_pack_unpack(key);
    }
    assert forall|key: Seq<u8>|
        (#[trigger] get_spec(blobs, root, path_of(key, true)) matches Ok(Some(_))) implies exists|
        i: int,
    |
        0 <= i < pairs.len() && #[trigger] pairs[i] == (
            key,
            get_spec(blobs, root, path_of(key, true))->Ok_0->Some_0,
        ) by {
        lemma_key_paths(key, key);
        let q = path_of(key, true);
        let i = lemma_entries_complete(blobs, root, none, q);
        assert(none + q =~= q);
        lemma_pack_unpack(key);
        assert(pairs[i] == (key, get_spec(blobs, root, path_of(key, true))->Ok_0->Some_0));
    }
}

} // verus!
