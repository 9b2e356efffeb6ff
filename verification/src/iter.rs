//! Walking over the keys and values of a trie.
//!
//! The walk keeps a stack of the nodes it is in, each with the place where
//! it stands at that node, and the path from the root to where it is.
use crate::db::HashDB;
use crate::delete::lemma_joined_paths;
use crate::encoding::decode_spec;
use crate::nibbles::all_nibbles;
use crate::nibbles::body;
use crate::nibbles::is_path;
use crate::nibbles::pack;
use crate::nibbles::terminated;
use crate::nibbles::Nibbles;
use crate::node::copy_bytes;
use crate::node::lemma_branch_model;
use crate::node::Node;
use crate::node::NodeModel;
use crate::trie::PatriciaTrie;
use vstd::prelude::*;

verus! {

/// Where the walk stands at a node: before it, at it, at one of the sixteen
/// children of a branch, or past it.
#[derive(Clone, Copy, Debug, PartialEq, Eq, Structural)]
pub enum TraceStatus {
    Start,
    Doing,
    Child(u8),
    End,
}

/// The place that follows `status` at a node: from before the node to the
/// node itself; from a branch to its first child and from any other node to
/// the end; from a child to the next one, and from the last child to the end.
pub open spec fn next_status(node: NodeModel, status: TraceStatus) -> TraceStatus {
    match status {
        TraceStatus::Start => TraceStatus::Doing,
        TraceStatus::Doing => if node is Branch {
            TraceStatus::Child(0)
        } else {
            TraceStatus::End
        },
        TraceStatus::Child(i) => if i < 15 {
            TraceStatus::Child((i + 1) as u8)
        } else {
            TraceStatus::End
        },
        TraceStatus::End => TraceStatus::End,
    }
}

/// A node on the way of the walk, with the place where the walk stands at it.
#[derive(Debug)]
pub struct TraceNode {
    pub node: Node,
    pub status: TraceStatus,
}

/// A node on the way of the walk, as a mathematical value.
pub struct Frame {
    pub node: NodeModel,
    pub status: TraceStatus,
}

/// The state of a walk: the nodes it is in, the root first, and the path
/// from the root to where it is.
pub struct Walk {
    pub frames: Seq<Frame>,
    pub path: Seq<u8>,
}

/// What one move of the walk comes to: nothing yet, a key with its value, or
/// the end of this run.
pub enum Outcome {
    Continue,
    Yield(Seq<u8>, Seq<u8>),
    Stop,
}

/// The state after a move, and what the move came to.
pub struct Stepped {
    pub walk: Walk,
    pub outcome: Outcome,
}

impl View for TraceNode {
    type V = Frame;

    open spec fn view(&self) -> Frame {
        Frame { node: self.node@, status: self.status }
    }
}

/// The frames that a stack of nodes stands for.
pub open spec fn frames_of(nodes: Seq<TraceNode>) -> Seq<Frame> {
    Seq::new(nodes.len(), |i: int| nodes[i]@)
}

/// The walk before the root.
pub open spec fn start_walk(root: NodeModel) -> Walk {
    Walk { frames: seq![Frame { node: root, status: TraceStatus::Start }], path: Seq::empty() }
}

/// The frame at the next place of the walk.
pub open spec fn advanced(frame: Frame) -> Frame {
    Frame { node: frame.node, status: next_status(frame.node, frame.status) }
}

/// The walk before a node that it has just come to.
pub open spec fn entering(node: NodeModel) -> Frame {
    Frame { node, status: TraceStatus::Start }
}

/// The path once the walk has left a node: what the node added to it is
/// taken off again.
pub open spec fn path_after(node: NodeModel, path: Seq<u8>) -> Seq<u8> {
    match node {
        NodeModel::Leaf { key, value } => path.take(path.len() - key.len()),
        NodeModel::Extension { prefix, child } => path.take(path.len() - prefix.len()),
        NodeModel::Branch { children, value } => path.drop_last(),
        _ => path,
    }
}

/// The node that a walk reads under a digest: none where nothing is stored
/// there, and none where what is stored there is no node.
pub open spec fn read_spec(blobs: Map<Seq<u8>, Seq<u8>>, digest: Seq<u8>) -> Option<NodeModel> {
    if blobs.contains_key(digest) {
        match decode_spec(blobs[digest], false) {
            Ok(stored) => Some(stored),
            Err(e) => None,
        }
    } else {
        None
    }
}

/// One move of the walk.
///
/// The walk looks at the node on top of the stack and at the place where it
/// stands there, and moves that place on. Past a node, it takes the node off
/// the stack. At an extension, it goes down to the child; at a leaf, it
/// gives the leaf's key and value; at a branch, the value of the branch, if
/// it has one; at a reference, it puts the stored node in its place, and
/// stops the run where nothing is stored under the digest or what is stored
/// cannot be read. At a child of a branch, it goes
/// down to that child. An empty node is taken off the stack.
pub open spec fn step_spec(blobs: Map<Seq<u8>, Seq<u8>>, walk: Walk) -> Stepped {
    if walk.frames.len() == 0 {
        Stepped { walk, outcome: Outcome::Stop }
    } else {
        let top = walk.frames.last();
        let below = walk.frames.drop_last();
        let kept = below.push(advanced(top));
        let path = walk.path;
        if top.status is End {
            Stepped {
                walk: Walk { frames: below, path: path_after(top.node, path) },
                outcome: Outcome::Continue,
            }
        } else {
            match top.node {
                NodeModel::Empty => Stepped {
                    walk: Walk { frames: below, path },
                    outcome: Outcome::Continue,
                },
                NodeModel::Extension { prefix, child } => if top.status is Doing {
                    Stepped {
                        walk: Walk { frames: kept.push(entering(*child)), path: path + prefix },
                        outcome: Outcome::Continue,
                    }
                } else {
                    Stepped { walk: Walk { frames: kept, path }, outcome: Outcome::Continue }
                },
                NodeModel::Leaf { key, value } => if top.status is Doing {
                    Stepped {
                        walk: Walk { frames: kept, path: path + key },
                        outcome: Outcome::Yield(pack(body(path + key)), value),
                    }
                } else {
                    Stepped { walk: Walk { frames: kept, path }, outcome: Outcome::Continue }
                },
                NodeModel::Branch { children, value } => match top.status {
                    TraceStatus::Doing => Stepped {
                        walk: Walk { frames: kept, path },
                        outcome: match value {
                            Some(v) => Outcome::Yield(pack(body(path)), v),
                            None => Outcome::Continue,
                        },
                    },
                    TraceStatus::Child(i) => Stepped {
                        walk: Walk {
                            frames: kept.push(entering(children[i as int])),
                            path: if i == 0 {
                                path.push(0u8)
                            } else {
                                path.drop_last().push(i)
                            },
                        },
                        outcome: Outcome::Continue,
                    },
                    _ => Stepped { walk: Walk { frames: kept, path }, outcome: Outcome::Continue },
                },
                NodeModel::Hash { digest } => if top.status is Doing {
                    match read_spec(blobs, digest) {
                        Some(stored) => Stepped {
                            walk: Walk { frames: below.push(entering(stored)), path },
                            outcome: Outcome::Continue,
                        },
                        None => Stepped { walk: Walk { frames: kept, path }, outcome: Outcome::Stop },
                    }
                } else {
                    Stepped { walk: Walk { frames: kept, path }, outcome: Outcome::Continue }
                },
            }
        }
    }
}

/// The move that ends a run of at most `count` moves: the first one that
/// gives a key or stops, or the last one if none does.
pub open spec fn run_spec(blobs: Map<Seq<u8>, Seq<u8>>, walk: Walk, count: nat) -> Stepped
    decreases count,
{
    let first = step_spec(blobs, walk);
    if count <= 1 || !(first.outcome is Continue) {
        first
    } else {
        run_spec(blobs, first.walk, (count - 1) as nat)
    }
}

/// What a frame has added to the path.
pub open spec fn added(frame: Frame) -> nat {
    match frame.node {
        NodeModel::Leaf { key, value } => if frame.status is End {
            key.len()
        } else {
            0
        },
        NodeModel::Extension { prefix, child } => if frame.status is End {
            prefix.len()
        } else {
            0
        },
        NodeModel::Branch { children, value } => match frame.status {
            TraceStatus::End => 1,
            TraceStatus::Child(i) => if i >= 1 {
                1
            } else {
                0
            },
            _ => 0,
        },
        _ => 0,
    }
}

/// What the frames have added to the path together.
pub open spec fn grown(frames: Seq<Frame>) -> nat
    decreases frames.len(),
{
    if frames.len() == 0 {
        0
    } else {
        grown(frames.drop_last()) + added(frames.last())
    }
}

/// A frame that the walk has gone down from: an extension or a branch that
/// has added to the path.
pub open spec fn passed(frame: Frame) -> bool {
    (frame.node is Extension || frame.node is Branch) && added(frame) >= 1
}

/// The status is one that the walk gives.
pub open spec fn status_ok(status: TraceStatus) -> bool {
    status matches TraceStatus::Child(i) ==> i <= 15
}

/// A frame whose node has the shape of a node and whose status is one that
/// the walk gives: only at a branch does it stand at a child.
pub open spec fn frame_ok(frame: Frame) -> bool {
    frame.node.wf() && status_ok(frame.status) && (frame.status is Child ==> frame.node is Branch)
}

/// Frames that the walk has gone down from, all of them.
pub open spec fn stack_ok(frames: Seq<Frame>) -> bool {
    forall|j: int| 0 <= j < frames.len() ==> frame_ok(#[trigger] frames[j]) && passed(frames[j])
}

/// What holds of a walk between its moves, but for the bound on its path:
/// the path is as long as what the frames have added to it and is a
/// well-formed path; the walk has gone down from every frame but the top
/// one; and the path is terminated only while the walk stands past a leaf.
pub open spec fn walk_ok(walk: Walk) -> bool {
    &&& walk.path.len() == grown(walk.frames)
    &&& is_path(walk.path)
    &&& walk.frames.len() > 0 ==> stack_ok(walk.frames.drop_last()) && frame_ok(
        walk.frames.last(),
    )
    &&& terminated(walk.path) ==> walk.frames.len() > 0 && walk.frames.last().node is Leaf
        && walk.frames.last().status is End
}

/// What holds of a walk between its moves.
pub open spec fn walk_wf(walk: Walk) -> bool {
    walk_ok(walk) && walk.path.len() <= usize::MAX
}

/// The frames that the walk has gone down from have each added to the path.
pub proof fn lemma_grown_passed(frames: Seq<Frame>)
    requires
        stack_ok(frames),
    ensures
        grown(frames) >= frames.len(),
    decreases frames.len(),
{
    if frames.len() > 0 {
        assert forall|j: int| 0 <= j < frames.drop_last().len() implies frame_ok(
            #[trigger] frames.drop_last()[j],
        ) && passed(frames.drop_last()[j]) by {
            assert(passed(frames[j]));
        }
        lemma_grown_passed(frames.drop_last());
        assert(passed(frames[frames.len() - 1]));
    }
}

/// What the frames have added once one more frame stands on them.
pub proof fn lemma_grown_push(frames: Seq<Frame>, frame: Frame)
    ensures
        grown(frames.push(frame)) == grown(frames) + added(frame),
{
    assert(frames.push(frame).drop_last() =~= frames);
}

/// The moves that a frame has before it, counted generously: a reference
/// has those of the node it stands for before it as well.
pub open spec fn moves_left(frame: Frame) -> nat {
    let own: nat = match frame.status {
        TraceStatus::Start => 19,
        TraceStatus::Doing => 18,
        TraceStatus::Child(i) => if i <= 15 {
            (17 - i) as nat
        } else {
            1
        },
        TraceStatus::End => 1,
    };
    if frame.node is Hash {
        own + 20
    } else {
        own
    }
}

/// The weight of one move at a depth: 64 times that of a move one deeper.
pub open spec fn scale(height: nat) -> nat
    decreases height,
{
    if height == 0 {
        1
    } else {
        64 * scale((height - 1) as nat)
    }
}

/// The weight of a move of the frame at position `depth` of the stack.
pub open spec fn scale_at(depth: nat) -> nat {
    if depth <= usize::MAX + 1 {
        scale((usize::MAX + 1 - depth) as nat)
    } else {
        1
    }
}

/// The moves that the stack has before it, each weighted by its depth: a
/// bound on the moves that the walk can still make.
pub open spec fn weight(frames: Seq<Frame>) -> nat
    decreases frames.len(),
{
    if frames.len() == 0 {
        0
    } else {
        weight(frames.drop_last()) + moves_left(frames.last()) * scale_at(
            (frames.len() - 1) as nat,
        )
    }
}

/// A move weighs something, and 64 times what a move one deeper weighs.
pub proof fn lemma_scale_at(depth: nat)
    ensures
        scale_at(depth) >= 1,
        depth <= usize::MAX ==> scale_at(depth) == 64 * scale_at(depth + 1),
{
    lemma_scale_positive((usize::MAX + 1 - depth) as nat);
    if depth <= usize::MAX {
        lemma_scale_positive((usize::MAX - depth) as nat);
    }
}

/// A move weighs something.
pub proof fn lemma_scale_positive(height: nat)
    ensures
        scale(height) >= 1,
    decreases height,
{
    if height > 0 {
        lemma_scale_positive((height - 1) as nat);
    }
}

/// The weight of a stack with one more frame on it.
pub proof fn lemma_weight_push(frames: Seq<Frame>, frame: Frame)
    ensures
        weight(frames.push(frame)) == weight(frames) + moves_left(frame) * scale_at(frames.len()),
{
    assert(frames.push(frame).drop_last() =~= frames);
}

/// A frame with fewer moves before it, and a new frame on top of it, weigh
/// less than the frame did.
pub proof fn lemma_weight_step(before: nat, after: nat, child: nat, depth: nat)
    requires
        after < before,
        child < 64,
        depth <= usize::MAX,
    ensures
        after * scale_at(depth) + child * scale_at(depth + 1) < before * scale_at(depth),
{
    lemma_scale_at(depth);
    lemma_scale_at(depth + 1);
    let unit = scale_at(depth + 1);
    assert(after * (64 * unit) + child * unit < before * (64 * unit)) by (nonlinear_arith)
        requires
            after < before,
            child < 64,
            unit >= 1,
    ;
}

/// A frame with fewer moves before it weighs less.
pub proof fn lemma_weight_less(before: nat, after: nat, depth: nat)
    requires
        after < before,
    ensures
        after * scale_at(depth) < before * scale_at(depth),
{
    lemma_scale_at(depth);
    let unit = scale_at(depth);
    assert(after * unit < before * unit) by (nonlinear_arith)
        requires
            after < before,
            unit >= 1,
    ;
}

/// The walk after a frame was taken off the stack.
pub proof fn lemma_shape_drop(below: Seq<Frame>, top: Frame, path: Seq<u8>)
    requires
        stack_ok(below),
        is_path(path),
        !terminated(path),
        path.len() == grown(below),
    ensures
        walk_ok(Walk { frames: below, path }),
        weight(below) < weight(below.push(top)),
{
    if below.len() > 0 {
        assert forall|j: int| 0 <= j < below.drop_last().len() implies frame_ok(
            #[trigger] below.drop_last()[j],
        ) && passed(below.drop_last()[j]) by {
            assert(passed(below[j]));
        }
        assert(frame_ok(below[below.len() - 1]));
    }
    lemma_weight_push(below, top);
    lemma_moves_left(top);
    lemma_weight_less(moves_left(top), 0, below.len());
}

/// The walk after the top frame has moved on.
pub proof fn lemma_shape_keep(below: Seq<Frame>, top: Frame, next: Frame, path: Seq<u8>)
    requires
        stack_ok(below),
        frame_ok(next),
        is_path(path),
        terminated(path) ==> next.node is Leaf && next.status is End,
        path.len() == grown(below) + added(next),
    ensures
        walk_ok(Walk { frames: below.push(next), path }),
        moves_left(next) < moves_left(top) ==> weight(below.push(next)) < weight(below.push(top)),
{
    assert(below.push(next).drop_last() =~= below);
    lemma_grown_push(below, next);
    lemma_weight_push(below, top);
    lemma_weight_push(below, next);
    if moves_left(next) < moves_left(top) {
        lemma_weight_less(moves_left(top), moves_left(next), below.len());
    }
}

/// The walk after it has gone down from the top frame to a child.
pub proof fn lemma_shape_descend(
    below: Seq<Frame>,
    top: Frame,
    next: Frame,
    child: NodeModel,
    path: Seq<u8>,
)
    requires
        stack_ok(below),
        frame_ok(next),
        passed(next),
        child.wf(),
        is_path(path),
        !terminated(path),
        path.len() == grown(below) + added(next),
    ensures
        walk_ok(Walk { frames: below.push(next).push(entering(child)), path }),
        moves_left(next) < moves_left(top) && path.len() <= usize::MAX ==> weight(
            below.push(next).push(entering(child)),
        ) < weight(below.push(top)),
{
    let kept = below.push(next);
    let frames = kept.push(entering(child));
    assert(frames.drop_last() =~= kept);
    assert(stack_ok(kept));
    lemma_grown_push(below, next);
    lemma_grown_push(kept, entering(child));
    lemma_weight_push(below, top);
    lemma_weight_push(below, next);
    lemma_weight_push(kept, entering(child));
    lemma_moves_left(entering(child));
    lemma_grown_passed(kept);
    if moves_left(next) < moves_left(top) && path.len() <= usize::MAX {
        lemma_weight_step(
            moves_left(top),
            moves_left(next),
            moves_left(entering(child)),
            below.len(),
        );
    }
}

/// What holds of the top frame of a walk and of the frames below it.
pub proof fn lemma_walk_top(walk: Walk)
    requires
        walk_ok(walk),
        walk.frames.len() > 0,
    ensures
        stack_ok(walk.frames.drop_last()),
        frame_ok(walk.frames.last()),
        walk.frames == walk.frames.drop_last().push(walk.frames.last()),
        walk.path.len() == grown(walk.frames.drop_last()) + added(walk.frames.last()),
        !(walk.frames.last().node is Leaf && walk.frames.last().status is End) ==> all_nibbles(
            walk.path,
        ),
{
    assert(walk.frames =~= walk.frames.drop_last().push(walk.frames.last()));
}

/// A part of a path of nibbles from its start is a path of nibbles.
pub proof fn lemma_take_nibbles(path: Seq<u8>, count: int)
    requires
        is_path(path),
        0 <= count <= path.len(),
        count < path.len() || !terminated(path),
    ensures
        all_nibbles(path.take(count)),
        is_path(path.take(count)),
        !terminated(path.take(count)),
{
    let part = path.take(count);
    assert forall|i: int| 0 <= i < part.len() implies #[trigger] part[i] < 16 by {
        assert(body(path)[i] < 16);
    }
    if part.len() > 0 {
        assert(part.last() == part[part.len() - 1]);
    }
}

/// A path of nibbles with one more nibble is a path of nibbles.
pub proof fn lemma_push_nibble(path: Seq<u8>, nibble: u8)
    requires
        all_nibbles(path),
        nibble < 16,
    ensures
        all_nibbles(path.push(nibble)),
        is_path(path.push(nibble)),
        !terminated(path.push(nibble)),
{
    let longer = path.push(nibble);
    assert forall|i: int| 0 <= i < longer.len() implies #[trigger] longer[i] < 16 by {
        if i < path.len() {
            assert(path[i] < 16);
        }
    }
    assert(longer.last() == nibble);
}

/// A move keeps what holds of a walk, and a move that gives nothing and does
/// not stop leaves the walk fewer moves than it had.
pub proof fn lemma_step(blobs: Map<Seq<u8>, Seq<u8>>, walk: Walk)
    requires
        walk_ok(walk),
        walk.frames.len() > 0,
    ensures
        walk_ok(step_spec(blobs, walk).walk),
        step_spec(blobs, walk).outcome is Continue && step_spec(blobs, walk).walk.path.len()
            <= usize::MAX ==> weight(step_spec(blobs, walk).walk.frames) < weight(walk.frames),
{
    lemma_walk_top(walk);
    let top = walk.frames.last();
    let below = walk.frames.drop_last();
    let next = advanced(top);
    let path = walk.path;
    lemma_moves_left(top);
    match top.status {
        TraceStatus::End => {
            lemma_step_end(walk);
        },
        TraceStatus::Doing => {
            lemma_step_doing(blobs, walk);
        },
        TraceStatus::Child(i) => {
            lemma_step_child(blobs, walk);
        },
        TraceStatus::Start => {
            if top.node is Empty {
                lemma_shape_drop(below, top, path);
            } else {
                lemma_shape_keep(below, top, next, path);
            }
        },
    }
}

/// A move past a node keeps what holds of a walk and leaves it fewer moves.
pub proof fn lemma_step_end(walk: Walk)
    requires
        walk_ok(walk),
        walk.frames.len() > 0,
        walk.frames.last().status is End,
    ensures
        walk_ok(
            Walk {
                frames: walk.frames.drop_last(),
                path: path_after(walk.frames.last().node, walk.path),
            },
        ),
        weight(walk.frames.drop_last()) < weight(walk.frames),
{
    lemma_walk_top(walk);
    let top = walk.frames.last();
    let below = walk.frames.drop_last();
    let path = walk.path;
    let rest = path_after(top.node, path);
    match top.node {
        NodeModel::Leaf { key, value } => {
            lemma_take_nibbles(path, path.len() - key.len());
        },
        NodeModel::Extension { prefix, child } => {
            lemma_take_nibbles(path, path.len() - prefix.len());
        },
        NodeModel::Branch { children, value } => {
            lemma_take_nibbles(path, path.len() - 1);
        },
        _ => {},
    }
    lemma_shape_drop(below, top, rest);
}

/// A move at a node keeps what holds of a walk, and leaves it fewer moves
/// unless it gives a key or stops.
pub proof fn lemma_step_doing(blobs: Map<Seq<u8>, Seq<u8>>, walk: Walk)
    requires
        walk_ok(walk),
        walk.frames.len() > 0,
        walk.frames.last().status is Doing,
    ensures
        walk_ok(step_spec(blobs, walk).walk),
        step_spec(blobs, walk).outcome is Continue && step_spec(blobs, walk).walk.path.len()
            <= usize::MAX ==> weight(step_spec(blobs, walk).walk.frames) < weight(walk.frames),
{
    lemma_walk_top(walk);
    let top = walk.frames.last();
    let below = walk.frames.drop_last();
    let next = advanced(top);
    let path = walk.path;
    lemma_moves_left(top);
    match top.node {
        NodeModel::Empty => {
            lemma_shape_drop(below, top, path);
        },
        NodeModel::Extension { prefix, child } => {
            lemma_joined_paths(path, prefix);
            let longer = path + prefix;
            assert(longer.last() == prefix.last());
            lemma_shape_descend(below, top, next, *child, longer);
        },
        NodeModel::Leaf { key, value } => {
            lemma_joined_paths(path, key);
            lemma_shape_keep(below, top, next, path + key);
        },
        NodeModel::Branch { children, value } => {
            lemma_shape_keep(below, top, next, path);
        },
        NodeModel::Hash { digest } => {
            match read_spec(blobs, digest) {
                Some(stored) => {
                    crate::encoding::lemma_decode_wf(blobs[digest], false);
                    lemma_moves_left(entering(stored));
                    lemma_shape_keep(below, top, entering(stored), path);
                },
                None => {
                    lemma_shape_keep(below, top, next, path);
                },
            }
        },
    }
}

/// A move at a child of a branch keeps what holds of a walk and leaves it
/// fewer moves.
pub proof fn lemma_step_child(blobs: Map<Seq<u8>, Seq<u8>>, walk: Walk)
    requires
        walk_ok(walk),
        walk.frames.len() > 0,
        walk.frames.last().status is Child,
    ensures
        walk_ok(step_spec(blobs, walk).walk),
        step_spec(blobs, walk).outcome is Continue,
        step_spec(blobs, walk).walk.path.len() <= usize::MAX ==> weight(
            step_spec(blobs, walk).walk.frames,
        ) < weight(walk.frames),
{
    lemma_walk_top(walk);
    let top = walk.frames.last();
    let below = walk.frames.drop_last();
    let next = advanced(top);
    let path = walk.path;
    lemma_moves_left(top);
    let i = top.status->Child_0;
    match top.node {
        NodeModel::Empty => {
            lemma_shape_drop(below, top, path);
        },
        NodeModel::Branch { children, value } => {
            let longer = if i == 0 {
                path.push(0u8)
            } else {
                path.drop_last().push(i)
            };
            if i == 0 {
                lemma_push_nibble(path, 0u8);
            } else {
                lemma_take_nibbles(path, path.len() - 1);
                lemma_push_nibble(path.drop_last(), i);
            }
            assert(children[i as int].wf());
            lemma_shape_descend(below, top, next, children[i as int], longer);
        },
        _ => {
            lemma_shape_keep(below, top, next, path);
        },
    }
}

/// A frame has some moves before it, fewer than 64, and fewer after a move
/// than before it.
pub proof fn lemma_moves_left(frame: Frame)
    ensures
        1 <= moves_left(frame) < 64,
        status_ok(frame.status) && !(frame.status is End) ==> moves_left(advanced(frame))
            < moves_left(frame),
        frame.status is Doing && frame.node is Hash ==> moves_left(frame) == 38,
        frame.status is Start && !(frame.node is Hash) ==> moves_left(frame) == 19,
{
}

impl TraceNode {
    /// The walk before `node`.
    pub fn new(node: Node) -> (r: TraceNode)
        ensures
            r@ == entering(node@),
            r.node == node,
    {
        TraceNode { node, status: TraceStatus::Start }
    }

    /// Moves the walk to the next place at this node.
    pub fn advance(&mut self)
        ensures
            final(self).node == old(self).node,
            final(self).status == next_status(old(self).node@, old(self).status),
            final(self)@ == advanced(old(self)@),
    {
        self.status =
        match self.status {
            TraceStatus::Start => TraceStatus::Doing,
            TraceStatus::Doing => match self.node {
                Node::Branch { .. } => TraceStatus::Child(0),
                _ => TraceStatus::End,
            },
            TraceStatus::Child(i) => if i < 15 {
                TraceStatus::Child(i + 1)
            } else {
                TraceStatus::End
            },
            TraceStatus::End => TraceStatus::End,
        }
    }
}

impl From<Node> for TraceNode {
    fn from(node: Node) -> (r: TraceNode) {
        TraceNode { node, status: TraceStatus::Start }
    }
}

impl vstd::std_specs::convert::FromSpecImpl<Node> for TraceNode {
    open spec fn obeys_from_spec() -> bool {
        true
    }

    open spec fn from_spec(node: Node) -> TraceNode {
        TraceNode { node, status: TraceStatus::Start }
    }
}

/// What one move of the walk gave.
pub enum Moved {
    Continue,
    Yield(Vec<u8>, Vec<u8>),
    Stop,
}

/// What is to be done with the stack after a look at the node on top of it.
enum Plan {
    Drop,
    Keep,
    Descend(Node),
    Replace(Node),
    Give(Vec<u8>, Vec<u8>),
    Fail,
}

/// The outcome that a move gave is the one of the model.
pub open spec fn moved_as(m: Moved, o: Outcome) -> bool {
    match m {
        Moved::Continue => o is Continue,
        Moved::Yield(k, v) => o == Outcome::Yield(k@, v@),
        Moved::Stop => o is Stop,
    }
}

/// A walk over the keys and values of a trie.
pub struct TrieIterator<'a, 'db, D: HashDB> {
    trie: &'a PatriciaTrie<'db, D>,
    nibble: Nibbles,
    nodes: Vec<TraceNode>,
}

impl<'a, 'db, D: HashDB> TrieIterator<'a, 'db, D> {
    /// The state of the walk.
    pub closed spec fn walk(&self) -> Walk {
        Walk { frames: frames_of(self.nodes@), path: self.nibble@ }
    }

    /// What the store under the trie holds.
    pub closed spec fn store(&self) -> Map<Seq<u8>, Seq<u8>> {
        self.trie.store()
    }

    /// What holds of a walk between its moves.
    pub open spec fn wf(&self) -> bool {
        walk_wf(self.walk())
    }

    /// The walk over `trie` that stands before `root`.
    pub fn new(trie: &'a PatriciaTrie<'db, D>, root: Node) -> (r: Self)
        requires
            root@.wf(),
        ensures
            r.wf(),
            r.store() == trie.store(),
            r.walk() == start_walk(root@),
    {
        let mut nodes: Vec<TraceNode> = Vec::new();
        nodes.push(TraceNode::new(root));
        let nibble = Nibbles::from_raw(&[], false);
        assert(nibble@ =~= Seq::<u8>::empty());
        assert(frames_of(nodes@) =~= start_walk(root@).frames);
        proof {
            let frames = frames_of(nodes@);
            assert(frames.drop_last() =~= Seq::<Frame>::empty());
            assert(grown(frames.drop_last()) == 0);
            assert(frame_ok(frames.last()));
        }
        TrieIterator { trie, nibble, nodes }
    }

    /// Makes one move of the walk.
    pub fn step(&mut self) -> (r: Moved)
        requires
            old(self).wf(),
        ensures
            final(self).wf(),
            final(self).store() == old(self).store(),
            final(self).walk() == step_spec(old(self).store(), old(self).walk()).walk,
            moved_as(r, step_spec(old(self).store(), old(self).walk()).outcome),
            r is Continue ==> weight(final(self).walk().frames) < weight(old(self).walk().frames),
    {
        let ghost walk0 = self.walk();
        let path_len = self.nibble.len();
        let mut top = match self.nodes.pop() {
            None => {
                return Moved::Stop;
            },
            Some(t) => t,
        };
        let ghost below = frames_of(self.nodes@);
        let ghost top0 = top@;
        proof {
            assert(below =~= walk0.frames.drop_last());
            assert(walk0.frames.last() == top0);
            lemma_walk_top(walk0);
            lemma_step(self.store(), walk0);
        }
        let status = top.status;
        top.advance();
        let ghost kept = below.push(advanced(top0));
        let plan = match status {
            TraceStatus::End => {
                match &top.node {
                    Node::Leaf { key, value } => {
                        self.nibble.truncate(path_len - key.len());
                    },
                    Node::Extension { prefix, node } => {
                        self.nibble.truncate(path_len - prefix.len());
                    },
                    Node::Branch { children, value } => {
                        self.nibble.pop();
                    },
                    _ => {},
                }
                Plan::Drop
            },
            TraceStatus::Doing => {
                match &top.node {
                    Node::Empty => Plan::Drop,
                    Node::Extension { prefix, node } => {
                        self.nibble.extend(prefix);
                        Plan::Descend(node.duplicate())
                    },
                    Node::Leaf { key, value } => {
                        self.nibble.extend(key);
                        Plan::Give(self.nibble.encode_raw().0, copy_bytes(value))
                    },
                    Node::Branch { children, value } => {
                        match value {
                            Some(v) => Plan::Give(self.nibble.encode_raw().0, copy_bytes(v)),
                            None => Plan::Keep,
                        }
                    },
                    Node::Hash(hash) => {
                        match self.trie.read_stored(hash) {
                            Ok(Some(n)) => Plan::Replace(n),
                            _ => Plan::Fail,
                        }
                    },
                }
            },
            TraceStatus::Child(i) => {
                match &top.node {
                    Node::Empty => Plan::Drop,
                    Node::Branch { children, value } => {
                        proof {
                            lemma_branch_model(*children, *value);
                        }
                        if i == 0 {
                            self.nibble.push(0);
                        } else {
                            self.nibble.pop();
                            self.nibble.push(i);
                        }
                        Plan::Descend(children[i as usize].duplicate())
                    },
                    _ => Plan::Keep,
                }
            },
            TraceStatus::Start => {
                match &top.node {
                    Node::Empty => Plan::Drop,
                    _ => Plan::Keep,
                }
            },
        };
        proof {
            self.nibble.lemma_fits();
        }
        match plan {
            Plan::Drop => Moved::Continue,
            Plan::Keep => {
                self.nodes.push(top);
                assert(frames_of(self.nodes@) =~= kept);
                Moved::Continue
            },
            Plan::Descend(child) => {
                self.nodes.push(top);
                self.nodes.push(TraceNode::new(child));
                assert(frames_of(self.nodes@) =~= kept.push(entering(child@)));
                Moved::Continue
            },
            Plan::Replace(stored) => {
                self.nodes.push(TraceNode::new(stored));
                assert(frames_of(self.nodes@) =~= below.push(entering(stored@)));
                Moved::Continue
            },
            Plan::Give(key, value) => {
                self.nodes.push(top);
                assert(frames_of(self.nodes@) =~= kept);
                Moved::Yield(key, value)
            },
            Plan::Fail => {
                self.nodes.push(top);
                assert(frames_of(self.nodes@) =~= kept);
                Moved::Stop
            },
        }
    }

    /// The next key of the trie with its value, or `None` when the walk has
    /// come to its end or finds no node under a digest.
    ///
    /// The walk makes moves until one of them gives a key or stops.
    pub fn next(&mut self) -> (r: Option<(Vec<u8>, Vec<u8>)>)
        requires
            old(self).wf(),
        ensures
            final(self).wf(),
            final(self).store() == old(self).store(),
            exists|count: nat|
                count >= 1 && (#[trigger] run_spec(old(self).store(), old(self).walk(), count)).walk
                    == final(self).walk() && match r {
                    Some(pair) => run_spec(old(self).store(), old(self).walk(), count).outcome
                        == Outcome::Yield(pair.0@, pair.1@),
                    None => run_spec(old(self).store(), old(self).walk(), count).outcome is Stop,
                },
    {
        let ghost blobs = self.store();
        let ghost walk0 = self.walk();
        let ghost mut made: nat = 0;
        loop
            invariant
                self.wf(),
                self.store() == blobs,
                blobs == old(self).store(),
                walk0 == old(self).walk(),
                forall|count: nat|
                    count >= 1 ==> #[trigger] run_spec(blobs, walk0, made + count) == run_spec(
                        blobs,
                        self.walk(),
                        count,
                    ),
            decreases weight(self.walk().frames),
        {
            let ghost before = self.walk();
            let moved = self.step();
            proof {
                assert(run_spec(blobs, walk0, made + 1) == run_spec(blobs, before, 1));
            }
            match moved {
                Moved::Continue => {
                    proof {
                        assert forall|count: nat| count >= 1 implies #[trigger] run_spec(
                            blobs,
                            walk0,
                            made + 1 + count,
                        ) == run_spec(blobs, self.walk(), count) by {
                            assert(run_spec(blobs, walk0, made + (count + 1)) == run_spec(
                                blobs,
                                before,
                                count + 1,
                            ));
                        }
                        made = made + 1;
                    }
                },
                Moved::Yield(key, value) => {
                    return Some((key, value));
                },
                Moved::Stop => {
                    return None;
                },
            }
        }
    }
}

} // verus!
