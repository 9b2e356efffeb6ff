//! The nodes of the trie.
use crate::errors::TrieError;
use crate::hasher::H256;
use crate::nibbles::is_inner_path;
use crate::nibbles::is_leaf_path;
use crate::nibbles::Nibbles;
use vstd::prelude::*;
use vstd::slice::slice_to_vec;

verus! {

/// A node of the trie as it is held in memory.
#[allow(inconsistent_fields)]
#[derive(Debug)]
pub enum Node {
    /// No node.
    Empty,
    /// A value, with the rest of its key.
    Leaf { key: Nibbles, value: Vec<u8> },
    /// A stretch of path that all the keys below share.
    Extension { prefix: Nibbles, node: Box<Node> },
    /// A fork on one nibble, with the value of the key that ends here.
    Branch { children: Vec<Node>, value: Option<Vec<u8>> },
    /// A node that is in the store, under this digest, and not in memory.
    Hash(H256),
}

/// A node of the trie as a mathematical value.
#[allow(inconsistent_fields)]
pub enum NodeModel {
    Empty,
    Leaf { key: Seq<u8>, value: Seq<u8> },
    Extension { prefix: Seq<u8>, child: Box<NodeModel> },
    Branch { children: Seq<NodeModel>, value: Option<Seq<u8>> },
    Hash { digest: Seq<u8> },
}

/// An encoded node or the digest of one: what a parent holds of a child.
#[derive(Debug)]
pub enum RawNodeOrHash {
    Node(Vec<u8>),
    Hash(H256),
}

/// A change that failed: the error, and what is left of the node that was
/// to be changed. Where the node is intact, it is the node as it was.
#[derive(Debug)]
pub struct Failed {
    pub node: Node,
    pub intact: bool,
    pub error: TrieError,
}

/// The value of an optional byte string.
pub open spec fn value_model(value: Option<Vec<u8>>) -> Option<Seq<u8>> {
    match value {
        Some(v) => Some(v@),
        None => None,
    }
}

impl Node {
    /// The mathematical value of the node.
    pub open spec fn model(&self) -> NodeModel
        decreases self,
    {
        match self {
            Node::Empty => NodeModel::Empty,
            Node::Leaf { key, value } => NodeModel::Leaf { key: key@, value: value@ },
            Node::Extension { prefix, node } => NodeModel::Extension {
                prefix: prefix@,
                child: Box::new(node.model()),
            },
            Node::Branch { children, value } => NodeModel::Branch {
                children: Seq::new(
                    children@.len(),
                    |i: int|
                        if 0 <= i < children@.len() {
                            children@[i].model()
                        } else {
                            NodeModel::Empty
                        },
                ),
                value: value_model(*value),
            },
            Node::Hash(h) => NodeModel::Hash { digest: h@ },
        }
    }
}

impl View for Node {
    type V = NodeModel;

    open spec fn view(&self) -> NodeModel {
        self.model()
    }
}

/// The models of a sequence of nodes.
pub open spec fn models(nodes: Seq<Node>) -> Seq<NodeModel> {
    Seq::new(nodes.len(), |i: int| nodes[i]@)
}

/// Sixteen empty slots.
pub open spec fn no_children() -> Seq<NodeModel> {
    Seq::new(16, |i: int| NodeModel::Empty)
}

impl NodeModel {
    /// The shape that every node has: a leaf's key ends with the terminator
    /// and holds nibbles before it, an extension's prefix is not empty and
    /// holds nibbles only, a branch has sixteen slots, a digest 32 bytes.
    pub open spec fn wf(self) -> bool
        decreases self,
    {
        match self {
            NodeModel::Empty => true,
            NodeModel::Leaf { key, value } => is_leaf_path(key),
            NodeModel::Extension { prefix, child } => prefix.len() > 0 && is_inner_path(prefix)
                && child.wf(),
            NodeModel::Branch { children, value } => children.len() == 16 && forall|i: int|
                0 <= i < children.len() ==> (#[trigger] children[i]).wf(),
            NodeModel::Hash { digest } => digest.len() == 32,
        }
    }
}

/// The model of a branch holds the models of its children.
pub proof fn lemma_branch_model(children: Vec<Node>, value: Option<Vec<u8>>)
    ensures
        (Node::Branch { children, value })@ == (NodeModel::Branch {
            children: models(children@),
            value: value_model(value),
        }),
{
    let n = Node::Branch { children, value };
    assert(n@->Branch_children =~= models(children@));
}

/// Sixteen empty slots.
pub fn empty_children() -> (r: Vec<Node>)
    ensures
        models(r@) == no_children(),
        r@.len() == 16,
{
    let mut children: Vec<Node> = Vec::new();
    let mut i: usize = 0;
    while i < 16
        invariant
            i <= 16,
            children@.len() == i,
            forall|j: int| 0 <= j < i ==> children@[j]@ == NodeModel::Empty,
        decreases 16 - i,
    {
        children.push(Node::Empty);
        i += 1;
    }
    assert(models(children@) =~= no_children());
    children
}

/// Puts a node in the place of a child and hands out the child.
pub fn replace_child(children: &mut Vec<Node>, index: usize, node: Node) -> (prev: Node)
    requires
        index < old(children)@.len(),
    ensures
        final(children)@ == old(children)@.update(index as int, node),
        models(final(children)@) == models(old(children)@).update(index as int, node@),
        prev == old(children)@[index as int],
{
    let mut node = node;
    core::mem::swap(&mut children[index], &mut node);
    assert(models(children@) =~= models(old(children)@).update(index as int, children@[index as int]@));
    node
}

/// A copy of a byte string.
pub fn copy_bytes(data: &Vec<u8>) -> (r: Vec<u8>)
    ensures
        r@ == data@,
{
    slice_to_vec(data.as_slice())
}

/// A copy of an optional byte string.
pub fn copy_value(value: &Option<Vec<u8>>) -> (r: Option<Vec<u8>>)
    ensures
        value_model(r) == value_model(*value),
{
    match value {
        Some(v) => Some(copy_bytes(v)),
        None => None,
    }
}

impl Node {
    /// The leaf with this key and value.
    pub fn from_leaf(key: Nibbles, value: Vec<u8>) -> (r: Node)
        ensures
            r@ == (NodeModel::Leaf { key: key@, value: value@ }),
    {
        Node::Leaf { key, value }
    }

    /// The branch with these sixteen children and this value.
    pub fn from_branch(children: Vec<Node>, value: Option<Vec<u8>>) -> (r: Node)
        ensures
            r@ == (NodeModel::Branch { children: models(children@), value: value_model(value) }),
    {
        proof {
            lemma_branch_model(children, value);
        }
        Node::Branch { children, value }
    }

    /// The extension with this prefix above this node.
    pub fn from_extension(prefix: Nibbles, node: Node) -> (r: Node)
        ensures
            r@ == (NodeModel::Extension { prefix: prefix@, child: Box::new(node@) }),
    {
        Node::Extension { prefix, node: Box::new(node) }
    }

    /// The reference to the node stored under this digest.
    pub fn from_hash(hash: H256) -> (r: Node)
        ensures
            r@ == (NodeModel::Hash { digest: hash@ }),
    {
        Node::Hash(hash)
    }

    /// A copy of the node and of all that is below it in memory.
    pub fn duplicate(&self) -> (r: Node)
        ensures
            r@ == self@,
        decreases self,
    {
        match self {
            Node::Empty => Node::Empty,
            Node::Leaf { key, value } => Node::Leaf { key: key.clone(), value: copy_bytes(value) },
            Node::Extension { prefix, node } => Node::Extension {
                prefix: prefix.clone(),
                node: Box::new(node.duplicate()),
            },
            Node::Branch { children, value } => {
                let mut copies: Vec<Node> = Vec::new();
                let mut i: usize = 0;
                while i < children.len()
                    invariant
                        *self is Branch,
                        self->children == *children,
                        i <= children@.len(),
                        copies@.len() == i,
                        forall|j: int| 0 <= j < i ==> copies@[j]@ == children@[j]@,
                    decreases children@.len() - i,
                {
                    let c = children[i].duplicate();
                    copies.push(c);
                    i += 1;
                }
                assert(models(copies@) =~= models(children@));
                let copied_value = copy_value(value);
                proof {
                    lemma_branch_model(copies, copied_value);
                    lemma_branch_model(*children, *value);
                }
                Node::Branch { children: copies, value: copied_value }
            },
            Node::Hash(h) => Node::Hash(*h),
        }
    }
}

} // verus!
