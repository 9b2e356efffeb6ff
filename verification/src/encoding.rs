//! The canonical encoding of nodes: how a node is written as a list, how a
//! child is held by its parent, and how a stored blob is read back.
use crate::cache::BlobCache;
use crate::cache::KeySet;
use crate::codec::element_at;
use crate::codec::element_of;
use crate::codec::encode_bytes;
use crate::codec::encode_list;
use crate::codec::encoded_bytes;
use crate::codec::encoded_list;
use crate::codec::is_empty_item;
use crate::codec::null_rlp;
use crate::codec::payload;
use crate::codec::payload_of;
use crate::codec::prototype;
use crate::codec::shape_of;
use crate::codec::Shape;
use crate::errors::ErrorKind;
use crate::errors::TrieError;
use crate::hasher::keccak256;
use crate::hasher::keccak256_of;
use crate::hasher::H256;
use crate::hasher::HASH_LEN;
use crate::nibbles::compact_of;
use crate::nibbles::compact_readable;
use crate::nibbles::path_of_compact;
use crate::nibbles::terminated;
use crate::nibbles::Nibbles;
use crate::node::lemma_branch_model;
use crate::node::models;
use crate::node::value_model;
use crate::node::Node;
use crate::node::NodeModel;
use crate::node::RawNodeOrHash;
use vstd::prelude::*;

verus! {

/// The encoding of the empty node: the empty byte string as an item.
pub open spec fn null_blob() -> Seq<u8> {
    seq![0x80u8]
}

/// Whether an item is the empty byte string or the empty list.
pub open spec fn empty_item(data: Seq<u8>) -> bool {
    data.len() > 0 && (data[0] == 0xc0 || data[0] == 0x80)
}

/// The value read from the last element of an encoded branch.
pub open spec fn decode_value(item: Seq<u8>) -> Result<Option<Seq<u8>>, ErrorKind> {
    if empty_item(item) {
        Ok(None)
    } else {
        match payload_of(item) {
            None => Err(ErrorKind::Decoder),
            Some(v) => Ok(Some(v)),
        }
    }
}

/// The node that a blob stands for, or the error that reading it gives.
///
/// An empty byte string is the empty node. A list of two elements is a leaf
/// or an extension, as the compact path in its first element says. A list of
/// seventeen elements is a branch. A byte string of 32 bytes is a reference
/// by digest, at a child's place only. Anything else is invalid, and so are a
/// compact path with an unknown flag and an extension without a prefix.
pub open spec fn decode_spec(data: Seq<u8>, as_child: bool) -> Result<NodeModel, ErrorKind>
    decreases data.len(), 17nat,
{
    let shape = shape_of(data);
    if shape is None {
        Err(ErrorKind::Decoder)
    } else if shape == Some(Shape::Data(0)) {
        Ok(NodeModel::Empty)
    } else if shape == Some(Shape::List(2)) {
        match element_of(data, 0) {
            None => Err(ErrorKind::Decoder),
            Some(first) => match payload_of(first) {
                None => Err(ErrorKind::Decoder),
                Some(compact) => if !compact_readable(compact) {
                    Err(ErrorKind::InvalidData)
                } else {
                    let key = path_of_compact(compact);
                    match element_of(data, 1) {
                        None => Err(ErrorKind::Decoder),
                        Some(second) => if terminated(key) {
                            match payload_of(second) {
                                None => Err(ErrorKind::Decoder),
                                Some(value) => Ok(NodeModel::Leaf { key, value }),
                            }
                        } else if key.len() == 0 || second.len() >= data.len() {
                            Err(ErrorKind::InvalidData)
                        } else {
                            match decode_spec(second, true) {
                                Err(e) => Err(e),
                                Ok(child) => Ok(
                                    NodeModel::Extension { prefix: key, child: Box::new(child) },
                                ),
                            }
                        },
                    }
                },
            },
        }
    } else if shape == Some(Shape::List(17)) {
        match decode_children(data, 16) {
            Err(e) => Err(e),
            Ok(children) => match element_of(data, 16) {
                None => Err(ErrorKind::Decoder),
                Some(last) => match decode_value(last) {
                    Err(e) => Err(e),
                    Ok(value) => Ok(NodeModel::Branch { children, value }),
                },
            },
        }
    } else if as_child && shape == Some(Shape::Data(32)) {
        match payload_of(data) {
            None => Err(ErrorKind::Decoder),
            Some(digest) => if digest.len() == 32 {
                Ok(NodeModel::Hash { digest })
            } else {
                Err(ErrorKind::InvalidData)
            },
        }
    } else {
        Err(ErrorKind::InvalidData)
    }
}

/// The first `count` children of an encoded branch, or the first error that
/// reading them in order gives.
pub open spec fn decode_children(data: Seq<u8>, count: nat) -> Result<Seq<NodeModel>, ErrorKind>
    decreases data.len(), count,
{
    if count == 0 || count > 16 {
        Ok(Seq::empty())
    } else {
        match decode_children(data, (count - 1) as nat) {
            Err(e) => Err(e),
            Ok(before) => match element_of(data, (count - 1) as usize) {
                None => Err(ErrorKind::Decoder),
                Some(item) => if item.len() >= data.len() {
                    Err(ErrorKind::InvalidData)
                } else {
                    match decode_spec(item, true) {
                        Err(e) => Err(e),
                        Ok(child) => Ok(before.push(child)),
                    }
                },
            },
        }
    }
}

/// The outcome of reading a node is the one that the model gives.
pub open spec fn node_result(r: Result<Node, TrieError>, s: Result<NodeModel, ErrorKind>) -> bool {
    match r {
        Ok(n) => s == Ok::<NodeModel, ErrorKind>(n@),
        Err(e) => s == Err::<NodeModel, ErrorKind>(e.kind()),
    }
}

/// What a blob decodes to is a node of the shape that every node has, and no
/// reference by digest unless it stands at a child's place.
pub proof fn lemma_decode_wf(data: Seq<u8>, as_child: bool)
    ensures
        decode_spec(data, as_child) matches Ok(n) ==> n.wf() && (!as_child ==> !(n is Hash)),
    decreases data.len(), 17nat,
{
    let shape = shape_of(data);
    if shape == Some(Shape::List(2)) {
        if let Some(first) = element_of(data, 0) {
            if let Some(compact) = payload_of(first) {
                if compact_readable(compact) {
                    crate::nibbles::lemma_path_of_compact(compact);
                    if let Some(second) = element_of(data, 1) {
                        if second.len() < data.len() {
                            lemma_decode_wf(second, true);
                        }
                    }
                }
            }
        }
    } else if shape == Some(Shape::List(17)) {
        lemma_decode_children_wf(data, 16);
    }
}

/// The children read from an encoded branch are as many as were asked for,
/// each of the shape that every node has.
pub proof fn lemma_decode_children_wf(data: Seq<u8>, count: nat)
    requires
        count <= 16,
    ensures
        decode_children(data, count) matches Ok(cs) ==> cs.len() == count && forall|i: int|
            0 <= i < cs.len() ==> (#[trigger] cs[i]).wf(),
    decreases data.len(), count,
{
    if count > 0 {
        lemma_decode_children_wf(data, (count - 1) as nat);
        if let Some(item) = element_of(data, (count - 1) as usize) {
            if item.len() < data.len() {
                lemma_decode_wf(item, true);
            }
        }
    }
}

/// An error among the first children of an encoded branch is the error of
/// reading all of them.
pub proof fn lemma_decode_children_error(data: Seq<u8>, count: nat, all: nat)
    requires
        count <= all <= 16,
        decode_children(data, count) is Err,
    ensures
        decode_children(data, all) == decode_children(data, count),
    decreases all - count,
{
    if count < all {
        lemma_decode_children_error(data, count, (all - 1) as nat);
    }
}

/// Reads the value in the last element of an encoded branch.
fn decode_branch_value(item: &[u8]) -> (r: Result<Option<Vec<u8>>, TrieError>)
    ensures
        match r {
            Ok(v) => decode_value(item@) == Ok::<Option<Seq<u8>>, ErrorKind>(value_model(v)),
            Err(e) => decode_value(item@) == Err::<Option<Seq<u8>>, ErrorKind>(e.kind()),
        },
{
    if is_empty_item(item) {
        Ok(None)
    } else {
        match payload(item) {
            Ok(v) => Ok(Some(v)),
            Err(e) => Err(TrieError::Decoder(e)),
        }
    }
}

/// Reads the node that a blob stands for. `as_child` says that the blob
/// stands at a child's place, where a reference by digest may stand.
pub fn decode_node(data: &[u8], as_child: bool) -> (r: Result<Node, TrieError>)
    ensures
        node_result(r, decode_spec(data@, as_child)),
        r matches Ok(n) ==> n@.wf() && (!as_child ==> !(n@ is Hash)),
    decreases data@.len(),
{
    proof {
        lemma_decode_wf(data@, as_child);
    }
    let shape = match prototype(data) {
        Ok(s) => s,
        Err(e) => {
            return Err(TrieError::Decoder(e));
        },
    };
    match shape {
        Shape::Data(0) => Ok(Node::Empty),
        Shape::List(2) => {
            let first = match element_at(data, 0) {
                Ok(x) => x,
                Err(e) => {
                    return Err(TrieError::Decoder(e));
                },
            };
            let compact = match payload(first.as_slice()) {
                Ok(x) => x,
                Err(e) => {
                    return Err(TrieError::Decoder(e));
                },
            };
            if compact.len() == 0 || compact[0] / 16 >= 4 {
                return Err(TrieError::InvalidData);
            }
            let key = Nibbles::from_compact(compact.as_slice());
            let second = match element_at(data, 1) {
                Ok(x) => x,
                Err(e) => {
                    return Err(TrieError::Decoder(e));
                },
            };
            if key.is_leaf() {
                match payload(second.as_slice()) {
                    Ok(value) => Ok(Node::from_leaf(key, value)),
                    Err(e) => Err(TrieError::Decoder(e)),
                }
            } else if key.len() == 0 {
                Err(TrieError::InvalidData)
            } else {
                match decode_node(second.as_slice(), true) {
                    Ok(n) => Ok(Node::from_extension(key, n)),
                    Err(e) => Err(e),
                }
            }
        },
        Shape::List(17) => {
            let mut nodes: Vec<Node> = Vec::new();
            let mut i: usize = 0;
            assert(models(nodes@) =~= Seq::<NodeModel>::empty());
            while i < 16
                invariant
                    i <= 16,
                    nodes@.len() == i,
                    shape_of(data@) == Some(Shape::List(17)),
                    decode_children(data@, i as nat) == Ok::<Seq<NodeModel>, ErrorKind>(
                        models(nodes@),
                    ),
                decreases 16 - i,
            {
                let item = match element_at(data, i) {
                    Ok(x) => x,
                    Err(e) => {
                        proof {
                            lemma_decode_children_error(data@, (i + 1) as nat, 16);
                        }
                        return Err(TrieError::Decoder(e));
                    },
                };
                let n = match decode_node(item.as_slice(), true) {
                    Ok(n) => n,
                    Err(e) => {
                        proof {
                            lemma_decode_children_error(data@, (i + 1) as nat, 16);
                        }
                        return Err(e);
                    },
                };
                let ghost before = nodes@;
                nodes.push(n);
                assert(models(nodes@) =~= models(before).push(n@));
                i += 1;
            }
            let last = match element_at(data, 16) {
                Ok(x) => x,
                Err(e) => {
                    return Err(TrieError::Decoder(e));
                },
            };
            match decode_branch_value(last.as_slice()) {
                Ok(value) => Ok(Node::from_branch(nodes, value)),
                Err(e) => Err(e),
            }
        },
        Shape::Data(32) => {
            if !as_child {
                return Err(TrieError::InvalidData);
            }
            match payload(data) {
                Ok(digest) => if digest.len() == HASH_LEN {
                    Ok(Node::from_hash(H256::from_slice(digest.as_slice())))
                } else {
                    Err(TrieError::InvalidData)
                },
                Err(e) => Err(TrieError::Decoder(e)),
            }
        },
        _ => Err(TrieError::InvalidData),
    }
}

/// The encoded nodes that wait to be written, and the digests made for them.
pub struct Pending {
    pub blobs: Map<Seq<u8>, Seq<u8>>,
    pub fresh: Set<Seq<u8>>,
}

/// The encoding of the value of a branch: the empty item where there is none.
pub open spec fn value_item(value: Option<Seq<u8>>) -> Seq<u8> {
    match value {
        Some(v) => encoded_bytes(v),
        None => null_blob(),
    }
}

/// The canonical encoding of a node. A reference by digest has none.
pub open spec fn raw_of(n: NodeModel) -> Seq<u8>
    decreases n, 0nat,
{
    match n {
        NodeModel::Empty => null_blob(),
        NodeModel::Leaf { key, value } => encoded_list(
            encoded_bytes(compact_of(key)) + encoded_bytes(value),
        ),
        NodeModel::Extension { prefix, child } => encoded_list(
            encoded_bytes(compact_of(prefix)) + ref_of(*child),
        ),
        NodeModel::Branch { children, value } => encoded_list(
            refs_of(children, children.len()) + value_item(value),
        ),
        NodeModel::Hash { digest } => Seq::empty(),
    }
}

/// What a parent holds of a child: the digest, as a byte string, of a child
/// that is a reference; the child's encoding where that is shorter than 32
/// bytes; else the digest of that encoding, as a byte string.
pub open spec fn ref_of(n: NodeModel) -> Seq<u8>
    decreases n, 1nat,
{
    match n {
        NodeModel::Hash { digest } => encoded_bytes(digest),
        _ => if raw_of(n).len() < 32 {
            raw_of(n)
        } else {
            encoded_bytes(keccak256_of(raw_of(n)))
        },
    }
}

/// What a branch holds of its first `count` children, one after the other.
pub open spec fn refs_of(children: Seq<NodeModel>, count: nat) -> Seq<u8>
    decreases children, count,
{
    if count == 0 || count > children.len() {
        Seq::empty()
    } else {
        refs_of(children, (count - 1) as nat) + ref_of(children[count - 1])
    }
}

/// What waits to be written once a node has been encoded as a child: what
/// its own children added, and the node itself under its digest where its
/// encoding has 32 bytes or more.
pub open spec fn pending_node(n: NodeModel, acc: Pending) -> Pending
    decreases n, 1nat,
{
    match n {
        NodeModel::Hash { digest } => acc,
        _ => {
            let inner = pending_raw(n, acc);
            if raw_of(n).len() < 32 {
                inner
            } else {
                Pending {
                    blobs: inner.blobs.insert(keccak256_of(raw_of(n)), raw_of(n)),
                    fresh: inner.fresh.insert(keccak256_of(raw_of(n))),
                }
            }
        },
    }
}

/// What waits to be written once the children of a node have been encoded.
pub open spec fn pending_raw(n: NodeModel, acc: Pending) -> Pending
    decreases n, 0nat,
{
    match n {
        NodeModel::Extension { prefix, child } => pending_node(*child, acc),
        NodeModel::Branch { children, value } => pending_children(children, children.len(), acc),
        _ => acc,
    }
}

/// What waits to be written once the first `count` children of a branch have
/// been encoded, in their order.
pub open spec fn pending_children(children: Seq<NodeModel>, count: nat, acc: Pending) -> Pending
    decreases children, count,
{
    if count == 0 || count > children.len() {
        acc
    } else {
        pending_node(children[count - 1], pending_children(children, (count - 1) as nat, acc))
    }
}

/// What the two tables of a trie hold together.
pub open spec fn pending(cache: BlobCache, gen_keys: KeySet) -> Pending {
    Pending { blobs: cache@, fresh: gen_keys@ }
}

/// The bytes that a parent holds of a child.
pub open spec fn ref_bytes(r: RawNodeOrHash) -> Seq<u8> {
    match r {
        RawNodeOrHash::Node(raw) => raw@,
        RawNodeOrHash::Hash(h) => encoded_bytes(h@),
    }
}

/// Encodes a node as a child of another. Where the encoding has 32 bytes or
/// more, it is put into the cache under its digest, and the digest is noted
/// as made by this commit.
pub fn encode_node(n: &Node, cache: &mut BlobCache, gen_keys: &mut KeySet) -> (r: RawNodeOrHash)
    requires
        n@.wf(),
    ensures
        ref_bytes(r) == ref_of(n@),
        match r {
            RawNodeOrHash::Node(raw) => !(n@ is Hash) && raw@ == raw_of(n@) && raw@.len() < 32,
            RawNodeOrHash::Hash(h) => if n@ is Hash {
                h@ == n@->digest
            } else {
                h@ == keccak256_of(raw_of(n@)) && raw_of(n@).len() >= 32
            },
        },
        pending(*final(cache), *final(gen_keys)) == pending_node(
            n@,
            pending(*old(cache), *old(gen_keys)),
        ),
    decreases n, 1nat,
{
    if let Node::Hash(h) = n {
        return RawNodeOrHash::Hash(*h);
    }
    let data = encode_raw(n, cache, gen_keys);
    if data.len() < HASH_LEN {
        RawNodeOrHash::Node(data)
    } else {
        let hash = keccak256(data.as_slice());
        cache.insert(hash, data);
        gen_keys.insert(hash);
        RawNodeOrHash::Hash(hash)
    }
}

/// Appends to `payload` what a parent holds of a child.
fn append_ref(payload: &mut Vec<u8>, child: RawNodeOrHash)
    ensures
        final(payload)@ == old(payload)@ + ref_bytes(child),
{
    match child {
        RawNodeOrHash::Hash(h) => {
            let mut item = encode_bytes(h.as_bytes());
            payload.append(&mut item);
        },
        RawNodeOrHash::Node(raw) => {
            let mut item = raw;
            payload.append(&mut item);
        },
    }
}

/// The canonical encoding of a node that is no reference by digest. The
/// children that are too long to stand in it are put into the cache.
pub fn encode_raw(n: &Node, cache: &mut BlobCache, gen_keys: &mut KeySet) -> (r: Vec<u8>)
    requires
        !(n@ is Hash),
        n@.wf(),
    ensures
        r@ == raw_of(n@),
        pending(*final(cache), *final(gen_keys)) == pending_raw(
            n@,
            pending(*old(cache), *old(gen_keys)),
        ),
    decreases n, 0nat,
{
    match n {
        Node::Empty => null_rlp(),
        Node::Leaf { key, value } => {
            let mut payload = encode_bytes(key.encode_compact().as_slice());
            let mut item = encode_bytes(value.as_slice());
            payload.append(&mut item);
            encode_list(payload.as_slice(), 2)
        },
        Node::Branch { children, value } => {
            proof {
                lemma_branch_model(*children, *value);
            }
            let ghost start = pending(*cache, *gen_keys);
            let mut payload: Vec<u8> = Vec::new();
            let mut i: usize = 0;
            assert forall|j: int| 0 <= j < 16 implies (#[trigger] children@[j])@.wf() by {
                assert(models(children@)[j].wf());
            }
            while i < 16
                invariant
                    *n is Branch,
                    forall|j: int| 0 <= j < 16 ==> (#[trigger] children@[j])@.wf(),
                    n->children == *children,
                    children@.len() == 16,
                    i <= 16,
                    payload@ == refs_of(models(children@), i as nat),
                    pending(*cache, *gen_keys) == pending_children(
                        models(children@),
                        i as nat,
                        start,
                    ),
                decreases 16 - i,
            {
                let data = encode_node(&children[i], cache, gen_keys);
                append_ref(&mut payload, data);
                i += 1;
            }
            let mut item = match value {
                Some(v) => encode_bytes(v.as_slice()),
                None => null_rlp(),
            };
            payload.append(&mut item);
            encode_list(payload.as_slice(), 17)
        },
        Node::Extension { prefix, node } => {
            let mut payload = encode_bytes(prefix.encode_compact().as_slice());
            let data = encode_node(node, cache, gen_keys);
            append_ref(&mut payload, data);
            encode_list(payload.as_slice(), 2)
        },
        Node::Hash(_) => Vec::new(),
    }
}

} // verus!
