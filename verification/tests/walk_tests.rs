use ethtrie::iter::{TraceNode, TraceStatus};
use ethtrie::nibbles::Nibbles;
use ethtrie::node::{empty_children, Node};

#[test]
fn advance_goes_from_start_to_doing_to_end_at_a_leaf() {
    let mut t = TraceNode::new(Node::from_leaf(Nibbles::from_raw(b"a", true), vec![1]));
    assert_eq!(t.status, TraceStatus::Start);
    t.advance();
    assert_eq!(t.status, TraceStatus::Doing);
    t.advance();
    assert_eq!(t.status, TraceStatus::End);
    t.advance();
    assert_eq!(t.status, TraceStatus::End);
}

#[test]
fn advance_goes_through_the_sixteen_children_of_a_branch() {
    let mut t = TraceNode::new(Node::from_branch(empty_children(), None));
    t.advance();
    assert_eq!(t.status, TraceStatus::Doing);
    for i in 0u8..16 {
        t.advance();
        assert_eq!(t.status, TraceStatus::Child(i));
    }
    t.advance();
    assert_eq!(t.status, TraceStatus::End);
}

#[test]
fn advance_ends_at_an_empty_node_and_at_a_reference() {
    let mut e = TraceNode::new(Node::Empty);
    e.advance();
    e.advance();
    assert_eq!(e.status, TraceStatus::End);
    let mut h = TraceNode::new(Node::from_hash(ethtrie::keccak256(b"x")));
    h.advance();
    h.advance();
    assert_eq!(h.status, TraceStatus::End);
    let mut x = TraceNode::new(Node::from_extension(Nibbles::from_hex(vec![1]), Node::Empty));
    x.advance();
    x.advance();
    assert_eq!(x.status, TraceStatus::End);
}
