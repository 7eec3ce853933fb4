use robonav::node::Node;
use robonav::position::Position;

#[test]
fn test_node_ordering() {
    let pos1 = Position::new(0, 0);
    let pos2 = Position::new(1, 1);

    let node1 = Node::new(pos1, 10, 5);
    let node2 = Node::new(pos2, 8, 4);

    // the node with the lower f cost is served first, so it compares greater
    assert!(node2 > node1);
}

#[test]
fn test_f_cost_calculation() {
    let pos = Position::new(5, 5);
    let node = Node::new(pos, 10, 15);
    assert_eq!(node.f_cost(), 25);
}

#[test]
fn nodes_with_equal_f_prefer_lower_h() {
    let a = Node::new(Position::new(0, 0), 3, 2);
    let b = Node::new(Position::new(1, 0), 4, 1);
    assert_eq!(a.f_cost(), b.f_cost());
    assert!(b > a);
    assert!(a < b);
}

#[test]
fn nodes_with_equal_priority_compare_equal() {
    let a = Node::new(Position::new(0, 0), 3, 2);
    let b = Node::new(Position::new(7, 7), 3, 2);
    assert_eq!(a.partial_cmp(&b), Some(std::cmp::Ordering::Equal));
    assert!(a != b);
}

#[test]
fn node_identity_is_its_position() {
    let a = Node::new(Position::new(2, 3), 1, 9);
    let b = Node::new(Position::new(2, 3), 7, 0);
    assert!(a == b);
}
