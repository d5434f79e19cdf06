use grid_engine::error::InnerGridError;
use grid_engine::node::Node;

#[test]
fn test_node_creation() {
    let node = Node::new("test_node".to_string(), 1, 2, 3, 4);

    assert_eq!(node.id, "test_node");
    assert_eq!(node.x, 1);
    assert_eq!(node.y, 2);
    assert_eq!(node.w, 3);
    assert_eq!(node.h, 4);
}

#[test]
fn test_get_id() {
    let node = Node::new("test_node".to_string(), 0, 0, 1, 1);

    assert_eq!(node.id.clone(), "test_node");
    // Test that cloned ids agree
    let id1 = node.id.clone();
    let id2 = node.id.clone();
    assert_eq!(id1, id2);
}

#[test]
fn node_test_for_cell() {
    let node = Node::new("test_node".to_string(), 1, 2, 2, 2);

    let visited = node.for_cell();

    assert_eq!(
        visited,
        vec![(1, 2), (1, 3), (2, 2), (2, 3)],
        "Should visit all cells in the node's area"
    );
}

#[test]
fn test_for_cell_error_propagation() {
    let node = Node::new("test_node".to_string(), 0, 0, 2, 2);

    // consuming the enumeration stops at the first failing cell
    let mut result: Result<(), InnerGridError> = Ok(());
    for (x, _y) in node.for_cell() {
        if x > 0 {
            result = Err(InnerGridError::OutOfBoundsAccess { x: 0, y: 0 });
            break;
        }
    }

    assert!(result.is_err());
}

#[test]
fn test_for_cell_zero_dimensions() {
    let node = Node::new("test_node".to_string(), 0, 0, 0, 0);

    let visited = node.for_cell();

    assert!(
        visited.is_empty(),
        "Should not visit any cells for zero dimensions"
    );
}
