use grid_engine::error::InnerGridError;
use grid_engine::inner_grid::{InnerGrid, UpdateGridOperation};
use grid_engine::node::Node;

#[test]
fn test_update_grid_add_node() {
    let mut grid = InnerGrid::new(3, 3);

    let node = Node {
        id: String::from("test_node"),
        w: 1,
        h: 1,
        x: 1,
        y: 1,
    };

    grid.update(&node, 1, 1, UpdateGridOperation::Add).unwrap();
    assert_eq!(grid.get(1, 1), Some(Some("test_node".to_string())));
}

#[test]
fn test_update_grid_remove_node() {
    let mut grid = InnerGrid::new(3, 3);

    let node = Node {
        id: String::from("test_node"),
        w: 1,
        h: 1,
        x: 1,
        y: 1,
    };

    // First add the node
    grid.update(&node, 1, 1, UpdateGridOperation::Add).unwrap();

    // Then remove it
    grid.update(&node, 1, 1, UpdateGridOperation::Remove)
        .unwrap();
    assert_eq!(grid.get(1, 1), Some(None));
}

#[test]
fn test_update_grid_remove_different_node() {
    let mut grid = InnerGrid::new(3, 3);

    let node = Node {
        id: String::from("test_node"),
        w: 1,
        h: 1,
        x: 1,
        y: 1,
    };

    // Add a different node's id first
    let different = Node {
        id: String::from("different_node"),
        w: 1,
        h: 1,
        x: 1,
        y: 1,
    };
    grid.update(&different, 1, 1, UpdateGridOperation::Add)
        .unwrap();

    // Try to remove our node
    grid.update(&node, 1, 1, UpdateGridOperation::Remove)
        .unwrap();

    // The different node should still be there
    assert_eq!(grid.get(1, 1), Some(Some("different_node".to_string())));
}

#[test]
fn test_update_grid_out_of_bounds() {
    let mut grid = InnerGrid::new(3, 3);
    let node = Node {
        id: String::from("test_node"),
        w: 1,
        h: 1,
        x: 0,
        y: 0,
    };

    let result = grid.update(&node, 3, 3, UpdateGridOperation::Add);
    assert!(matches!(
        result,
        Err(InnerGridError::OutOfBoundsAccess { x: 3, y: 3 })
    ));
}

#[test]
fn test_grid_expands_when_can_expand_y_is_true() {
    let mut grid = InnerGrid::new(3, 3);
    let node = Node {
        id: String::from("test_node"),
        w: 1,
        h: 1,
        x: 1,
        y: 4,
    };

    // Try to add node at y=4 (beyond current grid size) with growth on
    let result = grid.update(&node, 1, 4, UpdateGridOperation::Add);
    assert!(result.is_ok());

    // Verify grid has expanded and node was added
    assert_eq!(grid.rows(), 5); // Grid should have expanded to 5 rows
    assert_eq!(grid.get(1, 4), Some(Some("test_node".to_string())));
}

#[test]
fn test_grid_does_not_expand_when_can_expand_y_is_false() {
    let mut grid = InnerGrid::new(3, 3);
    grid.set_can_expand_y(false);
    let node = Node {
        id: String::from("test_node"),
        w: 1,
        h: 1,
        x: 1,
        y: 4,
    };

    // Try to add node at y=4 (beyond current grid size) with growth off
    let result = grid.update(&node, 1, 4, UpdateGridOperation::Add);

    // Verify operation failed with OutOfBoundsAccess
    assert!(matches!(
        result,
        Err(InnerGridError::OutOfBoundsAccess { x: 1, y: 4 })
    ));

    // Verify grid size hasn't changed
    assert_eq!(grid.rows(), 3);
}
