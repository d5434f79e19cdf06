use grid_engine::grid_engine::GridEngine;
use grid_engine::grid_view::GridView;
use grid_engine::node::Node;
use grid_engine::utils::{for_cell, ForCellArgs};

fn node_by_id(engine: &GridEngine, id: &str) -> Node {
    engine
        .get_nodes()
        .into_iter()
        .find(|n| n.id == id)
        .unwrap()
}

fn cell(engine: &GridEngine, x: usize, y: usize) -> Option<String> {
    GridView::new(engine).cell(x, y).unwrap()
}

#[test]
fn test_add_item() {
    let mut engine = GridEngine::new(10, 10);
    let item_0_id = engine
        .add_item("0".to_string(), 0, 0, 2, 2)
        .unwrap()
        .id
        .clone();

    assert!(engine.get_nodes().len() == 1);
    for (x, y) in for_cell(ForCellArgs {
        x: 0,
        y: 0,
        w: 2,
        h: 2,
    }) {
        assert_eq!(cell(&engine, x, y).unwrap(), item_0_id);
    }
}

#[test]
fn test_add_item_handle_duplicated_id() {
    let mut engine = GridEngine::new(10, 10);
    engine.add_item("0".to_string(), 0, 0, 2, 2).unwrap();

    assert!(engine.add_item("0".to_string(), 0, 0, 2, 2).is_err())
}

#[test]
fn test_add_item_handle_collision() {
    let mut engine = GridEngine::new(10, 10);
    let item_0_id = engine
        .add_item("0".to_string(), 0, 0, 2, 2)
        .unwrap()
        .id
        .clone();
    let item_1_id = engine
        .add_item("1".to_string(), 0, 0, 2, 2)
        .unwrap()
        .id
        .clone();

    // Item 0 should be pushed down to position 0, 2
    let item_0 = node_by_id(&engine, &item_0_id);
    assert_eq!(item_0.x, 0);
    assert_eq!(item_0.y, 2);
    for (x, y) in item_0.for_cell() {
        assert_eq!(cell(&engine, x, y).unwrap(), item_0_id);
    }

    // Item 1 should keep the requested position 0, 0
    let item_1 = node_by_id(&engine, &item_1_id);
    assert_eq!(item_1.x, 0);
    assert_eq!(item_1.y, 0);
    for (x, y) in item_1.for_cell() {
        assert_eq!(cell(&engine, x, y).unwrap(), item_1_id);
    }
}

#[test]
fn test_remove_item() {
    let mut engine = GridEngine::new(10, 10);
    let item_0_id = engine
        .add_item("0".to_string(), 0, 0, 2, 3)
        .unwrap()
        .id
        .clone();
    engine.remove_item(&item_0_id).unwrap();
    for (x, y) in for_cell(ForCellArgs {
        x: 0,
        y: 0,
        w: 2,
        h: 3,
    }) {
        assert_eq!(cell(&engine, x, y), None);
    }
}

#[test]
fn test_move_item() {
    let mut engine = GridEngine::new(10, 10);
    let item_0_id = engine
        .add_item("0".to_string(), 0, 0, 2, 2)
        .unwrap()
        .id
        .clone();
    engine.move_item(&item_0_id, 1, 1).unwrap();

    // Asserts that it is present on the new position
    for (x, y) in for_cell(ForCellArgs {
        x: 1,
        y: 1,
        w: 2,
        h: 2,
    }) {
        assert_eq!(cell(&engine, x, y).unwrap(), item_0_id);
    }

    // Asserts that it is not present on the old position
    for (x, y) in for_cell(ForCellArgs {
        x: 0,
        y: 0,
        w: 1,
        h: 1,
    }) {
        assert_eq!(cell(&engine, x, y), None);
    }
}

#[test]
fn test_move_item_handle_collision() {
    let mut engine = GridEngine::new(10, 10);
    let item_0_id = engine
        .add_item("0".to_string(), 0, 0, 2, 2)
        .unwrap()
        .id
        .clone();
    let item_1_id = engine
        .add_item("1".to_string(), 0, 2, 2, 2)
        .unwrap()
        .id
        .clone();
    engine.move_item("0", 0, 1).unwrap();

    // Item 0 should go to position 0, 1
    let item_0 = node_by_id(&engine, &item_0_id);
    assert_eq!(item_0.x, 0);
    assert_eq!(item_0.y, 1);
    for (x, y) in item_0.for_cell() {
        assert_eq!(cell(&engine, x, y).unwrap(), item_0_id);
    }

    // Item 1 should go to position 0, 3
    let item_1 = node_by_id(&engine, &item_1_id);
    assert_eq!(item_1.x, 0);
    assert_eq!(item_1.y, 3);
    for (x, y) in item_1.for_cell() {
        assert_eq!(cell(&engine, x, y).unwrap(), item_1_id);
    }
}

#[test]
fn test_will_collides_with() {
    let mut engine = GridEngine::new(10, 10);
    let item_0_id = engine
        .add_item("0".to_string(), 0, 0, 1, 2)
        .unwrap()
        .id
        .clone();

    // Asserts that it does not collide with itself
    let item_0 = node_by_id(&engine, &item_0_id);
    assert!(engine
        .will_collides_with(&item_0, 0, 0, &mut engine.get_inner_grid().duplicate())
        .unwrap()
        .len()
        == 0);

    // Asserts that it does not collide with an empty position
    assert!(engine
        .will_collides_with(&item_0, 2, 2, &mut engine.get_inner_grid().duplicate())
        .unwrap()
        .len()
        == 0);

    // Asserts that it collides with an occupied position
    engine.add_item("1".to_string(), 1, 2, 1, 2).unwrap();

    // Full collision
    let item_0 = node_by_id(&engine, &item_0_id);
    assert!(engine
        .will_collides_with(&item_0, 1, 2, &mut engine.get_inner_grid().duplicate())
        .unwrap()
        .len()
        == 1);

    // Partial collision
    assert!(engine
        .will_collides_with(&item_0, 1, 1, &mut engine.get_inner_grid().duplicate())
        .unwrap()
        .len()
        == 1);
}

#[test]
fn test_get_nodes() {
    let mut engine = GridEngine::new(10, 10);
    let item_0_id = engine
        .add_item("0".to_string(), 0, 0, 2, 2)
        .unwrap()
        .id
        .clone();
    let item_1_id = engine
        .add_item("1".to_string(), 0, 2, 2, 2)
        .unwrap()
        .id
        .clone();

    let nodes = engine.get_nodes();
    assert_eq!(nodes.len(), 2);
    assert_eq!(nodes[0].id, item_0_id);
    assert_eq!(nodes[1].id, item_1_id);
}

#[test]
fn test_move_result_will_not_collides_with_moving_item() {
    let mut engine = GridEngine::new(10, 10);
    engine.add_item("0".to_string(), 0, 0, 2, 3).unwrap();
    engine.add_item("1".to_string(), 0, 6, 2, 2).unwrap();
    engine.move_item("1", 0, 2).unwrap();

    for (x, y) in for_cell(ForCellArgs {
        x: 0,
        y: 7,
        w: 2,
        h: 2,
    }) {
        let value = cell(&engine, x, y);
        println!("value: {:?}", value);
        assert_ne!(value, Some("1".to_string()));
    }
}

#[test]
fn test_node_movements_that_collides_twice_works() {
    let mut engine = GridEngine::new(14, 10);
    engine.add_item("0".to_string(), 1, 1, 2, 3).unwrap();
    engine.add_item("1".to_string(), 2, 4, 2, 4).unwrap();
    engine.add_item("2".to_string(), 0, 6, 2, 4).unwrap();
    engine.move_item("2", 1, 2).unwrap();

    println!("Items: {:#?}", engine.get_nodes());

    for node in engine.get_nodes() {
        for (x, y) in node.for_cell() {
            println!("Validating x: {}, y: {}", x, y);
            assert_eq!(Some(node.clone().id), cell(&engine, x, y));
        }
    }
}
