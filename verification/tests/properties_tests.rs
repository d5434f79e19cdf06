use std::sync::{Arc, Mutex};

use grid_engine::error::{GridEngineError, InnerGridError, ItemError};
use grid_engine::grid_engine::GridEngine;
use grid_engine::grid_events::{ChangesEventValue, ChangesListener};
use grid_engine::grid_view::GridView;

struct CountingListener {
    counter: Arc<Mutex<usize>>,
}

impl ChangesListener for CountingListener {
    fn on_changes(&self, _value: &ChangesEventValue) {
        let mut count = self.counter.lock().unwrap();
        *count += 1;
    }
}

fn snapshot(engine: &GridEngine) -> (Vec<Vec<Option<String>>>, Vec<grid_engine::node::Node>) {
    let view = GridView::new(engine);
    let mut cells = Vec::new();
    for y in 0..view.rows() {
        let mut row = Vec::new();
        for x in 0..view.cols() {
            row.push(view.cell(x, y).unwrap());
        }
        cells.push(row);
    }
    (cells, view.get_nodes())
}

/// Every cell holding an id must belong to the registered rectangle of
/// that id: the cross-structure consistency the engine maintains.
fn assert_consistent(engine: &GridEngine) {
    let view = GridView::new(engine);
    let nodes = view.get_nodes();
    for y in 0..view.rows() {
        for x in 0..view.cols() {
            if let Some(id) = view.cell(x, y).unwrap() {
                let node = nodes.iter().find(|n| n.id == id).expect("unregistered id");
                assert!(node.x <= x && x < node.x + node.w);
                assert!(node.y <= y && y < node.y + node.h);
            }
        }
    }
}

#[test]
fn test_consistency_holds_after_every_operation() {
    let mut engine = GridEngine::new(10, 12);
    engine.add_item("a".to_string(), 2, 2, 2, 4).unwrap();
    assert_consistent(&engine);
    engine.add_item("b".to_string(), 4, 2, 2, 4).unwrap();
    assert_consistent(&engine);
    engine.add_item("c".to_string(), 0, 2, 2, 2).unwrap();
    assert_consistent(&engine);
    engine.move_item("a", 1, 0).unwrap();
    assert_consistent(&engine);
    engine.move_item("c", 2, 2).unwrap();
    assert_consistent(&engine);
    engine.remove_item("b").unwrap();
    assert_consistent(&engine);
    engine.move_item("c", 2, 17).unwrap();
    assert_consistent(&engine);
}

#[test]
fn test_add_item_duplicate_fails_and_leaves_state_unchanged() {
    let mut engine = GridEngine::new(10, 10);
    engine.add_item("a".to_string(), 0, 0, 2, 2).unwrap();
    let before = snapshot(&engine);

    let result = engine.add_item("a".to_string(), 3, 3, 1, 1);
    assert!(matches!(
        result,
        Err(GridEngineError::Item(ItemError::ItemAlreadyExists { ref id })) if id == "a"
    ));

    assert_eq!(snapshot(&engine), before);
}

#[test]
fn test_unknown_id_fails_and_leaves_state_unchanged() {
    let mut engine = GridEngine::new(10, 10);
    engine.add_item("a".to_string(), 0, 0, 2, 2).unwrap();
    let before = snapshot(&engine);

    let moved = engine.move_item("ghost-id", 1, 1);
    assert!(matches!(
        moved,
        Err(GridEngineError::Item(ItemError::ItemNotFound { ref id })) if id == "ghost-id"
    ));
    assert_eq!(snapshot(&engine), before);

    let removed = engine.remove_item("ghost-id");
    assert!(matches!(
        removed,
        Err(GridEngineError::Item(ItemError::ItemNotFound { ref id })) if id == "ghost-id"
    ));
    assert_eq!(snapshot(&engine), before);
}

#[test]
fn test_get_nodes_is_idempotent() {
    let mut engine = GridEngine::new(10, 10);
    engine.add_item("b".to_string(), 0, 0, 2, 2).unwrap();
    engine.add_item("a".to_string(), 0, 2, 2, 2).unwrap();

    let first = engine.get_nodes();
    let second = engine.get_nodes();
    assert_eq!(first, second);
    assert_eq!(first[0].id, "a");
    assert_eq!(first[1].id, "b");
}

#[test]
fn test_add_out_of_columns_fails() {
    let mut engine = GridEngine::new(5, 4);
    let result = engine.add_item("wide".to_string(), 3, 0, 2, 1);
    assert!(matches!(
        result,
        Err(GridEngineError::InnerGrid(InnerGridError::OutOfBoundsAccess { x: 4, y: 0 }))
    ));
    assert!(engine.get_nodes().is_empty());
}

#[test]
fn test_engine_grid_grows_on_deep_write() {
    let mut engine = GridEngine::new(3, 3);
    engine.add_item("deep".to_string(), 1, 4, 1, 1).unwrap();
    assert_eq!(engine.get_inner_grid().rows(), 5);
    let view = GridView::new(&engine);
    assert_eq!(view.cell(1, 4).unwrap(), Some("deep".to_string()));
}

#[test]
fn test_remove_clears_only_owned_cells() {
    // Two one-row items share columns; a two-row insertion pushes both
    // to the same destination row, so the later move overwrites the
    // earlier one's cells. Removing the overwritten item must leave the
    // overlapping cells untouched.
    let mut engine = GridEngine::new(10, 10);
    engine.add_item("a".to_string(), 0, 0, 2, 1).unwrap();
    engine.add_item("b".to_string(), 0, 1, 2, 1).unwrap();
    engine.add_item("n".to_string(), 0, 0, 2, 2).unwrap();

    let a = engine
        .get_nodes()
        .into_iter()
        .find(|n| n.id == "a")
        .unwrap();
    let b = engine
        .get_nodes()
        .into_iter()
        .find(|n| n.id == "b")
        .unwrap();
    assert_eq!((a.x, a.y), (0, 2));
    assert_eq!((b.x, b.y), (0, 2));
    let view = GridView::new(&engine);
    assert_eq!(view.cell(0, 2).unwrap(), Some("b".to_string()));

    engine.remove_item("a").unwrap();

    // The cells inside a's registered rectangle still belong to b
    let view = GridView::new(&engine);
    assert_eq!(view.cell(0, 2).unwrap(), Some("b".to_string()));
    assert_eq!(view.cell(1, 2).unwrap(), Some("b".to_string()));
    assert_consistent(&engine);
}

#[test]
fn test_one_event_per_committed_operation() {
    let mut engine = GridEngine::new(10, 10);
    let counter = Arc::new(Mutex::new(0));
    engine.events.add_changes_listener(Box::new(CountingListener {
        counter: counter.clone(),
    }));

    engine.add_item("a".to_string(), 0, 0, 2, 2).unwrap();
    assert_eq!(*counter.lock().unwrap(), 1);
    engine.move_item("a", 1, 1).unwrap();
    assert_eq!(*counter.lock().unwrap(), 2);
    engine.remove_item("a").unwrap();
    assert_eq!(*counter.lock().unwrap(), 3);

    // a failed call commits nothing and fires no event
    let _ = engine.remove_item("a");
    assert_eq!(*counter.lock().unwrap(), 3);
}

#[test]
fn test_degenerate_items_occupy_no_cells() {
    let mut engine = GridEngine::new(4, 4);
    engine.add_item("flat".to_string(), 1, 1, 0, 3).unwrap();
    let view = GridView::new(&engine);
    for y in 0..view.rows() {
        for x in 0..view.cols() {
            assert_eq!(view.cell(x, y).unwrap(), None);
        }
    }
    assert_eq!(engine.get_nodes().len(), 1);
}
