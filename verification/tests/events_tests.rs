use std::sync::{Arc, Mutex};

use grid_engine::grid_engine::{AddChangeData, Change};
use grid_engine::grid_events::{ChangesEventValue, ChangesListener, GridEvents};
use grid_engine::node::Node;

struct NoopListener;

impl ChangesListener for NoopListener {
    fn on_changes(&self, _value: &ChangesEventValue) {}
}

struct CountingListener {
    counter: Arc<Mutex<usize>>,
}

impl ChangesListener for CountingListener {
    fn on_changes(&self, _value: &ChangesEventValue) {
        let mut count = self.counter.lock().unwrap();
        *count += 1;
    }
}

struct RecordingListener {
    received: Arc<Mutex<Vec<Change>>>,
}

impl ChangesListener for RecordingListener {
    fn on_changes(&self, value: &ChangesEventValue) {
        let mut changes = self.received.lock().unwrap();
        changes.extend(value.changes().clone());
    }
}

#[test]
fn test_add_changes_listener() {
    let mut events = GridEvents::default();
    let listener_id = events.add_changes_listener(Box::new(NoopListener));

    assert_eq!(events.listeners_count(), 1);
    assert!(!listener_id.is_empty());
}

#[test]
fn test_remove_changes_listener() {
    let mut events = GridEvents::default();
    let listener_id = events.add_changes_listener(Box::new(NoopListener));

    events.remove_changes_listener(&listener_id);
    assert_eq!(events.listeners_count(), 0);
}

#[test]
fn test_multiple_listeners() {
    let mut events = GridEvents::default();
    let id1 = events.add_changes_listener(Box::new(NoopListener));
    let id2 = events.add_changes_listener(Box::new(NoopListener));
    let id3 = events.add_changes_listener(Box::new(NoopListener));

    assert_eq!(events.listeners_count(), 3);
    assert_ne!(id1, id2);
    assert_ne!(id2, id3);
    assert_ne!(id1, id3);
}

#[test]
fn test_trigger_changes_event() {
    let mut events = GridEvents::default();
    let counter = Arc::new(Mutex::new(0));
    let counter_clone = counter.clone();

    events.add_changes_listener(Box::new(CountingListener {
        counter: counter_clone,
    }));

    let changes = ChangesEventValue::new(vec![]);
    events.trigger_changes_event(&changes);

    assert_eq!(*counter.lock().unwrap(), 1);
}

#[test]
fn test_trigger_multiple_listeners() {
    let mut events = GridEvents::default();
    let counter = Arc::new(Mutex::new(0));

    // Add two listeners that increment the same counter
    for _ in 0..2 {
        let counter_clone = counter.clone();
        events.add_changes_listener(Box::new(CountingListener {
            counter: counter_clone,
        }));
    }

    let changes = ChangesEventValue::new(vec![]);
    events.trigger_changes_event(&changes);

    assert_eq!(*counter.lock().unwrap(), 2);
}

#[test]
fn test_listener_receives_changes() {
    let mut events = GridEvents::default();
    let received_changes = Arc::new(Mutex::new(Vec::new()));
    let received_changes_clone = received_changes.clone();

    events.add_changes_listener(Box::new(RecordingListener {
        received: received_changes_clone,
    }));

    // Create a mock change
    let node = Node::new("test".to_string(), 0, 0, 1, 1);
    let change = Change::Add(AddChangeData { value: node });
    let event = ChangesEventValue::new(vec![change.clone()]);

    events.trigger_changes_event(&event);

    let received = received_changes.lock().unwrap();
    let received_change = received.first().unwrap();
    assert_eq!(received_change, &change);
}

#[test]
fn test_listener_ids_are_sequential_decimals() {
    let mut events = GridEvents::default();
    let id1 = events.add_changes_listener(Box::new(NoopListener));
    let id2 = events.add_changes_listener(Box::new(NoopListener));

    assert_eq!(id1, "l_1");
    assert_eq!(id2, "l_2");
}
