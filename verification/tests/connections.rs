use entity_graph::connections::MAX_NEIGHBORS;
use entity_graph::{AdjacencyStore, ConnectionUpdateEvent, Connections};

#[test]
fn a_new_list_is_empty() {
    let c = Connections::default();
    assert_eq!(c.len(), 0);
    assert!(c.is_empty());
    assert_eq!(c.to_vec(), Vec::<u64>::new());
    assert_eq!(c.get(0), None);
}

#[test]
fn connect_is_idempotent() {
    let mut c = Connections::default();
    c.connect(7);
    c.connect(9);
    c.connect(7);
    assert_eq!(c.to_vec(), vec![7, 9]);
    assert_eq!(c.len(), 2);
    assert!(!c.is_empty());
}

#[test]
fn neighbors_keep_insertion_order() {
    let mut c = Connections::default();
    for n in [5u64, 3, 8, 1] {
        c.connect(n);
    }
    assert_eq!(c.get(0), Some(5));
    assert_eq!(c.get(1), Some(3));
    assert_eq!(c.get(2), Some(8));
    assert_eq!(c.get(3), Some(1));
    assert_eq!(c.get(4), None);
}

#[test]
fn contains_tells_neighbors_from_others() {
    let mut c = Connections::default();
    c.connect(4);
    assert!(c.contains(4));
    assert!(!c.contains(5));
}

#[test]
fn disconnect_removes_only_the_named_neighbor() {
    let mut c = Connections::default();
    c.connect(1);
    c.connect(2);
    c.connect(3);
    c.disconnect(2);
    assert_eq!(c.to_vec(), vec![1, 3]);
    c.disconnect(2);
    assert_eq!(c.to_vec(), vec![1, 3]);
}

#[test]
fn a_list_grows_past_its_inline_capacity() {
    let mut c = Connections::default();
    for n in 0..25u64 {
        c.connect(n);
    }
    assert_eq!(c.len(), 25);
    assert_eq!(c.to_vec(), (0..25u64).collect::<Vec<u64>>());
    c.disconnect(0);
    assert_eq!(c.len(), 24);
    assert_eq!(c.get(0), Some(1));
}

#[test]
fn the_limit_of_a_list_is_a_thirty_second_of_the_address_space() {
    assert_eq!(MAX_NEIGHBORS, usize::MAX / 32);
}

#[test]
fn a_store_creates_nodes_without_neighbors() {
    let mut store = AdjacencyStore::new();
    assert!(!store.contains(1));
    assert!(store.get(1).is_none());
    assert!(store.insert(1));
    assert!(store.contains(1));
    assert!(store.get(1).unwrap().is_empty());
    assert!(!store.insert(1));
}

#[test]
fn inserting_an_existing_node_keeps_its_list() {
    let mut store = AdjacencyStore::new();
    store.insert(1);
    store.connect(1, 2);
    assert!(!store.insert(1));
    assert_eq!(store.get(1).unwrap().to_vec(), vec![2]);
}

#[test]
fn one_sided_connect_changes_one_list() {
    let mut store = AdjacencyStore::new();
    store.insert(1);
    store.insert(2);
    assert_eq!(store.connect(1, 2), Some(true));
    assert_eq!(store.get(1).unwrap().to_vec(), vec![2]);
    assert!(store.get(2).unwrap().is_empty());
    assert_eq!(store.connect(1, 2), Some(false));
    assert_eq!(store.get(1).unwrap().to_vec(), vec![2]);
    assert_eq!(store.connect(3, 1), None);
    assert!(!store.contains(3));
}

#[test]
fn one_sided_disconnect_changes_one_list() {
    let mut store = AdjacencyStore::new();
    store.insert(1);
    store.insert(2);
    store.connect(1, 2);
    store.connect(2, 1);
    assert_eq!(store.disconnect(1, 2), Some(true));
    assert!(store.get(1).unwrap().is_empty());
    assert_eq!(store.get(2).unwrap().to_vec(), vec![1]);
    assert_eq!(store.disconnect(1, 2), Some(false));
    assert_eq!(store.disconnect(9, 1), None);
}

#[test]
fn on_remove_detaches_a_node_from_its_neighbors() {
    let mut store = AdjacencyStore::new();
    for n in 1..=4u64 {
        store.insert(n);
    }
    for (a, b) in [(1u64, 2u64), (1, 3), (2, 3), (3, 4)] {
        store.connect(a, b);
        store.connect(b, a);
    }
    let notices = Connections::on_remove(&mut store, 3);
    assert_eq!(
        notices,
        vec![ConnectionUpdateEvent(1), ConnectionUpdateEvent(2), ConnectionUpdateEvent(4)]
    );
    assert_eq!(store.get(1).unwrap().to_vec(), vec![2]);
    assert_eq!(store.get(2).unwrap().to_vec(), vec![1]);
    assert!(store.get(4).unwrap().is_empty());
    assert_eq!(store.get(3).unwrap().to_vec(), vec![1, 2, 4]);
}

#[test]
fn on_remove_passes_over_listed_nodes_that_do_not_exist() {
    let mut store = AdjacencyStore::new();
    store.insert(1);
    store.insert(2);
    store.connect(1, 99);
    store.connect(1, 2);
    store.connect(2, 1);
    let notices = Connections::on_remove(&mut store, 1);
    assert_eq!(notices, vec![ConnectionUpdateEvent(2)]);
    assert!(store.get(2).unwrap().is_empty());
    assert!(!store.contains(99));
}

#[test]
fn on_remove_of_a_missing_node_changes_nothing() {
    let mut store = AdjacencyStore::new();
    store.insert(1);
    store.connect(1, 7);
    let notices = Connections::on_remove(&mut store, 7);
    assert!(notices.is_empty());
    assert_eq!(store.get(1).unwrap().to_vec(), vec![7]);
}

#[test]
fn removing_a_node_removes_its_list_too() {
    let mut store = AdjacencyStore::new();
    store.insert(1);
    store.insert(2);
    store.connect(1, 2);
    store.connect(2, 1);
    assert_eq!(store.remove(1), Some(vec![ConnectionUpdateEvent(2)]));
    assert!(!store.contains(1));
    assert!(store.get(2).unwrap().is_empty());
    assert_eq!(store.remove(1), None);
}

#[test]
fn on_remove_notes_only_the_lists_it_changes() {
    let mut store = AdjacencyStore::new();
    for n in 1..=3u64 {
        store.insert(n);
    }
    store.connect(1, 2);
    store.connect(1, 3);
    store.connect(1, 1);
    store.connect(2, 1);
    let notices = Connections::on_remove(&mut store, 1);
    assert_eq!(notices, vec![ConnectionUpdateEvent(2)]);
    assert!(store.get(2).unwrap().is_empty());
    assert!(store.get(3).unwrap().is_empty());
    assert_eq!(store.get(1).unwrap().to_vec(), vec![2, 3]);
}

#[test]
fn a_note_is_taken_once() {
    let mut updates = Vec::new();
    entity_graph::connections::note(&mut updates, 4);
    entity_graph::connections::note(&mut updates, 6);
    entity_graph::connections::note(&mut updates, 4);
    assert_eq!(updates, vec![ConnectionUpdateEvent(4), ConnectionUpdateEvent(6)]);
}
