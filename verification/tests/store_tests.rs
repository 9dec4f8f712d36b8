use mbei::event::Event;
use mbei::graph::{Edge, Node};
use mbei::store::Store;

fn abc1c2d_events() -> Vec<Event> {
    let mk = |id: &str, ts: u64, node: &str| Event {
        event_id: id.to_string(),
        timestamp: ts,
        node_id: node.to_string(),
        payload: vec![],
    };
    vec![
        mk("A", 1, "A_nodeid"),
        mk("B", 3, "B_nodeid"),
        mk("C2", 915, "C1_nodeid"),
        mk("C1", 915, "C2_nodeid"),
        mk("D", 1000, "C_nodeid"),
    ]
}

fn store_with(events: &Vec<Event>) -> Store {
    let mut store = Store::new();
    for event in events {
        store.add_new_event(event);
    }
    store
}

fn names(ids: &[&str]) -> Vec<String> {
    ids.iter().map(|s| s.to_string()).collect()
}

#[test]
fn test_event_iterator_after_first() {
    let store = store_with(&abc1c2d_events());
    assert_eq!(store.get_event_ids_in_interval(2, None), names(&["B", "C1", "C2", "D"]));
}

#[test]
fn test_event_iterator_from_after_end() {
    let store = store_with(&abc1c2d_events());
    assert!(store.get_event_ids_in_interval(1167, None).is_empty());
}

#[test]
fn test_event_iterator_from_before_start() {
    let store = store_with(&abc1c2d_events());
    assert_eq!(store.get_event_ids_in_interval(0, None), names(&["A", "B", "C1", "C2", "D"]));
}

#[test]
fn test_event_iterator_from_before_stops_inside() {
    let store = store_with(&abc1c2d_events());
    assert_eq!(store.get_event_ids_in_interval(0, Some(3)), names(&["A", "B"]));
}

#[test]
fn test_event_iterator_from_inside_stops_inside() {
    let store = store_with(&abc1c2d_events());
    assert_eq!(store.get_event_ids_in_interval(3, Some(915)), names(&["B", "C1", "C2"]));
}

#[test]
fn test_node_indexed_edges() {
    let mut teststore = Store::new();
    let n1 = Node::material_instance_node("MyBarrel0", "Barrel");
    let n2 = Node::property_instance_node("MyBarrel0_barrel_type", "BarrelMaterialType", vec![]);
    let n3 = Node::object_instance_node("Somewhere", "SomewhereType");
    let edge1 = Edge {
        src: n1.clone(),
        trg: n2,
        edge_type: "HasMaterialType".to_string(),
        from_timestamp: Some(4),
        to_timestamp: None,
    };
    let edge2 = Edge {
        src: n1,
        trg: n3,
        edge_type: "At".to_string(),
        from_timestamp: Some(3),
        to_timestamp: None,
    };

    teststore.update_edges(&vec![edge1.clone(), edge2.clone()], &vec![]);
    let edges = teststore.get_edges_at_timestamp(5);
    assert_eq!(edges, vec![edge2, edge1]);
}

#[test]
fn test_closed_edges_are_found_up_to_the_watermark() {
    let mut store = Store::new();
    let a = Node::object_instance_node("A", "T");
    let b = Node::object_instance_node("B", "T");
    let short = Edge {
        src: a.clone(),
        trg: b.clone(),
        edge_type: "At".to_string(),
        from_timestamp: Some(5),
        to_timestamp: Some(12),
    };
    let long = Edge {
        src: a.clone(),
        trg: b.clone(),
        edge_type: "Near".to_string(),
        from_timestamp: Some(0),
        to_timestamp: Some(5000),
    };
    store.update_edges(&vec![short.clone(), long.clone()], &vec![]);
    assert_eq!(store.get_closed_edges_at_timestamp(11), vec![short.clone(), long.clone()]);
    assert_eq!(store.get_closed_edges_at_timestamp(4), vec![long.clone()]);
    assert_eq!(store.get_closed_edges_at_timestamp(5000), vec![long.clone()]);
    assert_eq!(store.get_closed_edges_at_timestamp(5001), Vec::<Edge>::new());
    // nothing has raised the watermark: closed edges are not looked up
    assert_eq!(store.get_edges_at_timestamp(11), Vec::<Edge>::new());
    store.update_edges(&vec![long.clone()], &vec![short.clone(), long.clone()]);
    assert_eq!(store.get_closed_edges_at_timestamp(11), vec![long.clone()]);
}

fn closed(from: u64, to: u64) -> Edge {
    Edge {
        src: Node::object_instance_node("a", "A"),
        trg: Node::object_instance_node("b", "B"),
        edge_type: "Near".to_string(),
        from_timestamp: Some(from),
        to_timestamp: Some(to),
    }
}

#[test]
fn test_an_edge_stands_on_the_level_that_is_half_as_wide_as_it_is_long() {
    // twice ten is less than twenty-one: the edge stands in the one bin of
    // width a hundred that holds both its ends, and is found in between
    let mut store = Store::new();
    store.add_edge(closed(5, 26));
    assert_eq!(store.get_closed_edges_at_timestamp(15), vec![closed(5, 26)]);
    assert_eq!(store.get_closed_edges_at_timestamp(27), vec![]);
    // twice ten is twenty: the edge stands in the bins of width ten of its
    // two ends, and is not found in the bin between them
    let mut store = Store::new();
    store.add_edge(closed(5, 25));
    assert_eq!(store.get_closed_edges_at_timestamp(15), vec![]);
    assert_eq!(store.get_closed_edges_at_timestamp(7), vec![closed(5, 25)]);
    assert_eq!(store.get_closed_edges_at_timestamp(22), vec![closed(5, 25)]);
    for (from, to, at) in [(0, 201, 150), (0, 2001, 1500), (1000, 3001, 2500)] {
        let mut store = Store::new();
        store.add_edge(closed(from, to));
        assert_eq!(store.get_closed_edges_at_timestamp(at), vec![closed(from, to)]);
        store.delete_edge(&closed(from, to));
        assert_eq!(store.get_closed_edges_at_timestamp(at), vec![]);
    }
    let mut store = Store::new();
    store.add_edge(closed(0, u64::MAX));
    assert_eq!(store.get_closed_edges_at_timestamp(u64::MAX), vec![closed(0, u64::MAX)]);
}

#[test]
fn test_open_edges_come_once_and_in_order() {
    let open = |name: &str, from: u64| Edge {
        src: Node::object_instance_node(name, "A"),
        trg: Node::object_instance_node("b", "B"),
        edge_type: "Near".to_string(),
        from_timestamp: Some(from),
        to_timestamp: None,
    };
    let mut store = Store::new();
    store.add_edge(open("z", 1));
    store.add_edge(open("a", 4));
    store.add_edge(open("m", 2));
    store.add_edge(open("a", 4));
    assert_eq!(store.count_open_edges(), 3);
    assert_eq!(store.get_open_edges_at_timestamp(3), vec![open("m", 2), open("z", 1)]);
    assert_eq!(
        store.get_open_edges_at_timestamp(4),
        vec![open("a", 4), open("m", 2), open("z", 1)]
    );
    assert_eq!(store.get_edges_at_timestamp(0), vec![]);
}
