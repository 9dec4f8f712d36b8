use mbei::graph::{edges_from_deltas, Delta, DeltaType, Edge, Node};

#[test]
fn test_edges_from_deltas_two_removals() {
    let my_barrel = Node::material_instance_node("MyBarrel0", "Barrel");
    let my_platform = Node::object_instance_node("MyPlatform0", "Platform");
    let deltas = vec![
        Delta {
            src: my_barrel.clone(),
            trg: my_platform.clone(),
            edge_type: "At".to_string(),
            timestamp: 2,
            delta_type: DeltaType::Removal,
        },
        Delta {
            src: my_barrel.clone(),
            trg: my_platform.clone(),
            edge_type: "At".to_string(),
            timestamp: 3,
            delta_type: DeltaType::Removal,
        },
        Delta {
            src: my_barrel.clone(),
            trg: my_platform.clone(),
            edge_type: "At".to_string(),
            timestamp: 0,
            delta_type: DeltaType::Addition,
        },
    ];
    let mut borrow_deltas = vec![];
    for d in &deltas {
        borrow_deltas.push(d);
    }

    let updated_edges_with_timestamp = edges_from_deltas(&borrow_deltas);

    let expected = vec![Edge {
        src: my_barrel.clone(),
        trg: my_platform.clone(),
        edge_type: "At".to_string(),
        from_timestamp: Some(0),
        to_timestamp: Some(2),
    }];
    assert_eq!(updated_edges_with_timestamp, expected);
}

fn delta(ts: u64, delta_type: DeltaType) -> Delta {
    Delta {
        src: Node::material_instance_node("b", "Barrel"),
        trg: Node::object_instance_node("p", "Platform"),
        edge_type: "At".to_string(),
        timestamp: ts,
        delta_type,
    }
}

fn edges_of(deltas: &Vec<Delta>) -> Vec<(Option<u64>, Option<u64>)> {
    let refs: Vec<&Delta> = deltas.iter().collect();
    edges_from_deltas(&refs).iter().map(|e| (e.from_timestamp, e.to_timestamp)).collect()
}

#[test]
fn a_removal_before_the_first_addition_gives_no_edge() {
    let deltas = vec![delta(1, DeltaType::Removal), delta(5, DeltaType::Addition)];
    assert_eq!(edges_of(&deltas), vec![(Some(5), None)]);
    assert_eq!(edges_of(&vec![delta(1, DeltaType::Removal)]), vec![]);
}

#[test]
fn additions_after_all_removals_give_one_open_edge() {
    let deltas = vec![
        delta(9, DeltaType::Addition),
        delta(0, DeltaType::Addition),
        delta(4, DeltaType::Removal),
        delta(7, DeltaType::Addition),
        delta(2, DeltaType::Addition),
    ];
    assert_eq!(edges_of(&deltas), vec![(Some(0), Some(4)), (Some(7), None)]);
}

#[test]
fn each_removal_takes_the_additions_up_to_it() {
    let deltas = vec![
        delta(3, DeltaType::Removal),
        delta(3, DeltaType::Addition),
        delta(3, DeltaType::Removal),
        delta(8, DeltaType::Removal),
        delta(5, DeltaType::Addition),
    ];
    assert_eq!(edges_of(&deltas), vec![(Some(3), Some(3)), (Some(5), Some(8))]);
    assert_eq!(edges_of(&vec![]), vec![]);
}

#[test]
fn the_edge_of_a_group_begins_and_ends_with_the_earliest() {
    let deltas = vec![
        delta(6, DeltaType::Removal),
        delta(4, DeltaType::Addition),
        delta(2, DeltaType::Addition),
        delta(9, DeltaType::Removal),
    ];
    let refs: Vec<&Delta> = deltas.iter().collect();
    let edge = Edge::from_deltas(&refs).unwrap();
    assert_eq!((edge.from_timestamp, edge.to_timestamp), (Some(2), Some(6)));
    assert_eq!(edge.edge_type, "At");
    let removals = vec![delta(6, DeltaType::Removal)];
    let refs: Vec<&Delta> = removals.iter().collect();
    assert_eq!(Edge::from_deltas(&refs), None);
}

#[test]
fn forgetting_particulars_keeps_objects() {
    let mut edge = Edge::without_timestamp(
        Node::material_matched_query_node("b", "MyBarrel", "Barrel"),
        Node::object_matched_query_node("p", "MyPlatform", "Platform"),
        "At",
    );
    edge.trg.value_bytes = Some(vec![1]);
    edge.forget_particulars();
    assert_eq!(edge.src, Node { query_node_name: None, instance_node_name: None, node_type: Some("Barrel".to_string()), node_class: mbei::graph::NodeClass::Material, value_bytes: None });
    assert_eq!(edge.trg, Node::object_matched_query_node("p", "MyPlatform", "Platform"));
    edge.forget_query_node_name();
    assert_eq!(edge.trg, Node::object_instance_node("MyPlatform", "Platform"));
    let mut property = Node::property_instance_node("x", "X", vec![2]);
    property.forget_particular_material();
    assert_eq!(property.instance_node_name, Some("x".to_string()));
    property.forget_particular_property();
    assert_eq!(property.instance_node_name, None);
    assert_eq!(property.value_bytes, Some(vec![2]));
    property.forget_particular_value();
    assert_eq!(property.value_bytes, None);
}

#[test]
fn a_graph_knows_the_edges_at_each_node() {
    let a = Node::object_instance_node("a", "T");
    let b = Node::object_instance_node("b", "T");
    let ab = Edge::without_timestamp(a.clone(), b.clone(), "x");
    let ba = Edge::without_timestamp(b.clone(), a.clone(), "y");
    let aa = Edge::without_timestamp(a.clone(), a.clone(), "z");
    let graph = mbei::graph::Graph::from_edges(vec![ab.clone(), ba.clone(), aa.clone()]);
    assert_eq!(graph.outgoing.get(&a), Some(&vec![ab.clone(), aa.clone()]));
    assert_eq!(graph.incoming.get(&a), Some(&vec![ba.clone(), aa]));
    assert_eq!(graph.incoming.get(&b), Some(&vec![ab]));
    assert_eq!(graph.outgoing.len(), 2);
    let lonely = mbei::graph::Graph::from_edges(vec![ba.clone()]);
    assert_eq!(lonely.incoming.get(&b), Some(&vec![]));
}
