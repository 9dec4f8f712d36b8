use mbei::factory_scenario_builder::{
    complex_factory_scenario_builder, crane_pickdrops, cranes, create_simple_factory_scenario,
    matched_pickdrop_query, matched_stamp_query, platforms, ramps, stamp_assemblies, stamps,
    SimpleFactoryScenario,
};
use mbei::graph::{Edge, Graph, Node, NodeClass};
use mbei::ordered::{OrderedMap, OrderedSet};
use mbei::router::Router;

fn three_crane_scenario() -> SimpleFactoryScenario {
    let two_cranes = cranes(2);
    let two_pickdrops = crane_pickdrops(2);
    let three_platforms = platforms(3);
    let three_stamp_assemblies = stamp_assemblies(3);
    let three_stamps = stamps(3);
    let my_ramp = ramps(1).pop().unwrap();

    let matched_pickdrop_query_1 = matched_pickdrop_query(
        two_cranes.get(0).unwrap().clone(),
        two_pickdrops.get(0).unwrap().clone(),
        vec![
            three_platforms.get(0).unwrap().clone(),
            three_platforms.get(1).unwrap().clone(),
            three_stamp_assemblies.get(0).unwrap().clone(),
            three_stamp_assemblies.get(1).unwrap().clone(),
            my_ramp.clone(),
        ],
        "_matched_1",
    );

    let matched_pickdrop_query_2 = matched_pickdrop_query(
        two_cranes.get(1).unwrap().clone(),
        two_pickdrops.get(1).unwrap().clone(),
        vec![
            three_platforms.get(1).unwrap().clone(),
            three_platforms.get(2).unwrap().clone(),
            three_stamp_assemblies.get(1).unwrap().clone(),
            three_stamp_assemblies.get(2).unwrap().clone(),
            my_ramp.clone(),
        ],
        "_matched_2",
    );

    let matched_stamp_query_1 = matched_stamp_query(
        three_stamp_assemblies.get(0).unwrap().clone(),
        three_stamps.get(0).unwrap().clone(),
        "_matched_1",
    );

    let matched_stamp_query_2 = matched_stamp_query(
        three_stamp_assemblies.get(1).unwrap().clone(),
        three_stamps.get(1).unwrap().clone(),
        "_matched_2",
    );

    let matched_stamp_query_3 = matched_stamp_query(
        three_stamp_assemblies.get(2).unwrap().clone(),
        three_stamps.get(2).unwrap().clone(),
        "_matched_3",
    );

    SimpleFactoryScenario {
        cranes: two_cranes,
        crane_pickdrops: two_pickdrops,
        platforms: three_platforms,
        ramps: vec![my_ramp],
        stamps: three_stamps,
        stamp_assemblies: three_stamp_assemblies,
        queries: vec![
            matched_pickdrop_query_1,
            matched_pickdrop_query_2,
            matched_stamp_query_1,
            matched_stamp_query_2,
            matched_stamp_query_3,
        ],
    }
}

#[test]
fn test_three_crane_scenario() {
    let scenario = three_crane_scenario();

    let pickdrop_query1 = scenario
        .queries
        .iter()
        .find(|x| x.name == "pickdrop_matched_1")
        .unwrap();

    let gr = Graph::from_edges(vec![
        Edge {
            src: Node {
                query_node_name: None,
                instance_node_name: Some(
                    "MyBarrel-4ec67d47-7201-4561-bcb8-5410fad3371a".to_string(),
                ),
                node_type: Some("Barrel".to_string()),
                node_class: NodeClass::Material,
                value_bytes: None,
            },
            trg: Node {
                query_node_name: None,
                instance_node_name: Some("MyCrane0".to_string()),
                node_type: Some("Crane".to_string()),
                node_class: NodeClass::Object,
                value_bytes: None,
            },
            edge_type: "At".to_string(),
            from_timestamp: Some(121),
            to_timestamp: None,
        },
        Edge {
            src: Node {
                query_node_name: None,
                instance_node_name: Some(
                    "MyBarrel-8f450af3-dcb8-4781-a153-83788c1cef82".to_string(),
                ),
                node_type: Some("Barrel".to_string()),
                node_class: NodeClass::Material,
                value_bytes: None,
            },
            trg: Node {
                query_node_name: None,
                instance_node_name: Some("MyPlatform1".to_string()),
                node_type: Some("Platform".to_string()),
                node_class: NodeClass::Object,
                value_bytes: None,
            },
            edge_type: "At".to_string(),
            from_timestamp: Some(75),
            to_timestamp: None,
        },
        Edge {
            src: Node {
                query_node_name: None,
                instance_node_name: Some(
                    "MyBarrel-f0e3e747-7222-4970-8bb4-5d8568a198bc".to_string(),
                ),
                node_type: Some("Barrel".to_string()),
                node_class: NodeClass::Material,
                value_bytes: None,
            },
            trg: Node {
                query_node_name: None,
                instance_node_name: Some("MyPlatform1".to_string()),
                node_type: Some("Platform".to_string()),
                node_class: NodeClass::Object,
                value_bytes: None,
            },
            edge_type: "At".to_string(),
            from_timestamp: Some(30),
            to_timestamp: None,
        },
    ]);

    let matches = pickdrop_query1.find_all_grouped_matches(&gr);
    assert_eq!(matches.len(), 1);
}

#[test]
fn test_edge_forward() {
    let scenario = complex_factory_scenario_builder(4);
    let mut all_queries_by_name = OrderedMap::new();
    for q in scenario.all_queries() {
        all_queries_by_name.insert(q.name.clone(), q);
    }
    let edge_forward = Router::compute_edge_forward_maps(&all_queries_by_name);
    let edge_forward_closure =
        Router::compute_edge_forward_closure(edge_forward, &all_queries_by_name);

    let reachable = Router::compute_reachable_map(&edge_forward_closure);
    let all_conveyor_names = OrderedSet::from_vec(vec![
        "conveyor_matched_0".to_string(),
        "conveyor_matched_1".to_string(),
    ]);
    assert_eq!(reachable.get(&"detector_matched_0".to_string()).unwrap(), &all_conveyor_names);
    assert_eq!(reachable.get(&"detector_matched_1".to_string()).unwrap(), &all_conveyor_names);
    assert_eq!(reachable.get(&"detector_matched_2".to_string()).unwrap(), &all_conveyor_names);
    assert_eq!(reachable.get(&"detector_matched_3".to_string()).unwrap(), &all_conveyor_names);
}

#[test]
fn test_conveyor_matching() {
    let scenario = complex_factory_scenario_builder(2);
    let edges = vec![
        Edge {
            src: Node {
                query_node_name: None,
                instance_node_name: Some(
                    "MyBarrel-4d23214e-86d8-4c69-9b7e-65925c3190e3".to_string(),
                ),
                node_type: Some("Barrel".to_string()),
                node_class: NodeClass::Material,
                value_bytes: None,
            },
            trg: Node {
                query_node_name: None,
                instance_node_name: Some("MyConveyor0".to_string()),
                node_type: Some("Conveyor".to_string()),
                node_class: NodeClass::Object,
                value_bytes: None,
            },
            edge_type: "At".to_string(),
            from_timestamp: Some(28),
            to_timestamp: None,
        },
        Edge {
            src: Node {
                query_node_name: None,
                instance_node_name: Some(
                    "MyBarrel-4d23214e-86d8-4c69-9b7e-65925c3190e3".to_string(),
                ),
                node_type: Some("Barrel".to_string()),
                node_class: NodeClass::Material,
                value_bytes: None,
            },
            trg: Node {
                query_node_name: None,
                instance_node_name: Some(
                    "MyBarrel-4d23214e-86d8-4c69-9b7e-65925c3190e3_barrel_type".to_string(),
                ),
                node_type: Some("BarrelMaterialType".to_string()),
                node_class: NodeClass::Property,
                value_bytes: Some(vec![1]),
            },
            edge_type: "HasMaterialType".to_string(),
            from_timestamp: Some(4),
            to_timestamp: None,
        },
    ];

    let graph = Graph::from_edges(edges);
    let query = scenario.conveyor_queries.get(0).unwrap();
    let matches = query.find_all_grouped_matches(&graph);
    assert_eq!(matches.len(), 1);
}

#[test]
fn test_simple_scenario_is_the_three_crane_scenario() {
    let built = create_simple_factory_scenario();
    let by_hand = three_crane_scenario();
    assert_eq!(built.queries, by_hand.queries);
    assert_eq!(built.cranes, by_hand.cranes);
    assert_eq!(built.ramps, by_hand.ramps);
    let names: Vec<&str> = built.queries.iter().map(|q| q.name.as_str()).collect();
    assert_eq!(
        names,
        vec![
            "pickdrop_matched_1",
            "pickdrop_matched_2",
            "stamp_matched_1",
            "stamp_matched_2",
            "stamp_matched_3"
        ]
    );
}

#[test]
fn test_numbered_nodes_have_decimal_names() {
    let eleven = platforms(11);
    assert_eq!(eleven[0], Node::object_instance_node("MyPlatform0", "Platform"));
    assert_eq!(eleven[10], Node::object_instance_node("MyPlatform10", "Platform"));
    let events = crane_pickdrops(2);
    assert_eq!(events[1], Node::event_instance_node("MyCrane1.PickDrop", "PickDrop"));
}

#[test]
fn test_closure_of_the_direct_maps_adds_nothing() {
    let scenario = complex_factory_scenario_builder(4);
    let mut all_queries_by_name = OrderedMap::new();
    for q in scenario.all_queries() {
        all_queries_by_name.insert(q.name.clone(), q);
    }
    let direct = Router::compute_edge_forward_maps(&all_queries_by_name);
    let once = Router::compute_edge_forward_closure(direct.clone(), &all_queries_by_name);
    let twice = Router::compute_edge_forward_closure(once.clone(), &all_queries_by_name);
    assert_eq!(direct, once);
    assert_eq!(once, twice);
}

#[test]
fn edges_lead_from_each_node_to_the_node_at_its_place() {
    let sources = vec![
        Node::object_instance_node("a", "A"),
        Node::object_instance_node("b", "B"),
    ];
    let targets = vec![
        Node::material_instance_node("x", "X"),
        Node::material_instance_node("y", "Y"),
    ];
    let edges = mbei::factory_scenario_builder::edges_between_node_vectors(&sources, &targets, "Has");
    assert_eq!(
        edges,
        vec![
            Edge::without_timestamp(sources[0].clone(), targets[0].clone(), "Has"),
            Edge::without_timestamp(sources[1].clone(), targets[1].clone(), "Has"),
        ]
    );
    assert!(mbei::factory_scenario_builder::edges_between_node_vectors(&vec![], &vec![], "Has").is_empty());
}
