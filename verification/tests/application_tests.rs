use mbei::applications::{
    as_instance_node, create_material_type_node, create_stamp_node, BarrelMaterialType,
    ConveyorApplication, ConveyorEvent, CraneApplication, CraneEvent, CraneEventType,
    DetectorApplication, DetectorEvent, StampApplication, StampEvent,
};
use mbei::codec::{read_index, read_text};
use mbei::wire::{
    ApplicationRequest, ApplicationResponse, DeltaMessage, EventMessage, InstanceEdge,
    InstanceNode, Match, MatchTuple, OptionalBytes, OptionalString, QueryEdge, QueryNode,
};

fn instance(id: &str, node_type: &str, class: i32) -> InstanceNode {
    InstanceNode {
        instance_node_id: id.to_string(),
        node_type: node_type.to_string(),
        node_class: class,
        value: None,
    }
}

fn query_node(name: &str, id: Option<&str>, node_type: &str, class: i32) -> QueryNode {
    QueryNode {
        query_node_name: name.to_string(),
        instance_node_id: id.map(|s| OptionalString { s: s.to_string() }),
        node_type: Some(OptionalString { s: node_type.to_string() }),
        node_class: class,
    }
}

fn query_edge(src: QueryNode, trg: QueryNode, edge_type: &str) -> QueryEdge {
    QueryEdge { src: Some(src), trg: Some(trg), edge_type: edge_type.to_string() }
}

fn at(barrel: &str, node: InstanceNode, from: u64) -> InstanceEdge {
    InstanceEdge {
        src: Some(instance(barrel, "Barrel", 2)),
        trg: Some(node),
        from_timestamp: from,
        edge_type: "At".to_string(),
    }
}

fn tuple(query: QueryEdge, image: InstanceEdge) -> MatchTuple {
    MatchTuple { src: Some(query), trg: Some(image) }
}

fn crane_graph() -> Vec<QueryEdge> {
    let crane = query_node("c", Some("MyCrane0"), "Crane", 0);
    let platform = query_node("o", Some("MyPlatform0"), "Platform", 0);
    vec![
        query_edge(query_node("bo", None, "Barrel", 2), platform, "At"),
        query_edge(query_node("bc", None, "Barrel", 2), crane.clone(), "At"),
        query_edge(crane, query_node("p", Some("MyPickDrop0"), "PickDrop", 1), "HasEvent"),
    ]
}

fn crane_request(event: CraneEvent, timestamp: u64, images: Vec<InstanceEdge>) -> ApplicationRequest {
    let graph = crane_graph();
    let tuples = images.into_iter().map(|e| tuple(graph[0].clone(), e)).collect();
    ApplicationRequest {
        query_name: "pickdrop_matched_0".to_string(),
        application_name: "crane".to_string(),
        matches: vec![Match { tuples }],
        query_graph: graph,
        event: Some(EventMessage {
            event_id: "e".to_string(),
            instance_node_id: "MyPickDrop0".to_string(),
            timestamp,
            payload: event.encode(),
        }),
    }
}

fn delta(src: &str, trg: InstanceNode, edge_type: &str, ts: u64, delta_type: i32) -> DeltaMessage {
    DeltaMessage {
        src: Some(instance(src, "Barrel", 2)),
        trg: Some(trg),
        edge_type: edge_type.to_string(),
        timestamp: ts,
        delta_type,
    }
}

#[test]
fn payloads_are_what_bincode_writes() {
    let config = bincode::config::standard();
    let pick = CraneEvent {
        instance_node_id: "MyPlatform0".to_string(),
        crane_event_type: CraneEventType::PickUp,
    };
    assert_eq!(
        pick.encode(),
        bincode::encode_to_vec(("MyPlatform0".to_string(), 0u32), config).unwrap()
    );
    let drop = CraneEvent {
        instance_node_id: "é".repeat(200),
        crane_event_type: CraneEventType::Drop,
    };
    assert_eq!(
        drop.encode(),
        bincode::encode_to_vec(("é".repeat(200), 1u32), config).unwrap()
    );
    assert_eq!(CraneEvent::decode(&drop.encode()), Some(drop));
    assert_eq!(CraneEvent::decode(&pick.encode()), Some(pick));
    assert_eq!(BarrelMaterialType::Plastic.encode(), vec![1]);
    assert_eq!(DetectorEvent { barrel_material_type: BarrelMaterialType::Metal }.encode(), vec![0]);
    assert_eq!(ConveyorEvent {}.encode(), Vec::<u8>::new());
    assert_eq!(ConveyorEvent::decode(&[9, 9]), Some(ConveyorEvent {}));
    let stamp = StampEvent { stamp_data: "x-1".to_string() };
    assert_eq!(stamp.encode(), bincode::encode_to_vec("x-1".to_string(), config).unwrap());
    assert_eq!(StampEvent::decode(&stamp.encode()), Some(stamp));
}

#[test]
fn payloads_that_bincode_refuses_are_refused() {
    // the text ends early
    assert_eq!(CraneEvent::decode(&[3, b'a', b'b']), None);
    // no well-formed text
    assert_eq!(CraneEvent::decode(&[1, 0xff, 0]), None);
    assert_eq!(StampEvent::decode(&[2, 0xc3]), None);
    // no such variant
    assert_eq!(CraneEvent::decode(&[1, b'a', 2]), None);
    assert_eq!(BarrelMaterialType::decode(&[2]), None);
    // the variant is missing
    assert_eq!(CraneEvent::decode(&[1, b'a']), None);
    assert_eq!(DetectorEvent::decode(&[]), None);
    // a length that no input holds
    assert_eq!(StampEvent::decode(&[253, 255, 255, 255, 255, 255, 255, 255, 255, b'a']), None);
    // an index is not eight bytes wide
    assert_eq!(BarrelMaterialType::decode(&[253, 0, 0, 0, 0, 0, 0, 0, 0]), None);
    // a number need not stand in its shortest form, and what follows is not read
    assert_eq!(BarrelMaterialType::decode(&[251, 1, 0, 7]), Some(BarrelMaterialType::Plastic));
    assert_eq!(
        CraneEvent::decode(&[251, 1, 0, b'a', 252, 0, 0, 0, 0]),
        Some(CraneEvent {
            instance_node_id: "a".to_string(),
            crane_event_type: CraneEventType::PickUp
        })
    );
    assert_eq!(read_index(&[252, 1, 2, 3, 4]), Some((0x04030201, 5)));
    assert_eq!(read_index(&[252, 1, 2, 3]), None);
    assert_eq!(read_text(&[2, b'h', b'i', b'!']), Some(("hi".to_string(), 3)));
    assert_eq!(read_text(&[0]), Some((String::new(), 1)));
    assert_eq!(read_text(&[]), None);
}

#[test]
fn a_crane_picks_up_the_barrel_that_came_last() {
    let platform = instance("MyPlatform0", "Platform", 0);
    let event = CraneEvent {
        instance_node_id: "MyPlatform0".to_string(),
        crane_event_type: CraneEventType::PickUp,
    };
    let request = crane_request(
        event,
        10,
        vec![
            at("old", platform.clone(), 2),
            at("new", platform.clone(), 7),
            at("also", platform.clone(), 7),
            at("elsewhere", instance("MyCrane0", "Crane", 0), 9),
        ],
    );
    let response = CraneApplication::new().crane_function(&request).unwrap();
    assert_eq!(
        response,
        ApplicationResponse {
            deltas: vec![
                delta("new", platform, "At", 10, 1),
                delta("new", instance("MyCrane0", "Crane", 0), "At", 11, 0),
            ]
        }
    );
}

#[test]
fn a_crane_drops_the_barrel_where_the_event_says() {
    let crane = instance("MyCrane0", "Crane", 0);
    let event = CraneEvent {
        instance_node_id: "MyPlatform0".to_string(),
        crane_event_type: CraneEventType::Drop,
    };
    let request = crane_request(
        event,
        20,
        vec![at("b", instance("MyPlatform0", "Platform", 0), 30), at("held", crane.clone(), 12)],
    );
    let response = CraneApplication::new().crane_function(&request).unwrap();
    assert_eq!(
        response,
        ApplicationResponse {
            deltas: vec![
                delta("held", crane, "At", 20, 1),
                delta("held", instance("MyPlatform0", "Platform", 0), "At", 21, 0),
            ]
        }
    );
}

#[test]
fn a_crane_with_nothing_to_move_answers_nothing() {
    let nothing = ApplicationResponse { deltas: vec![] };
    let pick = |id: &str| CraneEvent {
        instance_node_id: id.to_string(),
        crane_event_type: CraneEventType::PickUp,
    };
    let drop = |id: &str| CraneEvent {
        instance_node_id: id.to_string(),
        crane_event_type: CraneEventType::Drop,
    };
    let held = at("b", instance("MyCrane0", "Crane", 0), 1);
    let application = CraneApplication::new();
    // no barrel at the platform
    let request = crane_request(pick("MyPlatform0"), 5, vec![held.clone()]);
    assert_eq!(application.crane_function(&request), Some(nothing.clone()));
    // no barrel at the crane
    let request = crane_request(
        drop("MyPlatform0"),
        5,
        vec![at("b", instance("MyPlatform0", "Platform", 0), 1)],
    );
    assert_eq!(application.crane_function(&request), Some(nothing.clone()));
    // the pattern does not know the node
    let request = crane_request(drop("MyPlatform9"), 5, vec![held.clone()]);
    assert_eq!(application.crane_function(&request), Some(nothing.clone()));
    // no event
    let mut request = crane_request(drop("MyPlatform0"), 5, vec![held.clone()]);
    request.event = None;
    assert_eq!(application.crane_function(&request), Some(nothing.clone()));
    // no crane in the pattern
    let mut request = crane_request(pick("MyCrane0"), 5, vec![held.clone()]);
    request.query_graph.truncate(1);
    assert_eq!(application.crane_function(&request), Some(nothing));
}

#[test]
fn a_crane_gives_no_answer_to_a_request_that_lacks_a_part() {
    let pick = CraneEvent {
        instance_node_id: "MyPlatform0".to_string(),
        crane_event_type: CraneEventType::PickUp,
    };
    let application = CraneApplication::new();
    let platform = instance("MyPlatform0", "Platform", 0);
    // a payload that is no crane event
    let mut request = crane_request(pick.clone(), 5, vec![at("b", platform.clone(), 1)]);
    request.event.as_mut().unwrap().payload = vec![200];
    assert_eq!(application.crane_function(&request), None);
    // a tuple without an image
    let mut request = crane_request(pick.clone(), 5, vec![at("b", platform.clone(), 1)]);
    request.matches[0].tuples[0].trg = None;
    assert_eq!(application.crane_function(&request), None);
    // an edge of the pattern without a source, before the crane
    let mut request = crane_request(pick.clone(), 5, vec![at("b", platform.clone(), 1)]);
    request.query_graph[0].src = None;
    assert_eq!(application.crane_function(&request), None);
    // and one after the crane, which is not looked at
    let mut request = crane_request(pick.clone(), 5, vec![at("b", platform.clone(), 1)]);
    request.query_graph.push(QueryEdge { src: None, trg: None, edge_type: "At".to_string() });
    assert!(application.crane_function(&request).is_some());
    // no timestamp after the last
    let request = crane_request(pick, u64::MAX, vec![at("b", platform, 1)]);
    assert_eq!(application.crane_function(&request), None);
}

fn conveyor_request(material: Vec<u8>) -> ApplicationRequest {
    let barrel = query_node("b", None, "Barrel", 2);
    let graph = vec![
        query_edge(barrel.clone(), query_node("c", Some("MyConveyor0"), "Conveyor", 0), "At"),
        query_edge(barrel.clone(), query_node("t", None, "BarrelMaterialType", 3), "HasMaterialType"),
        query_edge(barrel.clone(), query_node("m", Some("MyMetalRamp0"), "Ramp", 0), "At"),
        query_edge(barrel, query_node("p", Some("MyPlasticRamp0"), "Ramp", 0), "At"),
    ];
    let mut type_node = instance("MyBarrel_barrel_type", "BarrelMaterialType", 3);
    type_node.value = Some(OptionalBytes { b: material });
    let has_type = InstanceEdge {
        src: Some(instance("MyBarrel", "Barrel", 2)),
        trg: Some(type_node),
        from_timestamp: 3,
        edge_type: "HasMaterialType".to_string(),
    };
    ApplicationRequest {
        query_name: "conveyor_matched_0".to_string(),
        application_name: "conveyor".to_string(),
        matches: vec![Match {
            tuples: vec![
                tuple(graph[1].clone(), has_type),
                tuple(graph[0].clone(), at("MyBarrel", instance("MyConveyor0", "Conveyor", 0), 4)),
            ],
        }],
        query_graph: graph,
        event: Some(EventMessage {
            event_id: "e".to_string(),
            instance_node_id: "MyConveyor0".to_string(),
            timestamp: 8,
            payload: ConveyorEvent {}.encode(),
        }),
    }
}

#[test]
fn a_conveyor_sends_a_barrel_to_the_ramp_for_its_material() {
    let application = ConveyorApplication::new();
    let response = application
        .conveyor_function(&conveyor_request(BarrelMaterialType::Plastic.encode()))
        .unwrap();
    assert_eq!(
        response.deltas,
        vec![
            delta("MyBarrel", instance("MyConveyor0", "Conveyor", 0), "At", 8, 1),
            delta("MyBarrel", instance("MyPlasticRamp0", "Ramp", 0), "At", 9, 0),
        ]
    );
    let response = application
        .conveyor_function(&conveyor_request(BarrelMaterialType::Metal.encode()))
        .unwrap();
    assert_eq!(response.deltas[1], delta("MyBarrel", instance("MyMetalRamp0", "Ramp", 0), "At", 9, 0));
    assert_eq!(application.conveyor_function(&conveyor_request(vec![5])), None);
    let mut request = conveyor_request(vec![0]);
    request.matches.push(Match { tuples: vec![] });
    assert_eq!(application.conveyor_function(&request), None);
    let mut request = conveyor_request(vec![0]);
    request.matches[0].tuples.pop();
    assert_eq!(application.conveyor_function(&request), None);
    let mut request = conveyor_request(vec![0]);
    request.query_graph.pop();
    assert_eq!(application.conveyor_function(&request), None);
    let mut request = conveyor_request(vec![0]);
    request.event = None;
    assert_eq!(application.conveyor_function(&request), Some(ApplicationResponse { deltas: vec![] }));
}

#[test]
fn a_detector_says_what_the_barrel_is_made_of() {
    let graph = vec![query_edge(
        query_node("b", None, "Barrel", 2),
        query_node("c", Some("MyConveyor0"), "Conveyor", 0),
        "At",
    )];
    let mut request = ApplicationRequest {
        query_name: "detector_matched_0".to_string(),
        application_name: "detector".to_string(),
        matches: vec![Match {
            tuples: vec![tuple(
                graph[0].clone(),
                at("MyBarrel", instance("MyConveyor0", "Conveyor", 0), 4),
            )],
        }],
        query_graph: graph,
        event: Some(EventMessage {
            event_id: "e".to_string(),
            instance_node_id: "MyDetector0".to_string(),
            timestamp: 8,
            payload: DetectorEvent { barrel_material_type: BarrelMaterialType::Plastic }.encode(),
        }),
    };
    let application = DetectorApplication::new();
    let response = application.detector_function(&request).unwrap();
    let node = InstanceNode {
        instance_node_id: "MyBarrel_barrel_type".to_string(),
        node_type: "BarrelMaterialType".to_string(),
        node_class: 3,
        value: Some(OptionalBytes { b: vec![1] }),
    };
    assert_eq!(
        create_material_type_node("MyBarrel".to_string(), BarrelMaterialType::Plastic),
        node
    );
    assert_eq!(response.deltas, vec![delta("MyBarrel", node, "HasMaterialType", 9, 0)]);
    request.matches[0].tuples.push(tuple(
        request.query_graph[0].clone(),
        at("Other", instance("MyConveyor0", "Conveyor", 0), 4),
    ));
    assert_eq!(application.detector_function(&request), None);
    request.matches[0].tuples.clear();
    assert_eq!(application.detector_function(&request), None);
}

#[test]
fn a_stamp_marks_the_barrel_that_came_last() {
    let graph = vec![query_edge(
        query_node("b", None, "Barrel", 2),
        query_node("s", Some("MyStampAssembly0"), "StampAssembly", 0),
        "At",
    )];
    let assembly = instance("MyStampAssembly0", "StampAssembly", 0);
    let stamp = StampEvent { stamp_data: "data".to_string() };
    let mut request = ApplicationRequest {
        query_name: "stamp_matched_0".to_string(),
        application_name: "stamp".to_string(),
        matches: vec![
            Match { tuples: vec![tuple(graph[0].clone(), at("first", assembly.clone(), 4))] },
            Match { tuples: vec![tuple(graph[0].clone(), at("second", assembly.clone(), 6))] },
            Match { tuples: vec![tuple(graph[0].clone(), at("third", assembly.clone(), 6))] },
        ],
        query_graph: graph,
        event: Some(EventMessage {
            event_id: "e".to_string(),
            instance_node_id: "MyStamp0".to_string(),
            timestamp: 1234567890123,
            payload: stamp.encode(),
        }),
    };
    let application = StampApplication::new();
    let node = InstanceNode {
        instance_node_id: "second_Stamp_1234567890123".to_string(),
        node_type: "StampData".to_string(),
        node_class: 3,
        value: Some(OptionalBytes { b: vec![4, b'd', b'a', b't', b'a'] }),
    };
    assert_eq!(
        create_stamp_node("second".to_string(), 1234567890123, vec![4, b'd', b'a', b't', b'a']),
        node
    );
    assert_eq!(
        application.stamp_function(&request).unwrap().deltas,
        vec![delta("second", node, "HasStampData", 1234567890123, 0)]
    );
    let nothing = Some(ApplicationResponse { deltas: vec![] });
    // what is at the stamp is no barrel
    request.matches[1].tuples[0].trg.as_mut().unwrap().src.as_mut().unwrap().node_type =
        "Box".to_string();
    assert_eq!(application.stamp_function(&request), nothing);
    // a match without an image ends the search
    request.matches[0].tuples[0].trg = None;
    request.matches[2].tuples[0].src = None;
    assert_eq!(application.stamp_function(&request), nothing);
    // a tuple without its query edge, where the search comes to it
    request.matches[0].tuples[0].src = None;
    assert_eq!(application.stamp_function(&request), None);
    request.matches.clear();
    assert_eq!(application.stamp_function(&request), nothing);
}

#[test]
fn a_query_node_without_an_instance_stands_for_no_node() {
    assert_eq!(
        as_instance_node(&query_node("c", Some("MyCrane0"), "Crane", 0)),
        Some(instance("MyCrane0", "Crane", 0))
    );
    assert_eq!(as_instance_node(&query_node("c", None, "Crane", 0)), None);
    let mut untyped = query_node("c", Some("MyCrane0"), "Crane", 0);
    untyped.node_type = None;
    assert_eq!(as_instance_node(&untyped), None);
}
