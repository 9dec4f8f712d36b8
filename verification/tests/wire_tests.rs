use mbei::event::{Deltas, Event, Retractions, Update};
use mbei::graph::{Delta, DeltaType, Edge, Graph, Node, NodeClass};
use mbei::ordered::{OrderedMap, OrderedSet};
use mbei::query::{GroupedQueryMatch, QueryMatch};
use mbei::wire::{
    create_application_request, delta_vec_from_response, from_instance_node, request_from_update,
    to_instance_node, update_from_request, ApplicationResponse, DeltaMessage, DeltasMessage,
    InstanceNode, OptionalBytes, ProcessUpdateRequest, UpdateMessage,
};

fn node_message(id: &str, class: i32) -> InstanceNode {
    InstanceNode {
        instance_node_id: id.to_string(),
        node_type: "T".to_string(),
        node_class: class,
        value: Some(OptionalBytes { b: vec![1, 2] }),
    }
}

fn delta_message(src: &str, ts: u64, delta_type: i32) -> DeltaMessage {
    DeltaMessage {
        src: Some(node_message(src, 2)),
        trg: Some(node_message("o", 0)),
        edge_type: "At".to_string(),
        timestamp: ts,
        delta_type,
    }
}

#[test]
fn a_node_comes_off_the_wire_and_goes_back() {
    let message = node_message("n", 3);
    let node = from_instance_node(message.clone()).unwrap();
    assert_eq!(
        node,
        Node {
            query_node_name: None,
            instance_node_name: Some("n".to_string()),
            node_type: Some("T".to_string()),
            node_class: NodeClass::Property,
            value_bytes: Some(vec![1, 2]),
        }
    );
    assert_eq!(to_instance_node(&node), Some(message));
    assert_eq!(from_instance_node(node_message("n", 4)), None);
    assert_eq!(from_instance_node(node_message("n", -1)), None);
    assert_eq!(to_instance_node(&Node::object_query_node("q", "T")), None);
}

#[test]
fn updates_round_trip_on_the_wire() {
    let event = ProcessUpdateRequest {
        update: Some(UpdateMessage::Event(mbei::wire::EventMessage {
            event_id: "e".to_string(),
            instance_node_id: "n".to_string(),
            timestamp: 4,
            payload: vec![9],
        })),
    };
    let decoded = update_from_request(&event).unwrap();
    assert_eq!(
        decoded,
        Update::Event(Event {
            event_id: "e".to_string(),
            timestamp: 4,
            node_id: "n".to_string(),
            payload: vec![9],
        })
    );
    assert_eq!(request_from_update(&decoded), Some(event));

    let retractions = ProcessUpdateRequest {
        update: Some(UpdateMessage::Retractions(mbei::wire::RetractionsMessage {
            retraction_id: "r".to_string(),
            origin_timestamp: 5,
            delta_ids: vec!["a".to_string(), "b".to_string()],
        })),
    };
    let decoded = update_from_request(&retractions).unwrap();
    assert_eq!(
        decoded,
        Update::Retractions(Retractions {
            retraction_id: "r".to_string(),
            timestamp: 5,
            deltas_ids: vec!["a".to_string(), "b".to_string()],
        })
    );
    assert_eq!(request_from_update(&decoded), Some(retractions));

    let stop = ProcessUpdateRequest { update: Some(UpdateMessage::Stop) };
    assert_eq!(update_from_request(&stop), Some(Update::Stop));
    assert_eq!(request_from_update(&Update::Stop), Some(stop));
    assert_eq!(update_from_request(&ProcessUpdateRequest { update: None }), None);
}

#[test]
fn a_package_round_trips_where_its_deltas_are_in_order() {
    let in_order = ProcessUpdateRequest {
        update: Some(UpdateMessage::Deltas(DeltasMessage {
            deltas_id: "d".to_string(),
            origin_id: "o".to_string(),
            origin_timestamp: 1,
            deltas: vec![delta_message("a", 1, 0), delta_message("a", 2, 1), delta_message("b", 0, 0)],
        })),
    };
    let decoded = update_from_request(&in_order).unwrap();
    assert_eq!(request_from_update(&decoded), Some(in_order.clone()));

    let twice = ProcessUpdateRequest {
        update: Some(UpdateMessage::Deltas(DeltasMessage {
            deltas_id: "d".to_string(),
            origin_id: "o".to_string(),
            origin_timestamp: 1,
            deltas: vec![
                delta_message("b", 0, 0),
                delta_message("a", 2, 1),
                delta_message("a", 1, 0),
                delta_message("b", 0, 0),
            ],
        })),
    };
    assert_eq!(update_from_request(&twice), Some(decoded));
    assert_eq!(request_from_update(&update_from_request(&twice).unwrap()), Some(in_order));
}

#[test]
fn a_malformed_delta_gives_no_update() {
    let mut bad = delta_message("a", 1, 0);
    bad.delta_type = 2;
    assert_eq!(delta_vec_from_response(ApplicationResponse { deltas: vec![bad] }), None);
    let mut bad = delta_message("a", 1, 0);
    bad.src = None;
    let request = ProcessUpdateRequest {
        update: Some(UpdateMessage::Deltas(DeltasMessage {
            deltas_id: "d".to_string(),
            origin_id: "o".to_string(),
            origin_timestamp: 1,
            deltas: vec![delta_message("a", 1, 0), bad],
        })),
    };
    assert_eq!(update_from_request(&request), None);
    let good = delta_vec_from_response(ApplicationResponse {
        deltas: vec![delta_message("b", 1, 1), delta_message("a", 1, 0)],
    })
    .unwrap();
    assert_eq!(good.len(), 2);
    assert_eq!(good[0].delta_type, DeltaType::Removal);
    assert_eq!(good[1].src.instance_node_name, Some("a".to_string()));
}

#[test]
fn an_update_with_a_query_node_cannot_be_sent() {
    let delta = Delta {
        src: Node::material_query_node("b", "Barrel"),
        trg: Node::object_instance_node("o", "O"),
        edge_type: "At".to_string(),
        timestamp: 1,
        delta_type: DeltaType::Addition,
    };
    let update = Update::Deltas(Deltas {
        deltas_id: "d".to_string(),
        origin_id: "o".to_string(),
        origin_timestamp: 1,
        deltas: OrderedSet::from_vec(vec![delta]),
    });
    assert_eq!(request_from_update(&update), None);
}

#[test]
fn the_request_to_the_application_lists_the_mapped_edges() {
    let pattern = Edge::without_timestamp(
        Node::material_query_node("b", "Barrel"),
        Node::object_matched_query_node("p", "MyPlatform0", "Platform"),
        "At",
    );
    let unmapped = Edge::without_timestamp(
        Node::material_query_node("c", "Barrel"),
        Node::object_matched_query_node("p", "MyPlatform0", "Platform"),
        "At",
    );
    let image = Edge {
        src: Node::material_instance_node("MyBarrel0", "Barrel"),
        trg: Node::object_instance_node("MyPlatform0", "Platform"),
        edge_type: "At".to_string(),
        from_timestamp: Some(3),
        to_timestamp: None,
    };
    let mut homomorphism = OrderedMap::new();
    homomorphism.insert(pattern.clone(), Some(image.clone()));
    homomorphism.insert(unmapped.clone(), None);
    let grouped = GroupedQueryMatch { grouped_matches: vec![QueryMatch { homomorphism }] };
    let graph = Graph::from_edges(vec![pattern.clone(), unmapped]);
    let event = Event {
        event_id: "e".to_string(),
        timestamp: 4,
        node_id: "n".to_string(),
        payload: vec![],
    };
    let request = create_application_request(
        "q".to_string(),
        "a".to_string(),
        &grouped,
        &graph,
        &event,
    )
    .unwrap();
    assert_eq!(request.query_name, "q");
    assert_eq!(request.application_name, "a");
    assert_eq!(request.query_graph.len(), 2);
    assert_eq!(request.matches.len(), 1);
    assert_eq!(request.matches[0].tuples.len(), 1);
    let tuple = &request.matches[0].tuples[0];
    assert_eq!(tuple.src.as_ref().unwrap().src.as_ref().unwrap().query_node_name, "b");
    assert_eq!(tuple.trg.as_ref().unwrap().from_timestamp, 3);
    assert_eq!(tuple.trg.as_ref().unwrap().src.as_ref().unwrap().instance_node_id, "MyBarrel0");
    assert_eq!(request.event.as_ref().unwrap().instance_node_id, "n");

    let endless = Edge { from_timestamp: None, ..image };
    let mut homomorphism = OrderedMap::new();
    homomorphism.insert(pattern, Some(endless));
    let grouped = GroupedQueryMatch { grouped_matches: vec![QueryMatch { homomorphism }] };
    assert!(create_application_request("q".to_string(), "a".to_string(), &grouped, &graph, &event)
        .is_none());
}
