use mbei::event::{Deltas, Retractions, Update};
use mbei::factory_scenario_builder::complex_factory_scenario_builder;
use mbei::graph::{Delta, DeltaType, Node};
use mbei::ordered::{OrderedMap, OrderedSet};
use mbei::query::Query;
use mbei::router::{find_output_edges, fresh_ids, Outbound, Router};
use mbei::store::TopicNameAndDeltasId;

fn factory() -> OrderedMap<String, Query> {
    let scenario = complex_factory_scenario_builder(2);
    let mut all = OrderedMap::new();
    for q in scenario.all_queries() {
        all.insert(q.name.clone(), q);
    }
    all
}

fn barrel_type(barrel: &str, ts: u64) -> Delta {
    Delta {
        src: Node::material_instance_node(barrel, "Barrel"),
        trg: Node::property_instance_node(
            &format!("{}_barrel_type", barrel),
            "BarrelMaterialType",
            vec![1],
        ),
        edge_type: "HasMaterialType".to_string(),
        timestamp: ts,
        delta_type: DeltaType::Addition,
    }
}

#[test]
fn the_outputs_of_a_detector_feed_the_conveyor() {
    let all = factory();
    let detector = all.get(&"detector_matched_0".to_string()).unwrap();
    let conveyor = all.get(&"conveyor_matched_0".to_string()).unwrap();
    let crane = all.get(&"pickdrop_matched_0".to_string()).unwrap();
    let fed = find_output_edges(detector, conveyor);
    assert_eq!(fed.len(), 1);
    assert_eq!(fed[0].edge_type, "HasMaterialType");
    assert!(find_output_edges(detector, crane).is_empty());
    assert!(find_output_edges(detector, detector).is_empty());
}

#[test]
fn a_package_goes_to_central_and_to_each_target_under_its_own_id() {
    let all = factory();
    let router = Router::new("detector_matched_0".to_string(), &all, true);
    assert_eq!(router.reached_set.to_vec(), vec!["conveyor_matched_0".to_string()]);
    let deltas = Deltas {
        deltas_id: "p".to_string(),
        origin_id: "e".to_string(),
        origin_timestamp: 7,
        deltas: OrderedSet::from_vec(vec![barrel_type("b", 8)]),
    };
    assert_eq!(router.count_targets(&deltas), 1);
    assert!(router.route_deltas_update_with_ids(deltas.clone(), vec![]).is_none());
    let route = router
        .route_deltas_update_with_ids(deltas.clone(), vec!["id0".to_string(), "id1".to_string()])
        .unwrap();
    assert_eq!(route.internal_update, None);
    assert_eq!(
        route.bindings,
        vec![
            TopicNameAndDeltasId { topic_name: "central".to_string(), deltas_id: "p".to_string() },
            TopicNameAndDeltasId {
                topic_name: "conveyor_matched_0".to_string(),
                deltas_id: "id0".to_string()
            },
        ]
    );
    assert_eq!(
        route.outbound,
        vec![
            Outbound { topic: "central".to_string(), update: Update::Deltas(deltas.clone()) },
            Outbound {
                topic: "conveyor_matched_0".to_string(),
                update: Update::Deltas(Deltas { deltas_id: "id0".to_string(), ..deltas.clone() }),
            },
        ]
    );
    let fresh = router.route_deltas_update(deltas);
    assert_eq!(fresh.bindings.len(), 2);
    assert_eq!(fresh.bindings[1].deltas_id.len(), 36);
}

#[test]
fn a_delta_that_nobody_wants_goes_to_central_only() {
    let all = factory();
    let router = Router::new("detector_matched_0".to_string(), &all, true);
    let stray = Delta {
        src: Node::object_instance_node("a", "A"),
        trg: Node::object_instance_node("b", "B"),
        edge_type: "Near".to_string(),
        timestamp: 1,
        delta_type: DeltaType::Addition,
    };
    let deltas = Deltas {
        deltas_id: "p".to_string(),
        origin_id: "e".to_string(),
        origin_timestamp: 1,
        deltas: OrderedSet::from_vec(vec![stray]),
    };
    let route = router.route_deltas_update(deltas);
    assert_eq!(route.bindings.len(), 1);
    assert_eq!(route.outbound.len(), 1);
    assert_eq!(route.outbound[0].topic, "central");
}

#[test]
fn retractions_go_where_the_packages_went() {
    let all = factory();
    let router = Router::new("conveyor_matched_0".to_string(), &all, false);
    let bindings = vec![
        TopicNameAndDeltasId { topic_name: "central".to_string(), deltas_id: "a".to_string() },
        TopicNameAndDeltasId {
            topic_name: "conveyor_matched_0".to_string(),
            deltas_id: "b".to_string(),
        },
    ];
    let (own, sent) = router.route_retractions_with_ids(
        bindings,
        &9,
        vec!["r0".to_string(), "r1".to_string()],
    );
    assert_eq!(
        own,
        vec![Update::Retractions(Retractions {
            retraction_id: "r1".to_string(),
            timestamp: 9,
            deltas_ids: vec!["b".to_string()],
        })]
    );
    assert_eq!(
        sent,
        vec![Outbound {
            topic: "central".to_string(),
            update: Update::Retractions(Retractions {
                retraction_id: "r0".to_string(),
                timestamp: 9,
                deltas_ids: vec!["a".to_string()],
            }),
        }]
    );
}

#[test]
fn fresh_ids_are_hyphenated_and_differ() {
    let ids = fresh_ids(3);
    assert_eq!(ids.len(), 3);
    for id in &ids {
        assert_eq!(id.len(), 36);
        assert_eq!(id.matches('-').count(), 4);
    }
    assert_ne!(ids[0], ids[1]);
    assert_ne!(ids[1], ids[2]);
}

#[test]
fn a_router_of_an_unknown_query_forwards_nothing() {
    let all = factory();
    let router = Router::new("nobody".to_string(), &all, false);
    assert!(router.edge_forward_map.is_empty());
    assert!(router.reached_set.is_empty());
}

#[test]
fn a_router_connects_to_central_and_to_what_it_reaches() {
    let all = factory();
    let router = Router::new("detector_matched_0".to_string(), &all, false);
    assert!(router.connects_to(&"central".to_string()));
    assert!(router.connects_to(&"conveyor_matched_0".to_string()));
    assert!(!router.connects_to(&"pickdrop_matched_0".to_string()));
    assert!(!router.connects_to(&"detector_matched_0".to_string()));
}
