use mbei::component::{Abort, Component, Progress, Step};
use mbei::event::{Deltas, Event, Retractions, Update};
use mbei::factory_scenario_builder::{matched_detector_query, matched_pickdrop_query};
use mbei::graph::{Delta, DeltaType, Edge, Node};
use mbei::order::Value;
use mbei::ordered::{OrderedMap, OrderedSet};
use mbei::query::Query;
use mbei::router::Outbound;
use mbei::wire::{delta_vec_from_response, ApplicationRequest, ApplicationResponse, DeltaMessage};

fn crane() -> Node {
    Node::object_instance_node("MyCrane0", "Crane")
}

fn platform() -> Node {
    Node::object_instance_node("MyPlatform0", "Platform")
}

fn barrel(name: &str) -> Node {
    Node::material_instance_node(name, "Barrel")
}

fn pickdrop_component(use_central: bool) -> Component {
    let query = matched_pickdrop_query(
        crane(),
        Node::event_instance_node("MyCrane0.PickDrop", "PickDrop"),
        vec![platform(), Node::object_instance_node("MyRamp0", "Ramp")],
        "_matched",
    );
    component_of(query, use_central)
}

fn component_of(query: Query, use_central: bool) -> Component {
    let name = query.name.clone();
    let mut all = OrderedMap::new();
    all.insert(name.clone(), query);
    Component::new(name, all, use_central).unwrap()
}

fn at(src: Node, trg: Node, timestamp: u64, delta_type: DeltaType) -> Delta {
    Delta { src, trg, edge_type: "At".to_string(), timestamp, delta_type }
}

fn package(id: &str, origin: &str, ts: u64, deltas: Vec<Delta>) -> Update {
    Update::Deltas(Deltas {
        deltas_id: id.to_string(),
        origin_id: origin.to_string(),
        origin_timestamp: ts,
        deltas: OrderedSet::from_vec(deltas),
    })
}

fn pick_up(id: &str, ts: u64, at_node: &str) -> Update {
    Update::Event(Event {
        event_id: id.to_string(),
        timestamp: ts,
        node_id: "MyCrane0.PickDrop".to_string(),
        payload: at_node.as_bytes().to_vec(),
    })
}

/// The crane picks up the barrel that has been longest at the node that the
/// payload of the event names: the barrel leaves the node at the time of the
/// event and is at the crane one tick later.
fn crane_application(request: &ApplicationRequest) -> Vec<Delta> {
    let event = request.event.as_ref().unwrap();
    let at_node = String::from_utf8(event.payload.clone()).unwrap();
    let crane_node = request
        .query_graph
        .iter()
        .map(|e| e.src.as_ref().unwrap())
        .find(|n| n.node_type.as_ref().map(|t| t.s.as_str()) == Some("Crane"))
        .unwrap();
    let mut found = None;
    for m in &request.matches {
        for tuple in &m.tuples {
            let image = tuple.trg.as_ref().unwrap();
            if image.trg.as_ref().unwrap().instance_node_id == at_node {
                found = Some(image);
            }
        }
    }
    let image = match found {
        Some(image) => image,
        None => return vec![],
    };
    let crane_instance = mbei::wire::InstanceNode {
        instance_node_id: crane_node.instance_node_id.as_ref().unwrap().s.clone(),
        node_type: crane_node.node_type.as_ref().unwrap().s.clone(),
        node_class: crane_node.node_class,
        value: None,
    };
    let response = ApplicationResponse {
        deltas: vec![
            DeltaMessage {
                src: image.src.clone(),
                trg: image.trg.clone(),
                edge_type: image.edge_type.clone(),
                timestamp: event.timestamp,
                delta_type: 1,
            },
            DeltaMessage {
                src: image.src.clone(),
                trg: Some(crane_instance),
                edge_type: image.edge_type.clone(),
                timestamp: event.timestamp + 1,
                delta_type: 0,
            },
        ],
    };
    delta_vec_from_response(response).unwrap()
}

struct Run {
    outbound: Vec<Outbound>,
    calls: usize,
    step: Step,
}

fn run(
    component: &mut Component,
    update: Update,
    application: &dyn Fn(&ApplicationRequest) -> Vec<Delta>,
) -> Run {
    let mut outbound = vec![];
    let mut calls = 0;
    let mut progress: Progress = component.process_update_until_consistency(update);
    loop {
        outbound.append(&mut progress.outbound);
        match progress.step {
            Step::Call(request) => {
                calls += 1;
                progress = component.resume(application(&request));
            }
            step => return Run { outbound, calls, step },
        }
    }
}

fn sent_deltas(outbound: &Vec<Outbound>, topic: &str) -> Vec<Vec<Delta>> {
    outbound
        .iter()
        .filter(|o| o.topic == topic)
        .filter_map(|o| match &o.update {
            Update::Deltas(d) => Some(d.deltas.to_vec()),
            _ => None,
        })
        .collect()
}

fn sent_retractions(outbound: &Vec<Outbound>, topic: &str) -> Vec<Vec<String>> {
    outbound
        .iter()
        .filter(|o| o.topic == topic)
        .filter_map(|o| match &o.update {
            Update::Retractions(r) => Some(r.deltas_ids.clone()),
            _ => None,
        })
        .collect()
}

#[test]
fn an_event_in_an_empty_store_matches_nothing() {
    let mut component = pickdrop_component(true);
    let done = run(&mut component, pick_up("e", 10, "MyPlatform0"), &crane_application);
    assert!(matches!(done.step, Step::Done(_)));
    assert_eq!(done.calls, 0);
    assert!(done.outbound.is_empty());
    assert!(component.is_idle());
    let event = component.store().get_event_by_event_id(&"e".to_string()).unwrap();
    assert_eq!(event.timestamp, 10);
    assert_eq!(component.store().get_event_ids_in_interval(10, Some(10)), vec!["e".to_string()]);
}

#[test]
fn a_delta_and_then_an_event_give_output() {
    let mut component = pickdrop_component(true);
    let d1 = package("d1", "o1", 0, vec![at(barrel("b"), platform(), 0, DeltaType::Addition)]);
    let first = run(&mut component, d1, &crane_application);
    assert!(matches!(first.step, Step::Done(_)));
    assert!(first.outbound.is_empty());

    let second = run(&mut component, pick_up("e", 3, "MyPlatform0"), &crane_application);
    assert_eq!(second.calls, 1);
    match &second.step {
        Step::Done(summary) => {
            assert_eq!(summary.counters.n_events, 1);
            assert_eq!(summary.counters.n_deltas, 1);
            assert_eq!(summary.open_edges, 1);
        }
        other => panic!("{:?}", other),
    }
    let expected = vec![
        at(barrel("b"), crane(), 4, DeltaType::Addition),
        at(barrel("b"), platform(), 3, DeltaType::Removal),
    ];
    assert_eq!(sent_deltas(&second.outbound, "central"), vec![expected.clone()]);
    assert_eq!(second.outbound.len(), 1);
    // the package has come back to the component itself: the barrel is at the crane
    assert_eq!(
        component.store().get_edges_at_timestamp(4),
        vec![Edge {
            src: barrel("b"),
            trg: crane(),
            edge_type: "At".to_string(),
            from_timestamp: Some(4),
            to_timestamp: None,
        }]
    );
    assert_eq!(
        component.store().get_edges_at_timestamp(2),
        vec![Edge {
            src: barrel("b"),
            trg: platform(),
            edge_type: "At".to_string(),
            from_timestamp: Some(0),
            to_timestamp: Some(3),
        }]
    );
}

#[test]
fn without_a_central_store_nothing_goes_there() {
    let mut component = pickdrop_component(false);
    let d1 = package("d1", "o1", 0, vec![at(barrel("b"), platform(), 0, DeltaType::Addition)]);
    run(&mut component, d1, &crane_application);
    let second = run(&mut component, pick_up("e", 3, "MyPlatform0"), &crane_application);
    assert_eq!(second.calls, 1);
    assert!(second.outbound.is_empty());
    assert_eq!(component.store().get_edges_at_timestamp(4).len(), 1);
}

#[test]
fn a_delta_that_comes_late_is_seen_by_the_event() {
    let mut component = pickdrop_component(true);
    let d1 = package("d1", "o1", 2, vec![at(barrel("b0"), platform(), 2, DeltaType::Addition)]);
    run(&mut component, d1, &crane_application);
    let event = run(&mut component, pick_up("e", 1, "MyPlatform0"), &crane_application);
    assert_eq!(event.calls, 0);
    assert!(event.outbound.is_empty());
    let d2 = package("d2", "o2", 0, vec![at(barrel("b1"), platform(), 0, DeltaType::Addition)]);
    let late = run(&mut component, d2, &crane_application);
    assert_eq!(late.calls, 1);
    match &late.step {
        Step::Done(summary) => assert!(summary.counters.n_reprocessing >= 1),
        other => panic!("{:?}", other),
    }
    assert_eq!(
        sent_deltas(&late.outbound, "central"),
        vec![vec![
            at(barrel("b1"), crane(), 2, DeltaType::Addition),
            at(barrel("b1"), platform(), 1, DeltaType::Removal),
        ]]
    );
}

#[test]
fn a_retraction_takes_the_output_back() {
    let mut component = pickdrop_component(true);
    let d1 = package("d1", "o1", 0, vec![at(barrel("b"), platform(), 0, DeltaType::Addition)]);
    run(&mut component, d1, &crane_application);
    let second = run(&mut component, pick_up("e", 3, "MyPlatform0"), &crane_application);
    let package_id = match &second.outbound[0].update {
        Update::Deltas(d) => d.deltas_id.clone(),
        other => panic!("{:?}", other),
    };
    let retraction = Update::Retractions(Retractions {
        retraction_id: "r".to_string(),
        timestamp: 5,
        deltas_ids: vec!["d1".to_string()],
    });
    let third = run(&mut component, retraction, &crane_application);
    assert!(matches!(third.step, Step::Done(_)));
    assert_eq!(third.calls, 0);
    assert_eq!(sent_retractions(&third.outbound, "central"), vec![vec![package_id]]);
    assert!(sent_deltas(&third.outbound, "central").is_empty());
    assert!(component.store().is_update_rectracted("d1"));
    assert!(component.store().get_deltas_by_deltas_ids(&vec!["d1".to_string()]).is_empty());
    for t in 0..6 {
        assert_eq!(component.store().get_edges_at_timestamp(t), Vec::<Edge>::new());
    }
    assert!(component.store().get_event_output_hash_by_match_hash("e").is_empty());

    // a package that comes later under the retracted id, or from it, is ignored
    let again = package("d1", "o1", 0, vec![at(barrel("b"), platform(), 0, DeltaType::Addition)]);
    let ignored = run(&mut component, again, &crane_application);
    match &ignored.step {
        Step::Done(summary) => {
            assert_eq!(
                (
                    summary.counters.n_deltas,
                    summary.counters.n_events,
                    summary.counters.n_retractions,
                    summary.counters.n_reprocessing
                ),
                (0, 0, 0, 0)
            );
            assert_eq!(summary.open_edges, component.store().count_open_edges());
        }
        other => panic!("{:?}", other),
    }
    assert!(ignored.outbound.is_empty());
    let from_it = package("d9", "d1", 0, vec![at(barrel("b"), platform(), 0, DeltaType::Addition)]);
    let ignored = run(&mut component, from_it, &crane_application);
    assert!(ignored.outbound.is_empty());
    assert_eq!(component.store().get_edges_at_timestamp(1), Vec::<Edge>::new());
}

#[test]
fn processing_an_event_again_gives_nothing_new() {
    let mut component = pickdrop_component(true);
    let d1 = package("d1", "o1", 0, vec![at(barrel("b"), platform(), 0, DeltaType::Addition)]);
    run(&mut component, d1, &crane_application);
    let first = run(&mut component, pick_up("e", 0, "MyRamp0"), &crane_application);
    assert_eq!(first.calls, 1);
    assert!(first.outbound.is_empty());
    let outputs = component.store().get_event_output_hash_by_match_hash("e");
    assert_eq!(outputs.len(), 1);
    assert_eq!(*outputs.value_at(0), None);
    let again = run(&mut component, pick_up("e", 0, "MyRamp0"), &crane_application);
    assert_eq!(again.calls, 0);
    assert!(again.outbound.is_empty());
    assert_eq!(component.store().get_event_output_hash_by_match_hash("e"), outputs);
}

fn detector_component() -> Component {
    component_of(
        matched_detector_query(
            platform(),
            Node::event_instance_node("MyDetector0", "Detector"),
            "_matched",
        ),
        true,
    )
}

/// Whatever barrel is on the platform, the detector says the same.
fn constant_application(request: &ApplicationRequest) -> Vec<Delta> {
    let event = request.event.as_ref().unwrap();
    vec![Delta {
        src: barrel("b"),
        trg: Node::property_instance_node("b_barrel_type", "BarrelMaterialType", vec![1]),
        edge_type: "HasMaterialType".to_string(),
        timestamp: event.timestamp + 1,
        delta_type: DeltaType::Addition,
    }]
}

fn detection(id: &str, ts: u64) -> Update {
    Update::Event(Event {
        event_id: id.to_string(),
        timestamp: ts,
        node_id: "MyDetector0".to_string(),
        payload: vec![],
    })
}

#[test]
fn a_match_with_the_output_of_a_former_match_takes_its_packages_over() {
    let mut component = detector_component();
    let d1 = package("d1", "o1", 0, vec![at(barrel("b0"), platform(), 0, DeltaType::Addition)]);
    run(&mut component, d1, &constant_application);
    let first = run(&mut component, detection("e", 5), &constant_application);
    assert_eq!(first.calls, 1);
    assert_eq!(sent_deltas(&first.outbound, "central").len(), 1);
    let before = component.store().get_event_output_hash_by_match_hash("e");
    assert_eq!(before.len(), 1);
    let old_hash = *before.key_at(0);
    let output_hash = *before.value_at(0);
    assert!(output_hash.is_some());
    let bindings =
        component.store().get_deltas_ids_for_event_id_and_match_hash("e", &old_hash).unwrap();
    assert_eq!(bindings.len(), 1);
    assert_eq!(bindings[0].topic_name, "central");

    let d2 = package(
        "d2",
        "o2",
        1,
        vec![
            at(barrel("b0"), platform(), 3, DeltaType::Removal),
            at(barrel("b1"), platform(), 1, DeltaType::Addition),
        ],
    );
    let second = run(&mut component, d2, &constant_application);
    assert_eq!(second.calls, 1);
    assert!(second.outbound.is_empty());
    let after = component.store().get_event_output_hash_by_match_hash("e");
    assert_eq!(after.len(), 1);
    let new_hash = *after.key_at(0);
    assert_ne!(new_hash, old_hash);
    assert_eq!(*after.value_at(0), output_hash);
    assert!(component
        .store()
        .get_deltas_ids_for_event_id_and_match_hash("e", &old_hash)
        .is_none());
    assert_eq!(
        component.store().get_deltas_ids_for_event_id_and_match_hash("e", &new_hash).unwrap(),
        bindings
    );
}

#[test]
fn the_loop_takes_one_update_at_a_time() {
    let mut component = pickdrop_component(false);
    let d1 = package("d1", "o1", 0, vec![at(barrel("b"), platform(), 0, DeltaType::Addition)]);
    run(&mut component, d1, &crane_application);
    let waiting = component.process_update_until_consistency(pick_up("e", 3, "MyPlatform0"));
    assert!(matches!(waiting.step, Step::Call(_)));
    assert!(component.is_waiting());
    let busy = component.process_update_until_consistency(pick_up("f", 4, "MyPlatform0"));
    assert_eq!(busy.step, Step::Aborted(Abort::Busy));
    assert!(component.is_waiting());
    let done = component.resume(vec![]);
    assert!(matches!(done.step, Step::Done(_)));
    assert!(component.is_idle());
    let nothing = component.resume(vec![]);
    assert_eq!(nothing.step, Step::Aborted(Abort::NotWaiting));
    assert!(component.store().get_event_by_event_id(&"f".to_string()).is_none());
}

#[test]
fn a_component_needs_its_query() {
    let query = matched_detector_query(platform(), Node::event_instance_node("d", "D"), "_m");
    let mut all = OrderedMap::new();
    all.insert(query.name.clone(), query.dup());
    assert!(Component::new("someone else".to_string(), all.clone(), true).is_none());
    let component = Component::new(query.name.clone(), all, false).unwrap();
    assert_eq!(component.query(), &query);
    assert_eq!(component.router().query_name, query.name);
    assert!(component.is_idle());
}

#[test]
fn the_loop_can_be_run_step_by_step() {
    let mut component = pickdrop_component(false);
    let d1 = package("d1", "o1", 0, vec![at(barrel("b"), platform(), 0, DeltaType::Addition)]);
    assert!(matches!(run(&mut component, d1, &crane_application).step, Step::Done(_)));
    let asked = component.process_update_until_consistency(pick_up("e", 3, "MyPlatform0"));
    let request = match asked.step {
        Step::Call(request) => request,
        other => panic!("{:?}", other),
    };
    assert!(component.is_waiting());
    // asking again changes nothing
    let mut outbound = vec![];
    assert_eq!(component.advance(&mut outbound), Some(Step::Call(request.clone())));
    assert!(outbound.is_empty());
    assert!(component.is_waiting());
    // an empty answer is recorded; the event is finished in the next step,
    // and with nothing left to do the run is done in the one after
    let progress = component.resume(vec![]);
    assert!(matches!(progress.step, Step::Done(_)));
    assert!(progress.outbound.is_empty());
    assert!(component.is_idle());
    assert_eq!(request.application_name, "pickdrop");
    assert_eq!(request.event.unwrap().event_id, "e");
}

#[test]
fn an_answer_is_recorded_and_the_loop_goes_on_step_by_step() {
    let mut component = pickdrop_component(true);
    let d1 = package("d1", "o1", 0, vec![at(barrel("b"), platform(), 0, DeltaType::Addition)]);
    assert!(matches!(run(&mut component, d1, &crane_application).step, Step::Done(_)));
    let asked = component.process_update_until_consistency(pick_up("e", 3, "MyPlatform0"));
    let request = match asked.step {
        Step::Call(request) => request,
        other => panic!("{:?}", other),
    };
    let mut outbound = vec![];
    component.record(crane_application(&request), &mut outbound);
    // the one package of the answer goes to central; what is for the
    // component itself waits
    assert_eq!(outbound.len(), 1);
    assert_eq!(outbound[0].topic, "central");
    match &outbound[0].update {
        Update::Deltas(d) => {
            assert_eq!(d.origin_id, "e");
            assert_eq!(d.origin_timestamp, 3);
            assert_eq!(
                d.deltas.to_vec(),
                vec![
                    at(barrel("b"), crane(), 4, DeltaType::Addition),
                    at(barrel("b"), platform(), 3, DeltaType::Removal),
                ]
            );
        }
        other => panic!("{:?}", other),
    }
    assert!(!component.is_waiting() && !component.is_idle());
    let mut steps = 0;
    let done = loop {
        steps += 1;
        if let Some(step) = component.advance(&mut outbound) {
            break step;
        }
    };
    assert!(matches!(done, Step::Done(_)));
    assert!(steps > 1);
    assert_eq!(outbound.len(), 1);
    assert!(component.is_idle());
    assert_eq!(component.store().get_edges_at_timestamp(4).len(), 1);
}
