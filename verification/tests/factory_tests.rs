use mbei::applications::{
    ConveyorApplication, CraneApplication, CraneEvent, CraneEventType, DetectorApplication,
    StampApplication, StampEvent,
};
use mbei::complex_factory_scenario::ComplexFactoryScenarioSimulator;
use mbei::component::{Component, Step};
use mbei::event::{Event, Update};
use mbei::factory_scenario_builder::{
    barrels, complex_factory_scenario_builder, crane_pickdrops, cranes,
    create_simple_factory_scenario, matched_pickdrop_query, platforms, ramps,
};
use mbei::factory_scenario_common_updates::{send_to_topics, MessageCreator, TopicNameAndUpdate};
use mbei::graph::{Delta, DeltaType, Node};
use mbei::producer::package_of;
use mbei::ordered::OrderedMap;
use mbei::query::Query;
use mbei::simple_factory_scenario::SimpleFactoryScenarioSimulator;
use mbei::wire::{delta_vec_from_response, ApplicationRequest};
use std::collections::{BTreeMap, BTreeSet, VecDeque};

/// The components of a factory and its central store, in one process: what
/// a component sends is handed to the component that it is for.
struct Factory {
    components: BTreeMap<String, Component>,
    central: Vec<(String, Delta)>,
    retracted: BTreeSet<String>,
    calls: usize,
}

fn application(request: &ApplicationRequest) -> Vec<Delta> {
    let response = match request.application_name.as_str() {
        "pickdrop" => CraneApplication::new().crane_function(request),
        "stamp" => StampApplication::new().stamp_function(request),
        "conveyor" => ConveyorApplication::new().conveyor_function(request),
        "detector" => DetectorApplication::new().detector_function(request),
        name => panic!("no application {}", name),
    };
    delta_vec_from_response(response.expect("a request that the application can answer"))
        .expect("deltas that stand for edges")
}

impl Factory {
    fn new(queries: &Vec<Query>) -> Factory {
        let mut components = BTreeMap::new();
        for q in queries {
            let mut all = OrderedMap::new();
            for p in queries {
                all.insert(p.name.clone(), p.clone());
            }
            components.insert(q.name.clone(), Component::new(q.name.clone(), all, true).unwrap());
        }
        Factory { components, central: vec![], retracted: BTreeSet::new(), calls: 0 }
    }

    fn send(&mut self, topic: String, update: Update) {
        let mut queue = VecDeque::new();
        queue.push_back((topic, update));
        while let Some((topic, update)) = queue.pop_front() {
            if topic == "central" {
                self.store(update);
                continue;
            }
            let component = self.components.get_mut(&topic).expect("a topic of the factory");
            let mut progress = component.process_update_until_consistency(update);
            loop {
                for out in progress.outbound.drain(..) {
                    queue.push_back((out.topic, out.update));
                }
                match progress.step {
                    Step::Call(request) => {
                        self.calls += 1;
                        progress = component.resume(application(&request));
                    }
                    Step::Done(_) => break,
                    Step::Aborted(abort) => panic!("aborted: {:?}", abort),
                }
            }
        }
    }

    fn store(&mut self, update: Update) {
        match update {
            Update::Deltas(deltas) => {
                if !self.retracted.contains(&deltas.deltas_id) {
                    for d in deltas.deltas.to_vec() {
                        self.central.push((deltas.deltas_id.clone(), d));
                    }
                }
            }
            Update::Retractions(retractions) => {
                for id in retractions.deltas_ids {
                    self.central.retain(|(deltas_id, _)| *deltas_id != id);
                    self.retracted.insert(id);
                }
            }
            _ => {}
        }
    }

    fn all_deltas(&self) -> Vec<Delta> {
        let mut deltas: Vec<Delta> = self.central.iter().map(|(_, d)| d.clone()).collect();
        deltas.sort_by_key(key);
        deltas
    }
}

fn key(d: &Delta) -> (u64, String, String, String, i32) {
    (
        d.timestamp,
        d.src.instance_node_name.clone().unwrap(),
        d.trg.instance_node_name.clone().unwrap(),
        d.edge_type.clone(),
        d.delta_type.code(),
    )
}

fn run(
    factory: &mut Factory,
    simulator: &mut dyn MessageCreator,
    iterations: usize,
) -> (Vec<Delta>, usize) {
    let mut expected: Vec<Delta> = vec![];
    let mut messages = 0;
    for _ in 0..iterations {
        let (mut deltas, updates) = simulator
            .create_one_new_message(false, 100_000)
            .expect("something can happen in the factory");
        messages += updates.len();
        for TopicNameAndUpdate { topic_name, update } in updates {
            factory.send(topic_name, update);
        }
        expected.append(&mut deltas);
    }
    expected.sort_by_key(key);
    (expected, messages)
}

#[test]
fn test_stress_100_iterations_simple() {
    let scenario = create_simple_factory_scenario();
    let mut factory = Factory::new(&scenario.queries);
    let mut simulator = SimpleFactoryScenarioSimulator::new(scenario, 0, true);
    let (expected, messages) = run(&mut factory, &mut simulator, 100);
    assert!(messages >= 100);
    assert!(factory.calls > 0);
    assert_eq!(simulator.get_current_timestamp(), 300);
    assert_eq!(factory.all_deltas(), expected);
}

#[test]
fn test_stress_20_iterations_complex() {
    let scenario = complex_factory_scenario_builder(2);
    let mut factory = Factory::new(&scenario.all_queries());
    let mut simulator = ComplexFactoryScenarioSimulator::new(scenario, 0, true);
    let (expected, messages) = run(&mut factory, &mut simulator, 20);
    assert!(messages >= 20);
    assert_eq!(simulator.get_current_timestamp(), 60);
    assert_eq!(factory.all_deltas(), expected);
}

fn config_free_payload(instance_node_id: &str, crane_event_type: CraneEventType) -> Vec<u8> {
    CraneEvent { instance_node_id: instance_node_id.to_string(), crane_event_type }.encode()
}

fn crane_event(id: &str, ts: u64, pickdrop: &Node, at: &Node, what: CraneEventType) -> Event {
    Event {
        event_id: id.to_string(),
        timestamp: ts,
        node_id: pickdrop.instance_node_name.clone().unwrap(),
        payload: config_free_payload(at.instance_node_name.as_ref().unwrap(), what),
    }
}

fn at(barrel: &Node, place: &Node, ts: u64, delta_type: DeltaType) -> Delta {
    Delta {
        src: barrel.clone(),
        trg: place.clone(),
        edge_type: "At".to_string(),
        timestamp: ts,
        delta_type,
    }
}

impl Factory {
    fn send_deltas_now(&mut self, deltas_id: &str, topic_name: &str, deltas: Vec<Delta>) {
        let update = package_of(deltas_id, deltas).unwrap();
        for m in send_to_topics(&update, &vec![topic_name.to_string()], true) {
            self.send(m.topic_name, m.update);
        }
    }

    fn send_event_now(&mut self, topic_name: &str, event: Event) {
        self.send(topic_name.to_string(), Update::Event(event));
    }

    fn stored(&self) -> BTreeSet<(u64, String, String, String, i32)> {
        self.central.iter().map(|(_, d)| key(d)).collect()
    }
}

fn keys(deltas: &Vec<Delta>) -> BTreeSet<(u64, String, String, String, i32)> {
    deltas.iter().map(key).collect()
}

struct SingleCrane {
    factory: Factory,
    crane: Node,
    pickdrop: Node,
    platform: Node,
    ramp: Node,
}

fn single_crane() -> SingleCrane {
    let crane = cranes(1).pop().unwrap();
    let pickdrop = crane_pickdrops(1).pop().unwrap();
    let ramp = ramps(1).pop().unwrap();
    let platform = platforms(1).pop().unwrap();
    let matched_query = matched_pickdrop_query(
        crane.clone(),
        pickdrop.clone(),
        vec![ramp.clone(), platform.clone(), ramp.clone()],
        "_matched",
    );
    assert_eq!(matched_query.name, "pickdrop_matched");
    SingleCrane { factory: Factory::new(&vec![matched_query]), crane, pickdrop, platform, ramp }
}

#[test]
fn test_simple_delta_and_event() {
    let mut f = single_crane();
    let my_barrel = barrels(1).pop().unwrap();
    let my_barrel_at_my_platform = at(&my_barrel, &f.platform, 1, DeltaType::Addition);
    let pickup = crane_event("myevent", 3, &f.pickdrop, &f.platform, CraneEventType::PickUp);
    f.factory.send_deltas_now("mydelta", "pickdrop_matched", vec![my_barrel_at_my_platform.clone()]);
    f.factory.send_event_now("pickdrop_matched", pickup);
    let expected_deltas = vec![
        my_barrel_at_my_platform,
        at(&my_barrel, &f.platform, 3, DeltaType::Removal),
        at(&my_barrel, &f.crane, 4, DeltaType::Addition),
    ];
    assert_eq!(f.factory.central.len(), expected_deltas.len());
    assert_eq!(f.factory.stored(), keys(&expected_deltas));
}

#[test]
fn test_simple_delta_and_event_and_distractor() {
    let mut f = single_crane();
    let mut the_barrels = barrels(2);
    let my_barrel = the_barrels.pop().unwrap();
    let my_other_barrel = the_barrels.pop().unwrap();
    let my_barrel_at_my_platform = at(&my_barrel, &f.platform, 1, DeltaType::Addition);
    let my_other_barrel_at_my_ramp = at(&my_other_barrel, &f.ramp, 1, DeltaType::Addition);
    let pickup = crane_event("myevent", 3, &f.pickdrop, &f.platform, CraneEventType::PickUp);
    f.factory.send_deltas_now(
        "mydelta",
        "pickdrop_matched",
        vec![my_barrel_at_my_platform.clone(), my_other_barrel_at_my_ramp.clone()],
    );
    f.factory.send_event_now("pickdrop_matched", pickup);
    let expected_deltas = vec![
        my_barrel_at_my_platform,
        my_other_barrel_at_my_ramp,
        at(&my_barrel, &f.platform, 3, DeltaType::Removal),
        at(&my_barrel, &f.crane, 4, DeltaType::Addition),
    ];
    assert_eq!(f.factory.central.len(), expected_deltas.len());
    assert_eq!(f.factory.stored(), keys(&expected_deltas));
}

#[test]
fn test_out_of_sequence_reprocessing() {
    let mut f = single_crane();
    let mut the_barrels = barrels(2);
    let my_barrel = the_barrels.pop().unwrap();
    let my_other_barrel = the_barrels.pop().unwrap();
    let my_barrel_at_my_platform = at(&my_barrel, &f.platform, 2, DeltaType::Addition);
    let my_other_barrel_at_my_platform = at(&my_other_barrel, &f.platform, 0, DeltaType::Addition);
    let pickup = crane_event("myevent", 1, &f.pickdrop, &f.platform, CraneEventType::PickUp);
    f.factory.send_deltas_now("mydelta", "pickdrop_matched", vec![my_barrel_at_my_platform.clone()]);
    f.factory.send_event_now("pickdrop_matched", pickup);
    f.factory.send_deltas_now(
        "my_other_delta",
        "pickdrop_matched",
        vec![my_other_barrel_at_my_platform.clone()],
    );
    let expected_deltas = vec![
        my_barrel_at_my_platform,
        my_other_barrel_at_my_platform,
        at(&my_other_barrel, &f.platform, 1, DeltaType::Removal),
        at(&my_other_barrel, &f.crane, 2, DeltaType::Addition),
    ];
    assert_eq!(f.factory.central.len(), expected_deltas.len());
    assert_eq!(f.factory.stored(), keys(&expected_deltas));
}

#[test]
fn test_out_of_sequence_retraction() {
    let mut f = single_crane();
    let my_barrel = barrels(1).pop().unwrap();
    let my_barrel_at_my_platform = at(&my_barrel, &f.platform, 0, DeltaType::Addition);
    let pickup = crane_event("myevent", 3, &f.pickdrop, &f.platform, CraneEventType::PickUp);
    let my_barrel_not_at_my_platform = at(&my_barrel, &f.platform, 2, DeltaType::Removal);
    f.factory.send_deltas_now("mydelta", "pickdrop_matched", vec![my_barrel_at_my_platform.clone()]);
    f.factory.send_event_now("pickdrop_matched", pickup);
    assert_eq!(f.factory.central.len(), 3);
    f.factory.send_deltas_now(
        "my_other_delta",
        "pickdrop_matched",
        vec![my_barrel_not_at_my_platform.clone()],
    );
    let expected_deltas = vec![my_barrel_at_my_platform, my_barrel_not_at_my_platform];
    assert_eq!(f.factory.central.len(), expected_deltas.len());
    assert_eq!(f.factory.stored(), keys(&expected_deltas));
    assert_eq!(f.factory.retracted.len(), 1);
}

#[test]
fn test_back_and_forth() {
    let mut f = single_crane();
    let my_barrel = barrels(1).pop().unwrap();
    let my_barrel_at_my_platform = at(&my_barrel, &f.platform, 1, DeltaType::Addition);
    let pickup = crane_event("my_first_event", 3, &f.pickdrop, &f.platform, CraneEventType::PickUp);
    let drop = crane_event("my_second_event", 5, &f.pickdrop, &f.platform, CraneEventType::Drop);
    f.factory.send_deltas_now("mydelta", "pickdrop_matched", vec![my_barrel_at_my_platform.clone()]);
    f.factory.send_event_now("pickdrop_matched", pickup);
    f.factory.send_event_now("pickdrop_matched", drop);
    let expected_deltas = vec![
        my_barrel_at_my_platform,
        at(&my_barrel, &f.platform, 3, DeltaType::Removal),
        at(&my_barrel, &f.crane, 4, DeltaType::Addition),
        at(&my_barrel, &f.crane, 5, DeltaType::Removal),
        at(&my_barrel, &f.platform, 6, DeltaType::Addition),
    ];
    assert_eq!(f.factory.central.len(), expected_deltas.len());
    assert_eq!(f.factory.stored(), keys(&expected_deltas));
}

#[test]
fn test_one_barrel_through_process() {
    let scenario = create_simple_factory_scenario();
    let mut factory = Factory::new(&scenario.queries);
    let my_barrel = barrels(1).pop().unwrap();
    let my_ramp = &scenario.ramps[0];
    let left_pickdrop = &scenario.crane_pickdrops[0];
    let right_pickdrop = &scenario.crane_pickdrops[1];
    let middle_platform = &scenario.platforms[1];
    let left_crane = &scenario.cranes[0];
    let right_crane = &scenario.cranes[1];
    let middle_stamp = &scenario.stamps[1];
    let middle_stamp_assembly = &scenario.stamp_assemblies[1];
    let my_barrel_at_middle_platform = at(&my_barrel, middle_platform, 1, DeltaType::Addition);
    let put_stamp = Event {
        event_id: "stamp_at_midstamp".to_string(),
        timestamp: 4,
        node_id: middle_stamp.instance_node_name.clone().unwrap(),
        payload: StampEvent { stamp_data: "MyStampData".to_string() }.encode(),
    };
    let left_pickdrop_name = scenario.queries[0].name.clone();
    let right_pickdrop_name = scenario.queries[1].name.clone();
    let middle_stamp_name = scenario.queries[3].name.clone();
    factory.send_deltas_now(
        "barrel_at_midplat",
        &right_pickdrop_name,
        vec![my_barrel_at_middle_platform.clone()],
    );
    factory.send_event_now(
        &right_pickdrop_name,
        crane_event("pickup_at_midplat", 2, right_pickdrop, middle_platform, CraneEventType::PickUp),
    );
    factory.send_event_now(
        &right_pickdrop_name,
        crane_event("drop_at_midstamp", 3, right_pickdrop, middle_stamp_assembly, CraneEventType::Drop),
    );
    factory.send_event_now(&middle_stamp_name, put_stamp);
    factory.send_event_now(
        &left_pickdrop_name,
        crane_event("pickup_from_midstamp", 6, left_pickdrop, middle_stamp_assembly, CraneEventType::PickUp),
    );
    factory.send_event_now(
        &left_pickdrop_name,
        crane_event("drop_at_ramp", 8, left_pickdrop, my_ramp, CraneEventType::Drop),
    );
    let mut expected_deltas = vec![
        my_barrel_at_middle_platform,
        at(&my_barrel, middle_platform, 2, DeltaType::Removal),
        at(&my_barrel, right_crane, 3, DeltaType::Addition),
        at(&my_barrel, right_crane, 3, DeltaType::Removal),
        at(&my_barrel, middle_stamp_assembly, 4, DeltaType::Addition),
        Delta {
            src: my_barrel.clone(),
            trg: Node::property_instance_node(
                "MyBarrel0_Stamp_4",
                "StampData",
                vec![11, 77, 121, 83, 116, 97, 109, 112, 68, 97, 116, 97],
            ),
            edge_type: "HasStampData".to_string(),
            timestamp: 4,
            delta_type: DeltaType::Addition,
        },
        at(&my_barrel, middle_stamp_assembly, 6, DeltaType::Removal),
        at(&my_barrel, left_crane, 7, DeltaType::Addition),
        at(&my_barrel, left_crane, 8, DeltaType::Removal),
        at(&my_barrel, my_ramp, 9, DeltaType::Addition),
    ];
    expected_deltas.sort_by_key(key);
    assert_eq!(factory.all_deltas(), expected_deltas);
}

#[test]
fn test_throttled_1000_iterations_complex() {
    let scenario = complex_factory_scenario_builder(4);
    let mut factory = Factory::new(&scenario.all_queries());
    let mut simulator = ComplexFactoryScenarioSimulator::new(scenario, 0, true);
    let (expected, messages) = run(&mut factory, &mut simulator, 1000);
    assert!(messages >= 1000);
    assert_eq!(factory.all_deltas(), expected);
}
