use mbei::applications::{BarrelMaterialType, CraneEvent, CraneEventType};
use mbei::complex_factory_scenario::ComplexFactoryScenarioSimulator;
use mbei::event::{Deltas, Event, Update};
use mbei::factory_scenario_builder::{
    complex_factory_scenario_builder, create_simple_factory_scenario,
};
use mbei::factory_scenario_common_updates::{
    create_objects_surrounding_crane_map, create_single_delta_update, create_topic_names_map,
    new_barrel, send_to_topics, single_delta_update, Floor, Link, MessageCreator,
    TopicNameAndUpdate,
};
use mbei::graph::{Delta, DeltaType, Node};
use mbei::ordered::OrderedSet;
use mbei::simple_factory_scenario::SimpleFactoryScenarioSimulator;

fn ids() -> Vec<String> {
    vec!["a".to_string(), "b".to_string(), "c".to_string()]
}

fn simple_floor() -> Floor {
    let scenario = create_simple_factory_scenario();
    let mut at_candidates = scenario.platforms.clone();
    at_candidates.extend(scenario.stamp_assemblies.clone());
    at_candidates.extend(scenario.crane_pickdrops.clone());
    at_candidates.extend(scenario.ramps.clone());
    Floor::new(at_candidates, &vec![], &scenario.queries, 10, true, false)
}

fn at(barrel: &Node, place: &Node, ts: u64, delta_type: DeltaType) -> Delta {
    Delta {
        src: barrel.clone(),
        trg: place.clone(),
        edge_type: "At".to_string(),
        timestamp: ts,
        delta_type,
    }
}

fn single(id: &str, delta: Delta) -> Update {
    Update::Deltas(Deltas {
        deltas_id: id.to_string(),
        origin_id: id.to_string(),
        origin_timestamp: delta.timestamp,
        deltas: OrderedSet::from_vec(vec![delta]),
    })
}

#[test]
fn the_floor_knows_what_the_patterns_tell() {
    let scenario = create_simple_factory_scenario();
    let crane0 = Node::object_instance_node("MyCrane0", "Crane");
    let pickdrop0 = Node::event_instance_node("MyCrane0.PickDrop", "PickDrop");
    let cranes = Link::CraneOfPickdrop.of_queries(&scenario.queries);
    assert_eq!(cranes.len(), 2);
    assert_eq!(cranes.get(&pickdrop0), Some(&crane0));
    let assemblies = Link::AssemblyOfStamp.of_queries(&scenario.queries);
    assert_eq!(assemblies.len(), 3);
    assert_eq!(
        assemblies.get(&Node::event_instance_node("MyStamp2", "Stamp")),
        Some(&Node::object_instance_node("MyStampAssembly2", "StampAssembly"))
    );
    assert!(Link::MetalRampOfConveyor.of_queries(&scenario.queries).is_empty());
    let around = create_objects_surrounding_crane_map(&scenario.queries);
    assert_eq!(
        around.get(&crane0),
        Some(&vec![
            scenario.platforms[0].clone(),
            scenario.platforms[1].clone(),
            scenario.ramps[0].clone(),
            scenario.stamp_assemblies[0].clone(),
            scenario.stamp_assemblies[1].clone(),
        ])
    );
    let topics = create_topic_names_map(
        &vec![scenario.platforms[1].clone(), scenario.stamps[0].clone(), crane0.clone()],
        &scenario.queries,
    );
    assert_eq!(
        topics.get(&scenario.platforms[1]),
        Some(&vec!["pickdrop_matched_1".to_string(), "pickdrop_matched_2".to_string()])
    );
    assert_eq!(topics.get(&scenario.stamps[0]), Some(&vec!["stamp_matched_1".to_string()]));
    assert_eq!(topics.get(&scenario.platforms[0]), None);

    let complex = complex_factory_scenario_builder(2);
    let queries = complex.all_queries();
    let metal = Link::MetalRampOfConveyor.of_queries(&queries);
    assert_eq!(metal.get(&complex.conveyors[0]), Some(&complex.metal_ramps[0]));
    let plastic = Link::PlasticRampOfConveyor.of_queries(&queries);
    assert_eq!(plastic.get(&complex.conveyors[0]), Some(&complex.plastic_ramps[0]));
    let conveyors = Link::ConveyorOfEvent.of_queries(&queries);
    assert_eq!(conveyors.get(&complex.conveyor_events[0]), Some(&complex.conveyors[0]));
    let detectors = Link::DetectorOfPlatform.of_queries(&queries);
    assert_eq!(detectors.get(&complex.platforms[1]), Some(&complex.detectors[1]));
    let objects = Link::ObjectOfPosition.of_queries(&queries);
    assert!(!objects.is_empty());
}

#[test]
fn a_barrel_is_pushed_picked_up_dropped_and_taken() {
    let mut floor = simple_floor();
    assert!(floor.is_finished());
    assert_eq!(floor.at_candidates.len(), 9);
    let platform = floor.at_candidates[0].clone();
    let pickdrop = floor.at_candidates[6].clone();
    let ramp = floor.at_candidates[8].clone();
    let crane = Node::object_instance_node("MyCrane0", "Crane");
    let barrel = Node::material_instance_node("MyBarrel-a", "Barrel");
    assert!(!floor.draws_twice(0));
    assert!(floor.draws_twice(6));
    assert!(floor.draws_twice(15));

    // nothing to pick up, to take or to stamp yet
    assert_eq!(floor.attempt(false, 6, 0, &ids()), None);
    assert_eq!(floor.attempt(false, 8, 0, &ids()), None);
    assert_eq!(floor.attempt(false, 3, 0, &ids()), None);
    assert_eq!(floor.current_timestamp, 10);

    let (deltas, updates) = floor.attempt(false, 9, 0, &ids()).unwrap();
    assert_eq!(deltas, vec![at(&barrel, &platform, 10, DeltaType::Addition)]);
    let pushed = single("b", at(&barrel, &platform, 10, DeltaType::Addition));
    assert_eq!(
        updates,
        vec![
            TopicNameAndUpdate::new("central".to_string(), pushed.clone()),
            TopicNameAndUpdate::new("pickdrop_matched_1".to_string(), pushed),
        ]
    );
    assert_eq!(floor.current_timestamp, 13);
    assert_eq!(floor.state.get(&platform), Some(&Some(barrel.clone())));
    assert!(!floor.is_finished());
    // the platform is taken
    assert_eq!(floor.attempt(false, 0, 0, &ids()), None);

    // the crane picks the barrel up from the first object around it
    let (deltas, updates) = floor.attempt(false, 6, 5, &ids()).unwrap();
    assert_eq!(
        deltas,
        vec![
            at(&barrel, &platform, 13, DeltaType::Removal),
            at(&barrel, &crane, 14, DeltaType::Addition),
        ]
    );
    let payload = CraneEvent {
        instance_node_id: "MyPlatform0".to_string(),
        crane_event_type: CraneEventType::PickUp,
    }
    .encode();
    assert_eq!(
        updates,
        vec![TopicNameAndUpdate::new(
            "pickdrop_matched_1".to_string(),
            Update::Event(Event {
                event_id: "a".to_string(),
                timestamp: 13,
                node_id: "MyCrane0.PickDrop".to_string(),
                payload,
            }),
        )]
    );
    assert_eq!(floor.state.get(&platform), Some(&None));
    assert_eq!(floor.state.get(&pickdrop), Some(&Some(barrel.clone())));

    // a factory that is stopping drops only onto the ramp
    assert_eq!(floor.attempt(true, 6, 1, &ids()), None);
    let (deltas, updates) = floor.attempt(true, 6, 2, &ids()).unwrap();
    assert_eq!(
        deltas,
        vec![
            at(&barrel, &crane, 16, DeltaType::Removal),
            at(&barrel, &ramp, 17, DeltaType::Addition),
        ]
    );
    match &updates[0].update {
        Update::Event(e) => assert_eq!(
            CraneEvent::decode(&e.payload),
            Some(CraneEvent {
                instance_node_id: "MyRamp0".to_string(),
                crane_event_type: CraneEventType::Drop
            })
        ),
        other => panic!("no event: {:?}", other),
    }
    // and picks nothing up from it
    assert_eq!(floor.attempt(true, 6, 2, &ids()), None);
    // nor gets new barrels
    assert_eq!(floor.attempt(true, 1, 0, &ids()), None);

    let (deltas, updates) = floor.attempt(true, 8, 0, &ids()).unwrap();
    assert_eq!(deltas, vec![at(&barrel, &ramp, 19, DeltaType::Removal)]);
    let taken = single("a", at(&barrel, &ramp, 19, DeltaType::Removal));
    assert_eq!(updates[0], TopicNameAndUpdate::new("central".to_string(), taken));
    assert_eq!(updates.len(), 3);
    assert!(floor.is_finished());
    assert_eq!(floor.current_timestamp, 22);
}

#[test]
fn a_barrel_is_detected_and_sorted() {
    let scenario = complex_factory_scenario_builder(2);
    let simulator = ComplexFactoryScenarioSimulator::new(scenario.clone(), 7, false);
    let built = simulator.floor();
    let mut floor = Floor::new(
        built.at_candidates.clone(),
        &scenario.conveyors,
        &scenario.all_queries(),
        7,
        false,
        true,
    );
    assert_eq!(floor.state, built.state);
    assert_eq!(floor.topic_names_map, built.topic_names_map);
    let platform = scenario.platforms[0].clone();
    let conveyor = scenario.conveyors[0].clone();
    let barrel = Node::material_instance_node("MyBarrel-a", "Barrel");
    let n = floor.at_candidates.len() as u64;
    let index = |node: &Node, floor: &Floor| {
        floor.at_candidates.iter().position(|c| c == node).unwrap() as u64
    };

    let (deltas, updates) = floor.attempt(false, index(&platform, &floor) + n, 0, &ids()).unwrap();
    let seen = Delta {
        src: barrel.clone(),
        trg: Node::property_instance_node("MyBarrel-a_barrel_type", "BarrelMaterialType", vec![1]),
        edge_type: "HasMaterialType".to_string(),
        timestamp: 8,
        delta_type: DeltaType::Addition,
    };
    assert_eq!(deltas, vec![at(&barrel, &platform, 7, DeltaType::Addition), seen]);
    assert_eq!(floor.barrel_material_type.get(&barrel), Some(&BarrelMaterialType::Plastic));
    let last = updates.last().unwrap();
    assert_eq!(last.topic_name, "detector_matched_0");
    assert_eq!(
        last.update,
        Update::Event(Event {
            event_id: "c".to_string(),
            timestamp: 7,
            node_id: "MyDetector0".to_string(),
            payload: vec![1],
        })
    );
    assert!(updates.iter().all(|u| u.topic_name != "central"));

    // the crane takes the barrel to the conveyor
    let pickdrop = scenario.crane_pickdrops[0].clone();
    let around = floor.objects_surrounding_crane_map.get(&scenario.cranes[0]).unwrap().clone();
    let from = around.iter().position(|o| *o == platform).unwrap() as u64;
    let to = around.iter().position(|o| *o == conveyor).unwrap() as u64;
    assert!(floor.attempt(false, index(&pickdrop, &floor), from, &ids()).is_some());
    assert!(floor.attempt(true, index(&pickdrop, &floor), to, &ids()).is_some());
    assert_eq!(floor.state.get(&conveyor), Some(&Some(barrel.clone())));

    let event = scenario.conveyor_events[0].clone();
    let (deltas, updates) = floor.attempt(true, index(&event, &floor), 0, &ids()).unwrap();
    let ramp = scenario.plastic_ramps[0].clone();
    assert_eq!(
        deltas,
        vec![
            at(&barrel, &conveyor, 16, DeltaType::Removal),
            at(&barrel, &ramp, 17, DeltaType::Addition),
        ]
    );
    assert_eq!(
        updates,
        vec![TopicNameAndUpdate::new(
            "conveyor_matched_0".to_string(),
            Update::Event(Event {
                event_id: "a".to_string(),
                timestamp: 16,
                node_id: "MyConveyorEvent0".to_string(),
                payload: vec![],
            }),
        )]
    );
    assert!(floor.attempt(true, index(&ramp, &floor), 0, &ids()).is_some());
    assert_eq!(floor.barrel_material_type.get(&barrel), None);
    assert!(floor.is_finished());
}

#[test]
fn a_stamp_marks_what_is_at_its_assembly() {
    let scenario = create_simple_factory_scenario();
    let mut at_candidates = scenario.stamps.clone();
    at_candidates.extend(scenario.stamp_assemblies.clone());
    let mut floor = Floor::new(at_candidates, &vec![], &scenario.queries, 4, false, false);
    let barrel = Node::material_instance_node("MyBarrel-x", "Barrel");
    assert_eq!(floor.attempt(false, 1, 0, &ids()), None);
    floor.state.insert(scenario.stamp_assemblies[1].clone(), Some(barrel.clone()));
    assert_eq!(floor.attempt(true, 1, 0, &ids()), None);
    let (deltas, updates) = floor.attempt(false, 1, 0, &ids()).unwrap();
    assert_eq!(
        deltas,
        vec![Delta {
            src: barrel,
            trg: Node::property_instance_node("MyBarrel-x_Stamp_5", "StampData", vec![1, b'a']),
            edge_type: "HasStampData".to_string(),
            timestamp: 5,
            delta_type: DeltaType::Addition,
        }]
    );
    assert_eq!(
        updates,
        vec![TopicNameAndUpdate::new(
            "stamp_matched_2".to_string(),
            Update::Event(Event {
                event_id: "b".to_string(),
                timestamp: 5,
                node_id: "MyStamp1".to_string(),
                payload: vec![1, b'a'],
            }),
        )]
    );
    assert_eq!(floor.current_timestamp, 7);
    floor.current_timestamp = u64::MAX - 2;
    assert_eq!(floor.attempt(false, 1, 0, &ids()), None);
}

#[test]
fn a_simulated_factory_runs_and_stops() {
    let scenario = create_simple_factory_scenario();
    let mut simulator = SimpleFactoryScenarioSimulator::new(scenario.clone(), 0, false);
    let mut again = SimpleFactoryScenarioSimulator::new(scenario, 0, false);
    assert!(simulator.is_finished());
    assert_eq!(simulator.create_one_new_message(false, 0), None);
    let mut kinds = std::collections::BTreeSet::new();
    for i in 0..200u64 {
        let (deltas, updates) = simulator.create_one_new_message(false, 100_000).unwrap();
        let (same_deltas, _) = again.create_one_new_message(false, 100_000).unwrap();
        // one seed, one course of things; only the names of the barrels differ
        assert_eq!(deltas.len(), same_deltas.len());
        assert_eq!(deltas[0].trg, same_deltas[0].trg);
        assert!(!deltas.is_empty() && !updates.is_empty());
        assert_eq!(simulator.get_current_timestamp(), 3 * (i + 1));
        kinds.insert((deltas.len(), deltas[0].trg.node_type.clone().unwrap()));
    }
    assert!(kinds.contains(&(1, "Platform".to_string())));
    assert!(kinds.contains(&(2, "Platform".to_string())));
    assert!(kinds.contains(&(2, "Crane".to_string())));
    assert!(kinds.contains(&(1, "Ramp".to_string())));
    assert!(kinds.contains(&(1, "StampData".to_string())) || kinds.len() >= 4);
    let mut left = 10_000;
    while !simulator.is_finished() && left > 0 {
        simulator.create_one_new_message(true, 1000);
        left -= 1;
    }
    assert!(simulator.is_finished());
    assert!(simulator.floor().state.to_vec_is_empty_of_barrels());
}

trait NoBarrels {
    fn to_vec_is_empty_of_barrels(&self) -> bool;
}

impl NoBarrels for mbei::ordered::OrderedMap<Node, Option<Node>> {
    fn to_vec_is_empty_of_barrels(&self) -> bool {
        (0..self.len()).all(|i| self.value_at(i).is_none())
    }
}

#[test]
fn single_deltas_go_to_each_topic() {
    let barrel = new_barrel();
    assert!(barrel.instance_node_name.as_ref().unwrap().starts_with("MyBarrel-"));
    assert_eq!(barrel.instance_node_name.as_ref().unwrap().len(), 45);
    assert_ne!(new_barrel(), barrel);
    let place = Node::object_instance_node("MyPlatform0", "Platform");
    let update = single_delta_update(
        "id".to_string(),
        barrel.clone(),
        place.clone(),
        "At",
        3,
        DeltaType::Addition,
    );
    assert_eq!(update, single("id", at(&barrel, &place, 3, DeltaType::Addition)));
    match create_single_delta_update(barrel.clone(), place.clone(), "At", 3, DeltaType::Removal) {
        Update::Deltas(d) => {
            assert_eq!(d.deltas_id, d.origin_id);
            assert_eq!(d.deltas_id.len(), 36);
            assert_eq!(d.origin_timestamp, 3);
            assert_eq!(d.deltas.to_vec(), vec![at(&barrel, &place, 3, DeltaType::Removal)]);
        }
        other => panic!("no package: {:?}", other),
    }
    let topics = vec!["x".to_string(), "y".to_string()];
    let sent = send_to_topics(&update, &topics, false);
    assert_eq!(
        sent,
        vec![
            TopicNameAndUpdate::new("x".to_string(), update.clone()),
            TopicNameAndUpdate::new("y".to_string(), update.clone()),
        ]
    );
    assert_eq!(send_to_topics(&update, &vec![], true).len(), 1);
    assert_eq!(send_to_topics(&update, &topics, true)[0].topic_name, "central");
}
