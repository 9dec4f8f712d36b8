use mbei::assignment::{create_assignment, create_assignment_with, create_names_url_map};
use mbei::central::{
    central_action, delta_from_row, row_from_delta, rows_from_deltas, CentralAction, DeltaRow,
};
use mbei::event::{Deltas, Event, Retractions, Update};
use mbei::factory_scenario_builder::complex_factory_scenario_builder;
use mbei::complex_factory_scenario::ComplexFactoryScenarioSimulator;
use mbei::factory_scenario_common_updates::{create_n_messages, MessageCreator};
use mbei::graph::{Delta, DeltaType, Node, NodeClass};
use mbei::ordered::OrderedSet;
use mbei::producer::{is_stopping, next_rate, package_of, reversed_batch_order};
use mbei::text::host_number;

fn delta(ts: u64, delta_type: DeltaType) -> Delta {
    Delta {
        src: Node::material_instance_node("b", "Barrel"),
        trg: Node::property_instance_node("p", "Stamp", vec![1, 2]),
        edge_type: "HasStampData".to_string(),
        timestamp: ts,
        delta_type,
    }
}

fn row(ts: u64) -> DeltaRow {
    DeltaRow {
        deltas_id: "d".to_string(),
        ts,
        delta_type: "Removal".to_string(),
        src_name: "b".to_string(),
        src_nodetype: "Barrel".to_string(),
        src_nodeclass: "Material".to_string(),
        src_value: None,
        trg_name: "p".to_string(),
        trg_nodetype: "Stamp".to_string(),
        trg_nodeclass: "Property".to_string(),
        trg_value: Some(vec![1, 2]),
        edge_type: "HasStampData".to_string(),
    }
}

#[test]
fn classes_and_kinds_have_names() {
    for class in [NodeClass::Object, NodeClass::Event, NodeClass::Material, NodeClass::Property] {
        assert_eq!(NodeClass::from_name(class.name()), Some(class));
    }
    assert_eq!(NodeClass::Event.name(), "Event");
    assert_eq!(NodeClass::from_name("event"), None);
    assert_eq!(DeltaType::from_name("Addition"), Some(DeltaType::Addition));
    assert_eq!(DeltaType::from_name(DeltaType::Removal.name()), Some(DeltaType::Removal));
    assert_eq!(DeltaType::from_name(""), None);
}

#[test]
fn a_delta_goes_into_a_row_and_back() {
    let d = delta(7, DeltaType::Removal);
    let as_row = row_from_delta(&"d".to_string(), &d).unwrap();
    assert_eq!(as_row, row(7));
    assert_eq!(delta_from_row(&as_row), Some(d));
    let mut unnamed = delta(7, DeltaType::Removal);
    unnamed.trg.instance_node_name = None;
    assert_eq!(row_from_delta(&"d".to_string(), &unnamed), None);
    let mut untyped = delta(7, DeltaType::Removal);
    untyped.src.node_type = None;
    assert_eq!(row_from_delta(&"d".to_string(), &untyped), None);
    let mut odd = row(7);
    odd.src_nodeclass = "Thing".to_string();
    assert_eq!(delta_from_row(&odd), None);
    let mut odd = row(7);
    odd.delta_type = "Change".to_string();
    assert_eq!(delta_from_row(&odd), None);
}

#[test]
fn the_central_store_keeps_what_was_not_retracted() {
    let package = Deltas {
        deltas_id: "d".to_string(),
        origin_id: "o".to_string(),
        origin_timestamp: 3,
        deltas: OrderedSet::from_vec(vec![delta(9, DeltaType::Removal), delta(4, DeltaType::Removal)]),
    };
    assert_eq!(rows_from_deltas(&package), Some(vec![row(4), row(9)]));
    let update = Update::Deltas(package.clone());
    assert_eq!(central_action(&update, false), CentralAction::Insert(vec![row(4), row(9)]));
    assert_eq!(central_action(&update, true), CentralAction::Nothing);
    let mut query_side = delta(1, DeltaType::Addition);
    query_side.src = Node::material_query_node("b", "Barrel");
    let refused = Update::Deltas(Deltas {
        deltas: OrderedSet::from_vec(vec![query_side]),
        ..package
    });
    assert_eq!(central_action(&refused, false), CentralAction::Refused);
    let retractions = Update::Retractions(Retractions {
        retraction_id: "r".to_string(),
        timestamp: 1,
        deltas_ids: vec!["y".to_string(), "x".to_string(), "y".to_string()],
    });
    assert_eq!(
        central_action(&retractions, false),
        CentralAction::Retract(vec!["x".to_string(), "y".to_string()])
    );
    assert_eq!(central_action(&Update::Stop, false), CentralAction::Nothing);
    let event = Update::Event(Event {
        event_id: "e".to_string(),
        timestamp: 0,
        node_id: "n".to_string(),
        payload: vec![],
    });
    assert_eq!(central_action(&event, false), CentralAction::Nothing);
}

#[test]
fn the_number_of_a_host_stands_behind_the_last_hyphen() {
    assert_eq!(host_number("mbei-7"), Some(7));
    assert_eq!(host_number("mbei-component-12"), Some(12));
    assert_eq!(host_number("42"), Some(42));
    assert_eq!(host_number("mbei-+3"), Some(3));
    assert_eq!(host_number("mbei-007"), Some(7));
    assert_eq!(host_number("mbei-65535"), Some(65535));
    assert_eq!(host_number("mbei-65536"), None);
    assert_eq!(host_number("mbei-99999999999999999999"), None);
    assert_eq!(host_number("mbei-"), None);
    assert_eq!(host_number("mbei-+"), None);
    assert_eq!(host_number("mbei"), None);
    assert_eq!(host_number(""), None);
    assert_eq!(host_number("mbei-1a"), None);
    assert_eq!(host_number("mbei-١"), None);
    assert_eq!(host_number("mbei--1"), Some(1));
    for name in ["mbei-7", "mbei-+3", "x-65536", "é-5", "a-b", "-", "+"] {
        assert_eq!(host_number(name), name.split('-').last().unwrap().parse::<u16>().ok());
    }
}

#[test]
fn a_producer_packs_paces_and_stops() {
    assert_eq!(package_of("d", vec![]), None);
    let packed = package_of(
        "d",
        vec![delta(5, DeltaType::Addition), delta(2, DeltaType::Removal), delta(5, DeltaType::Addition)],
    );
    assert_eq!(
        packed,
        Some(Update::Deltas(Deltas {
            deltas_id: "d".to_string(),
            origin_id: "d".to_string(),
            origin_timestamp: 2,
            deltas: OrderedSet::from_vec(vec![delta(2, DeltaType::Removal), delta(5, DeltaType::Addition)]),
        }))
    );
    assert_eq!(reversed_batch_order(9), None);
    assert_eq!(reversed_batch_order(19), Some(vec![]));
    assert_eq!(reversed_batch_order(20), Some(vec![9, 8, 7, 6, 5, 4, 3, 2, 1, 0]));
    let order = reversed_batch_order(35).unwrap();
    assert_eq!(order.len(), 20);
    assert_eq!(&order[8..12], &[1, 0, 19, 18]);
    assert_eq!(next_rate(100, 0, 10, 1000), 100);
    assert_eq!(next_rate(100, 999, 10, 1000), 100);
    assert_eq!(next_rate(100, 1000, 10, 1000), 110);
    assert_eq!(next_rate(100, 3000, 0, 1000), 100);
    assert!(!is_stopping(false, false, None, 5));
    assert!(!is_stopping(false, false, Some(6), 5));
    assert!(is_stopping(false, false, Some(5), 5));
    assert!(is_stopping(false, true, None, 0));
    assert!(is_stopping(true, false, None, 0));
}

#[test]
fn components_are_dealt_out_to_hosts() {
    let names: Vec<String> = ["a", "b", "c", "d", "e"].iter().map(|s| s.to_string()).collect();
    let hands = create_assignment_with(names.clone(), 2, &vec![0, 7, 1, 1, 9]);
    // a is taken first; then e of b c d e; then c of b c d; then d of b d; then b
    assert_eq!(
        hands,
        vec![
            vec!["a".to_string(), "c".to_string(), "b".to_string()],
            vec!["e".to_string(), "d".to_string()],
        ]
    );
    assert_eq!(create_assignment_with(vec![], 3, &vec![]), vec![Vec::<String>::new(); 3]);
    let dealt = create_assignment(names.clone(), 3);
    assert_eq!(dealt, create_assignment(names.clone(), 3));
    assert_eq!(dealt.iter().map(|h| h.len()).collect::<Vec<_>>(), vec![2, 2, 1]);
    let mut all: Vec<String> = dealt.iter().flatten().cloned().collect();
    all.sort();
    assert_eq!(all, names);

    let urls = create_names_url_map(&hands);
    assert_eq!(urls.len(), 5);
    assert_eq!(
        urls.get(&"c".to_string()).unwrap(),
        "http://mbei-component-0.mbei-component.mbei.svc.cluster.local:10001"
    );
    assert_eq!(
        urls.get(&"e".to_string()).unwrap(),
        "http://mbei-component-1.mbei-component.mbei.svc.cluster.local:10000"
    );
}

#[test]
fn a_factory_runs_for_a_number_of_messages_and_is_flushed() {
    let scenario = complex_factory_scenario_builder(2);
    let mut simulator = ComplexFactoryScenarioSimulator::new(scenario.clone(), 0, false);
    let (updates, made, finished) = create_n_messages(&mut simulator, 30, 100_000, 10_000);
    assert!(finished);
    assert!(made >= 30);
    assert!(updates.len() as u64 >= made);
    assert!(simulator.is_finished());
    assert_eq!(simulator.get_current_timestamp(), 3 * made);
    let mut cut_short = ComplexFactoryScenarioSimulator::new(scenario.clone(), 0, false);
    let (_, made, finished) = create_n_messages(&mut cut_short, 30, 100_000, 10);
    assert_eq!((made, finished), (10, false));
    let mut impatient = ComplexFactoryScenarioSimulator::new(scenario, 0, false);
    let (updates, made, finished) = create_n_messages(&mut impatient, 30, 0, 10);
    assert_eq!((updates.len(), made, finished), (0, 0, false));
}
