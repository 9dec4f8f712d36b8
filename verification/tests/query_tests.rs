use mbei::graph::{Edge, Graph, Node, NodeClass};
use mbei::ordered::{OrderedMap, OrderedSet};
use mbei::query::{GroupedQueryMatch, Query, QueryMatch};

#[test]
fn pickdrop_query_matching() {
    let trg = Edge::without_timestamp(
        Node::material_instance_node("MyBarrel0", "Barrel"),
        Node::object_instance_node("MyPlatform0", "Platform"),
        "At",
    );
    let graph = Graph::from_edges(vec![trg.clone()]);

    //Nodes
    let c = Node::object_matched_query_node("c", "MyCrane0", "Crane");
    let o_plat = Node::object_matched_query_node("o", "MyPlatform0", "Platform");
    let bo = Node::material_query_node("bo", "Barrel");
    let bc = Node::material_query_node("bo", "Barrel");
    let oap_plat =
        Node::object_matched_query_node("oap", "MyPlatform0.ObjectAtPosition", "ObjectAtPosition");
    let oap_ramp =
        Node::object_matched_query_node("oap", "MyRamp0.ObjectAtPosition", "ObjectAtPosition");
    let r = Node::object_matched_query_node("o", "MyRamp0", "Ramp");

    //Edges
    let bc_at_c = Edge::without_timestamp(bc.clone(), c.clone(), "At");
    let bo_at_o_plat = Edge::without_timestamp(bo.clone(), o_plat.clone(), "At");
    let bo_at_o_ramp = Edge::without_timestamp(bo.clone(), r.clone(), "At");
    let oap_has_plat = Edge::without_timestamp(oap_plat.clone(), o_plat.clone(), "HasObject");
    let oap_has_ramp = Edge::without_timestamp(oap_ramp.clone(), r.clone(), "HasObject");
    let c_has_oap_ramp =
        Edge::without_timestamp(c.clone(), oap_plat.clone(), "HasObjectAtPosition");
    let c_has_oap_plat =
        Edge::without_timestamp(c.clone(), oap_ramp.clone(), "HasObjectAtPosition");
    let pickdrop = Node::event_instance_node("MyCrane0.PickDrop", "PickDrop");
    let c_has_p = Edge::without_timestamp(c.clone(), pickdrop.clone(), "HasEvent");

    let query = Query {
        name: "pickdrop_matched".to_string(),
        application: "pickdrop".to_string(),
        graph: Graph::from_edges(vec![
            bc_at_c.clone(),
            bo_at_o_plat.clone(),
            bo_at_o_ramp.clone(),
            oap_has_ramp,
            oap_has_plat,
            c_has_oap_ramp,
            c_has_oap_plat,
            c_has_p,
        ]),
        optional_edges: OrderedSet::from_vec(vec![
            bc_at_c.clone(),
            bo_at_o_plat.clone(),
            bo_at_o_ramp.clone(),
        ]),
        group: OrderedSet::from_vec(vec![Node::object_matched_query_node(
            "c", "MyCrane0", "Crane",
        )]),
        output_edges: OrderedSet::from_vec(vec![
            bc_at_c.clone(),
            bo_at_o_plat.clone(),
            bo_at_o_ramp.clone(),
        ]),
        input_nodes: OrderedSet::from_vec(vec![pickdrop.clone()]),
    };

    let matches = query.find_all_matches(&graph);
    assert_eq!(matches.len(), 1);
    let expected_matches = vec![QueryMatch {
        homomorphism: OrderedMap::from_vec(vec![
            (bc_at_c.clone(), None),
            (bo_at_o_plat.clone(), Some(trg.clone())),
            (bo_at_o_ramp.clone(), None),
        ]),
    }];
    assert_eq!(matches, expected_matches);
}

#[test]
fn test_no_groupby() {
    let my_platform_query = Node::object_matched_query_node("p", "MyPlatform5", "Platform");
    let my_platform_instance = Node::object_instance_node("MyPlatform5", "Platform");
    let barrel_query = Node::material_query_node("b", "Barrel");
    let detector_query = Node::event_matched_query_node("d", "MyDetector5", "Detector");
    let q = Query {
        name: "detector_matched_5".to_string(),
        application: "detector".to_string(),
        graph: Graph::from_edges(vec![
            Edge {
                src: barrel_query,
                trg: my_platform_query.clone(),
                edge_type: "At".to_string(),
                from_timestamp: None,
                to_timestamp: None,
            },
            Edge {
                src: my_platform_query.clone(),
                trg: detector_query.clone(),
                edge_type: "HasEvent".to_string(),
                from_timestamp: None,
                to_timestamp: None,
            },
        ]),
        optional_edges: OrderedSet::new(),
        group: OrderedSet::new(),
        output_edges: OrderedSet::new(),
        input_nodes: OrderedSet::from_vec(vec![detector_query]),
    };
    let my_barrel1 = Node::material_instance_node("MyBarrel1", "Barrel");
    let my_barrel2 = Node::material_instance_node("MyBarrel2", "Barrel");
    let gr = Graph::from_edges(vec![
        Edge::without_timestamp(my_barrel1, my_platform_instance.clone(), "At"),
        Edge::without_timestamp(my_barrel2, my_platform_instance.clone(), "At"),
    ]);

    let matches = q.find_all_grouped_matches(&gr);
    assert_eq!(matches.len(), 2);
}

#[test]
fn test_stable_hash() {
    let n1 = Node {
        query_node_name: Option::from("i1".to_string()),
        instance_node_name: Option::from("nn1".to_string()),
        node_type: Option::from("nt1".to_string()),
        node_class: NodeClass::Event,
        value_bytes: None,
    };
    let n2 = Node {
        query_node_name: Option::from("i2".to_string()),
        instance_node_name: Option::from("nn2".to_string()),
        node_type: Option::from("nt2".to_string()),
        node_class: NodeClass::Object,
        value_bytes: None,
    };
    let n3 = Node {
        query_node_name: Option::from("i3".to_string()),
        instance_node_name: Option::from("nn3".to_string()),
        node_type: Option::from("nt3".to_string()),
        node_class: NodeClass::Material,
        value_bytes: None,
    };
    let n4 = Node {
        query_node_name: Option::from("i4".to_string()),
        instance_node_name: Option::from("nn4".to_string()),
        node_type: Option::from("nt4".to_string()),
        node_class: NodeClass::Object,
        value_bytes: None,
    };
    let e1 = Edge {
        src: n1,
        trg: n2,
        edge_type: "At".to_string(),
        from_timestamp: None,
        to_timestamp: None,
    };
    let e2 = Edge {
        src: n3,
        trg: n4,
        edge_type: "At".to_string(),
        from_timestamp: None,
        to_timestamp: None,
    };

    let mut qm = QueryMatch { homomorphism: OrderedMap::new() };
    qm.homomorphism.insert(e1.clone(), Some(e2.clone()));
    let gqm = GroupedQueryMatch { grouped_matches: vec![qm] };

    assert_eq!(gqm.stable_hash(), 1893789860135764682);
}
