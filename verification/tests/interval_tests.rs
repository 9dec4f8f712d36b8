use mbei::graph::{edges_from_deltas, Delta, DeltaType, Node};
use mbei::intervals::{find_intervals_to_reprocess, find_non_redundant_intervals, ReprocessInterval};

#[test]
fn test_zero_existing_intervals() {
    let d = Delta {
        src: Node::material_instance_node("MyBarrel0", "Barrel"),
        trg: Node::object_instance_node("MyStampAssembly", "StampAssembly"),
        edge_type: "At".to_string(),
        delta_type: DeltaType::Addition,
        timestamp: 4,
    };
    let edges = edges_from_deltas(&vec![&d]);
    let to_reprocess = find_intervals_to_reprocess(&edges, &vec![]);
    assert_eq!(vec![ReprocessInterval { from: 4, to: None }], to_reprocess);
}

#[test]
fn test_removed_earlier() {
    let my_barrel = Node::material_instance_node("MyBarrel0", "Barrel");
    let my_platform = Node::object_instance_node("MyPlatform0", "Platform");
    let new_deltas = vec![Delta {
        src: my_barrel.clone(),
        trg: my_platform.clone(),
        edge_type: "At".to_string(),
        timestamp: 2,
        delta_type: DeltaType::Removal,
    }];
    let existing_deltas = vec![
        Delta {
            src: my_barrel.clone(),
            trg: my_platform.clone(),
            edge_type: "At".to_string(),
            timestamp: 3,
            delta_type: DeltaType::Removal,
        },
        Delta {
            src: my_barrel.clone(),
            trg: my_platform.clone(),
            edge_type: "At".to_string(),
            timestamp: 0,
            delta_type: DeltaType::Addition,
        },
    ];
    let mut borrow_updated_deltas = vec![];
    let mut borrow_existing_deltas = vec![];
    for d in &existing_deltas {
        borrow_updated_deltas.push(d);
        borrow_existing_deltas.push(d);
    }
    for d in &new_deltas {
        borrow_updated_deltas.push(d);
    }

    let updated_edges_with_timestamp = edges_from_deltas(&borrow_updated_deltas);
    let existing_edges_with_timestamp = edges_from_deltas(&borrow_existing_deltas);
    let reprocess = find_intervals_to_reprocess(
        &updated_edges_with_timestamp,
        &existing_edges_with_timestamp,
    );
    let expected = vec![ReprocessInterval {
        from: 3,
        to: Some(3),
    }];
    assert_eq!(reprocess, expected);
}

#[test]
fn test_been_there_earlier() {
    let my_barrel = Node::material_instance_node("MyBarrel0", "Barrel");
    let my_platform = Node::object_instance_node("MyPlatform0", "Platform");
    let new_deltas = vec![Delta {
        src: my_barrel.clone(),
        trg: my_platform.clone(),
        edge_type: "At".to_string(),
        timestamp: 3,
        delta_type: DeltaType::Addition,
    }];
    let existing_deltas = vec![
        Delta {
            src: my_barrel.clone(),
            trg: my_platform.clone(),
            edge_type: "At".to_string(),
            timestamp: 2,
            delta_type: DeltaType::Removal,
        },
        Delta {
            src: my_barrel.clone(),
            trg: my_platform.clone(),
            edge_type: "At".to_string(),
            timestamp: 0,
            delta_type: DeltaType::Addition,
        },
    ];
    let mut borrow_updated_deltas = vec![];
    let mut borrow_existing_deltas = vec![];
    for d in &existing_deltas {
        borrow_updated_deltas.push(d);
        borrow_existing_deltas.push(d);
    }
    for d in &new_deltas {
        borrow_updated_deltas.push(d);
    }

    let updated_edges_with_timestamp = edges_from_deltas(&borrow_updated_deltas);
    let existing_edges_with_timestamp = edges_from_deltas(&borrow_existing_deltas);
    let reprocess = find_intervals_to_reprocess(
        &updated_edges_with_timestamp,
        &existing_edges_with_timestamp,
    );
    let expected = vec![ReprocessInterval {
        from: 3,
        to: None,
    }];
    assert_eq!(reprocess, expected);
}

#[test]
fn test_subtract_easy1_correct() {
    let repr = ReprocessInterval {
        from: 0,
        to: Some(3),
    };
    let res = repr.subtract(0, &Some(2));

    assert_eq!(res.len(), 1);
    let res0 = res.get(0).unwrap();
    assert_eq!(res0.from, 3);
    assert_eq!(res0.to, Some(3));
}

#[test]
fn test_subtract_easy2_correct() {
    let repr = ReprocessInterval {
        from: 1,
        to: Some(3),
    };
    let res = repr.subtract(0, &Some(2));

    assert_eq!(res.len(), 1);
    let res0 = res.get(0).unwrap();
    assert_eq!(res0.from, 3);
    assert_eq!(res0.to, Some(3));
}

#[test]
fn test_subtract_easy3_correct() {
    let repr = ReprocessInterval {
        from: 1,
        to: Some(3),
    };
    let res = repr.subtract(0, &None);

    assert_eq!(res.len(), 0);
}

#[test]
fn test_subtract_easy4_correct() {
    let repr = ReprocessInterval { from: 1, to: None };
    let res = repr.subtract(0, &Some(2));

    assert_eq!(res.len(), 1);
    let res0 = res.get(0).unwrap();
    assert_eq!(res0.from, 3);
    assert_eq!(res0.to, None);
}

#[test]
fn test_subtract_easy5_correct() {
    let repr = ReprocessInterval { from: 1, to: None };
    let res = repr.subtract(2, &None);

    assert_eq!(res.len(), 1);
    let res0 = res.get(0).unwrap();
    assert_eq!(res0.from, 1);
    assert_eq!(res0.to, Some(1));
}

#[test]
fn test_subtract_two_results1_correct() {
    let repr = ReprocessInterval {
        from: 0,
        to: Some(3),
    };
    let res = repr.subtract(1, &Some(2));
    assert_eq!(res.len(), 2, "Should have two results");
    let res0 = res.get(0).unwrap();
    assert_eq!(res0.from, 0);
    assert_eq!(res0.to, Some(0));

    let res1 = res.get(1).unwrap();
    assert_eq!(res1.from, 3);
    assert_eq!(res1.to, Some(3));
}

#[test]
fn test_subtract_two_results2_correct() {
    let repr = ReprocessInterval { from: 0, to: None };
    let res = repr.subtract(1, &Some(2));
    assert_eq!(res.len(), 2, "Should have two results");
    let res0 = res.get(0).unwrap();
    assert_eq!(res0.from, 0);
    assert_eq!(res0.to, Some(0));

    let res1 = res.get(1).unwrap();
    assert_eq!(res1.from, 3);
    assert_eq!(res1.to, None);
}

#[test]
fn test_find_non_redundant_intervals_all_overlapping() {
    let repr1 = ReprocessInterval { from: 1, to: Some(2) };
    let repr2 = ReprocessInterval { from: 2, to: Some(5) };
    let repr3 = ReprocessInterval { from: 3, to: None };

    let result = find_non_redundant_intervals(vec![repr1, repr2, repr3]);
    assert_eq!(result, vec![ReprocessInterval { from: 1, to: None }]);
}

#[test]
fn test_find_non_redundant_intervals_last_interval_contained() {
    let repr1 = ReprocessInterval { from: 1, to: Some(2) };
    let repr2 = ReprocessInterval { from: 2, to: Some(6) };
    let repr3 = ReprocessInterval { from: 3, to: Some(5) };

    let result = find_non_redundant_intervals(vec![repr1, repr2, repr3]);
    assert_eq!(result, vec![ReprocessInterval { from: 1, to: Some(6) }]);
}

#[test]
fn test_find_non_redundant_intervals_middle_interval_open() {
    let repr1 = ReprocessInterval { from: 1, to: Some(2) };
    let repr2 = ReprocessInterval { from: 2, to: None };
    let repr3 = ReprocessInterval { from: 3, to: Some(5) };

    let result = find_non_redundant_intervals(vec![repr1, repr2, repr3]);
    assert_eq!(result, vec![ReprocessInterval { from: 1, to: None }]);
}

#[test]
fn test_find_non_redundant_intervals_no_overlap() {
    let repr1 = ReprocessInterval { from: 1, to: Some(2) };
    let repr2 = ReprocessInterval { from: 8, to: None };
    let repr3 = ReprocessInterval { from: 3, to: Some(5) };

    let result = find_non_redundant_intervals(vec![repr1.clone(), repr2.clone(), repr3.clone()]);
    assert_eq!(result, vec![repr1, repr3, repr2]);
}

#[test]
fn test_find_non_redundant_intervals_two_open() {
    let repr1 = ReprocessInterval { from: 1, to: Some(2) };
    let repr2 = ReprocessInterval { from: 8, to: None };
    let repr3 = ReprocessInterval { from: 3, to: None };

    let result = find_non_redundant_intervals(vec![repr1.clone(), repr2, repr3]);
    assert_eq!(result, vec![repr1, ReprocessInterval{from:3, to:None}]);
}

#[test]
fn test_find_non_redundant_intervals_two_overlapping() {
    let repr1 = ReprocessInterval { from: 1, to: Some(2) };
    let repr2 = ReprocessInterval { from: 2, to: None };

    let result = find_non_redundant_intervals(vec![repr1.clone(), repr2]);
    assert_eq!(result, vec![ReprocessInterval{from:1, to:None}]);
}

#[test]
fn test_find_non_redundant_intervals_only_one() {
    let repr1 = ReprocessInterval { from: 1, to: Some(1) };

    let result = find_non_redundant_intervals(vec![repr1]);
    assert_eq!(result, vec![ReprocessInterval{from:1, to:Some(1)}]);
}
#[test]
fn test_subtract_leaves_what_the_range_does_not_cover() {
    let repr = ReprocessInterval { from: 0, to: Some(3) };
    assert_eq!(
        repr.subtract(1, &Some(2)),
        vec![ReprocessInterval { from: 0, to: Some(0) }, ReprocessInterval { from: 3, to: Some(3) }]
    );
    let open = ReprocessInterval { from: 1, to: None };
    assert_eq!(open.subtract(2, &None), vec![ReprocessInterval { from: 1, to: Some(1) }]);
    assert_eq!(open.subtract(0, &Some(u64::MAX)), vec![]);
}

#[test]
fn test_overlaps() {
    let repr = ReprocessInterval { from: 2, to: Some(5) };
    assert!(repr.overlaps(3, &None));
    assert!(repr.overlaps(0, &Some(3)));
    assert!(!repr.overlaps(5, &Some(9)));
    assert!(!repr.overlaps(0, &Some(2)));
    assert!(ReprocessInterval { from: 2, to: None }.overlaps(100, &Some(101)));
}

#[test]
fn test_reprocessing_is_the_same_either_way() {
    let edge = |from: u64, to: Option<u64>| mbei::graph::Edge {
        src: Node::material_instance_node("b", "Barrel"),
        trg: Node::object_instance_node("p", "Platform"),
        edge_type: "At".to_string(),
        from_timestamp: Some(from),
        to_timestamp: to,
    };
    let new = vec![edge(0, Some(4)), edge(9, None)];
    let old = vec![edge(2, Some(6)), edge(7, Some(8))];
    let one_way = find_intervals_to_reprocess(&new, &old);
    let other_way = find_intervals_to_reprocess(&old, &new);
    assert_eq!(one_way, other_way);
    assert_eq!(
        one_way,
        vec![
            ReprocessInterval { from: 0, to: Some(1) },
            ReprocessInterval { from: 5, to: Some(6) },
            ReprocessInterval { from: 7, to: Some(8) },
            ReprocessInterval { from: 9, to: None },
        ]
    );
}

#[test]
fn test_find_non_redundant_intervals_of_nothing() {
    assert_eq!(find_non_redundant_intervals(vec![]), vec![]);
}
