use mbei::graph::{Delta, DeltaType, Edge, Node, NodeClass};
use mbei::order::{same, Rank, Sortable};
use mbei::ordered::{OrderedMap, OrderedSet};
use mbei::text::{number_text, numbered};

#[test]
fn strings_are_ordered_by_their_characters() {
    assert_eq!("a".to_string().rank(&"b".to_string()), Rank::Less);
    assert_eq!("b".to_string().rank(&"a".to_string()), Rank::Greater);
    assert_eq!("ab".to_string().rank(&"ab".to_string()), Rank::Equal);
    assert_eq!("a".to_string().rank(&"ab".to_string()), Rank::Less);
    assert_eq!("Z".to_string().rank(&"a".to_string()), Rank::Less);
    assert_eq!("".to_string().rank(&"a".to_string()), Rank::Less);
    let set = OrderedSet::from_vec(vec![
        "pear".to_string(),
        "apple".to_string(),
        "fig".to_string(),
        "apple".to_string(),
    ]);
    assert_eq!(set.to_vec(), vec!["apple".to_string(), "fig".to_string(), "pear".to_string()]);
}

#[test]
fn none_comes_before_some_and_a_prefix_before_the_longer() {
    assert_eq!(None::<u64>.rank(&Some(0)), Rank::Less);
    assert_eq!(Some(1u64).rank(&Some(0)), Rank::Greater);
    assert_eq!(vec![1u8, 2].rank(&vec![1u8, 2, 0]), Rank::Less);
    assert_eq!(vec![2u8].rank(&vec![1u8, 9]), Rank::Greater);
    assert_eq!((1u64, "b".to_string()).rank(&(1u64, "a".to_string())), Rank::Greater);
    assert!(same(&vec![Some(1u64)], &vec![Some(1u64)]));
}

#[test]
fn nodes_and_edges_are_ordered_field_by_field() {
    let a = Node::object_instance_node("a", "T");
    let b = Node::object_instance_node("b", "T");
    let q = Node::object_query_node("a", "T");
    assert_eq!(a.rank(&b), Rank::Less);
    // a node without a query-side name comes before one with
    assert_eq!(b.rank(&q), Rank::Less);
    let material = Node { node_class: NodeClass::Material, ..a.clone() };
    assert_eq!(a.rank(&material), Rank::Less);
    let open = Edge::without_timestamp(a.clone(), b.clone(), "At");
    let begun = Edge { from_timestamp: Some(0), ..open.clone() };
    assert_eq!(open.rank(&begun), Rank::Less);
    let addition = Delta {
        src: a.clone(),
        trg: b.clone(),
        edge_type: "At".to_string(),
        timestamp: 5,
        delta_type: DeltaType::Addition,
    };
    let removal = Delta { delta_type: DeltaType::Removal, ..addition.clone() };
    let earlier = Delta { timestamp: 4, ..removal.clone() };
    assert_eq!(addition.rank(&removal), Rank::Less);
    assert_eq!(earlier.rank(&addition), Rank::Less);
    let set = OrderedSet::from_vec(vec![removal.clone(), addition.clone(), earlier.clone()]);
    assert_eq!(set.to_vec(), vec![earlier, addition, removal]);
}

#[test]
fn a_set_holds_each_item_once() {
    let mut set = OrderedSet::new();
    assert!(set.is_empty());
    assert!(set.insert(3u64));
    assert!(set.insert(1u64));
    assert!(!set.insert(3u64));
    assert_eq!(set.len(), 2);
    assert!(set.contains(&1));
    assert!(!set.contains(&2));
    assert_eq!(*set.at(0), 1);
    assert!(set.remove(&1));
    assert!(!set.remove(&1));
    assert_eq!(set.to_vec(), vec![3]);
    let mut other = OrderedSet::from_vec(vec![5u64, 3, 4]);
    other.extend(&set);
    assert_eq!(other.to_vec(), vec![3, 4, 5]);
    assert_eq!(other.clone(), other);
}

#[test]
fn a_map_keeps_the_last_value_of_a_key() {
    let mut map = OrderedMap::new();
    map.insert("b".to_string(), 1u64);
    map.insert("a".to_string(), 2u64);
    map.insert("b".to_string(), 3u64);
    assert_eq!(map.len(), 2);
    assert_eq!(map.key_at(0), "a");
    assert_eq!(*map.value_at(1), 3);
    assert_eq!(map.get(&"b".to_string()), Some(&3));
    assert_eq!(map.get(&"c".to_string()), None);
    assert_eq!(map.index_of(&"b".to_string()), Some(1));
    assert!(map.contains_key(&"a".to_string()));
    map.set_value_at(0, 9);
    assert_eq!(map.remove(&"a".to_string()), Some(9));
    assert_eq!(map.remove(&"a".to_string()), None);
    assert_eq!(
        map,
        OrderedMap::from_vec(vec![("b".to_string(), 0), ("b".to_string(), 3)])
    );
    assert!(!map.is_empty());
}

#[test]
fn numbers_are_written_in_decimal() {
    assert_eq!(number_text(0), "0");
    assert_eq!(number_text(7), "7");
    assert_eq!(number_text(10), "10");
    assert_eq!(number_text(4_294_967_295), "4294967295");
    assert_eq!(numbered("MyCrane", 12), "MyCrane12");
}
