use mbei::codec::{encode_deltas, encode_edge, encode_grouped_match, hash_bytes};
use mbei::event::Deltas;
use mbei::graph::{Delta, DeltaType, Edge, Node};
use mbei::ordered::{OrderedMap, OrderedSet};
use mbei::query::{GroupedQueryMatch, QueryMatch};

fn edge(from: Option<u64>, to: Option<u64>) -> Edge {
    Edge {
        src: Node::material_instance_node("b", "B"),
        trg: Node::property_instance_node("p", "P", vec![7, 8]),
        edge_type: "At".to_string(),
        from_timestamp: from,
        to_timestamp: to,
    }
}

#[test]
fn an_edge_is_encoded_field_by_field() {
    let bytes = encode_edge(&edge(Some(3), None));
    let expected: Vec<u8> = vec![
        0, // no query-side name
        1, 1, b'b', // instance name
        1, 1, b'B', // type
        2, // material
        0, // no value
        0, // no query-side name
        1, 1, b'p', 1, 1, b'P', 3, // property
        1, 2, 7, 8, // value
        2, b'A', b't', // edge type
        1, 3, // from
        0, // open
    ];
    assert_eq!(bytes, expected);
}

#[test]
fn large_numbers_take_a_width_byte() {
    let small = encode_edge(&edge(Some(250), Some(251)));
    assert_eq!(&small[small.len() - 6..], &[1, 250, 1, 251, 251, 0]);
    let wide = encode_edge(&edge(Some(65_536), Some(u64::MAX)));
    assert_eq!(
        &wide[wide.len() - 16..],
        &[1, 252, 0, 0, 1, 0, 1, 253, 255, 255, 255, 255, 255, 255, 255, 255]
    );
}

#[test]
fn a_package_is_encoded_with_its_deltas_in_order() {
    let later = Delta {
        src: Node::material_instance_node("b", "B"),
        trg: Node::object_instance_node("o", "O"),
        edge_type: "At".to_string(),
        timestamp: 9,
        delta_type: DeltaType::Removal,
    };
    let earlier = Delta { timestamp: 2, delta_type: DeltaType::Addition, ..later.clone() };
    let one = Deltas {
        deltas_id: "d".to_string(),
        origin_id: "o".to_string(),
        origin_timestamp: 300,
        deltas: OrderedSet::from_vec(vec![later.clone(), earlier.clone()]),
    };
    let other = Deltas { deltas: OrderedSet::from_vec(vec![earlier, later]), ..one.clone() };
    let bytes = encode_deltas(&one);
    assert_eq!(bytes, encode_deltas(&other));
    assert_eq!(&bytes[..8], &[1, b'd', 1, b'o', 251, 44, 1, 2]);
    assert_eq!(bytes[bytes.len() - 2..], [9, 1]);
    assert_eq!(one.stable_hash(), other.stable_hash());
    assert_eq!(one.stable_hash(), hash_bytes(&bytes));
}

#[test]
fn the_hash_of_a_match_does_not_depend_on_how_it_was_put_together() {
    let a = edge(None, None);
    let b = Edge { edge_type: "Has".to_string(), ..edge(None, None) };
    let image = edge(Some(1), None);
    let mut first = QueryMatch { homomorphism: OrderedMap::new() };
    first.homomorphism.insert(a.clone(), Some(image.clone()));
    first.homomorphism.insert(b.clone(), None);
    let mut second = QueryMatch { homomorphism: OrderedMap::new() };
    second.homomorphism.insert(b.clone(), None);
    second.homomorphism.insert(a.clone(), Some(image.clone()));
    let one = GroupedQueryMatch { grouped_matches: vec![first] };
    let other = GroupedQueryMatch { grouped_matches: vec![second] };
    assert_eq!(encode_grouped_match(&one), encode_grouped_match(&other));
    assert_eq!(one.stable_hash(), other.stable_hash());
    let mut third = QueryMatch { homomorphism: OrderedMap::new() };
    third.homomorphism.insert(a, None);
    third.homomorphism.insert(b, None);
    let different = GroupedQueryMatch { grouped_matches: vec![third] };
    assert_ne!(one.stable_hash(), different.stable_hash());
    assert_eq!(a_hash_of_nothing(), hash_bytes(&vec![]));
    assert_ne!(hash_bytes(&vec![0]), hash_bytes(&vec![]));
}

fn a_hash_of_nothing() -> u64 {
    hash_bytes(&Vec::new())
}

#[test]
fn an_edge_has_a_stable_hash() {
    let e = edge(Some(3), None);
    assert_eq!(e.stable_hash(), hash_bytes(&encode_edge(&e)));
    assert_ne!(e.stable_hash(), edge(Some(4), None).stable_hash());
}
