//! A factory as a test scenario: cranes that pick barrels up and drop them,
//! stamp assemblies, detectors and conveyors, with the queries of their
//! components.

use crate::graph::{Edge, EdgeView, Graph, Node, NodeClass, NodeView};
use crate::order::Value;
use crate::ordered::{as_map, has_key, keys_of, strictly_sorted, value_of, OrderedMap, OrderedSet};
use crate::query::{
    is_matched_query, GroupedQueryMatch, MatchEntries, Query, QueryMatch, QueryView,
};
use crate::text::{decimal, numbered};
use vstd::prelude::*;
use vstd::string::StringExecFns;

verus! {

/// A node of the instance graph.
pub open spec fn instance_view(name: Seq<char>, node_type: Seq<char>, class: NodeClass) -> NodeView {
    NodeView {
        query_node_name: None,
        instance_node_name: Some(name),
        node_type: Some(node_type),
        node_class: class,
        value_bytes: None,
    }
}

/// A node of a query pattern.
pub open spec fn query_view(name: Seq<char>, node_type: Seq<char>, class: NodeClass) -> NodeView {
    NodeView {
        query_node_name: Some(name),
        instance_node_name: None,
        node_type: Some(node_type),
        node_class: class,
        value_bytes: None,
    }
}

/// An edge without times.
pub open spec fn bare_edge(src: NodeView, trg: NodeView, edge_type: Seq<char>) -> EdgeView {
    EdgeView { src, trg, edge_type, from_timestamp: None, to_timestamp: None }
}

/// The nodes of a numbered list: the `i`-th has the name made of a prefix,
/// `i` in decimal and a suffix.
pub open spec fn numbered_nodes(
    n: nat,
    prefix: Seq<char>,
    suffix: Seq<char>,
    node_type: Seq<char>,
    class: NodeClass,
) -> Seq<NodeView> {
    Seq::new(n, |i: int| instance_view(prefix + decimal(i as nat) + suffix, node_type, class))
}

fn numbered_name(prefix: &str, i: u32, suffix: &str) -> (r: String)
    ensures
        r@ == prefix@ + decimal(i as nat) + suffix@,
{
    let mut s = numbered(prefix, i);
    s.append(suffix);
    s
}

/// The cranes of a factory.
pub fn cranes(n: u32) -> (r: Vec<Node>)
    ensures
        r.deep_view() == numbered_nodes(n as nat, "MyCrane"@, ""@, "Crane"@, NodeClass::Object),
        r@.len() == n,
        all_named(r.deep_view()),
{
    let mut nodes: Vec<Node> = Vec::new();
    let ghost want = numbered_nodes(n as nat, "MyCrane"@, ""@, "Crane"@, NodeClass::Object);
    let mut i: u32 = 0;
    while i < n
        invariant
            i <= n,
            want == numbered_nodes(n as nat, "MyCrane"@, ""@, "Crane"@, NodeClass::Object),
            nodes.deep_view() == want.take(i as int),
        decreases n - i,
    {
        let name = numbered_name("MyCrane", i, "");
        let ghost prev = nodes.deep_view();
        nodes.push(Node::object_instance_node(name.as_str(), "Crane"));
        proof {
            assert(nodes.deep_view() =~= prev.push(want[i as int]));
            assert(want.take(i + 1) =~= want.take(i as int).push(want[i as int]));
        }
        i = i + 1;
    }
    assert(want.take(n as int) =~= want);
    assert(nodes.deep_view().len() == nodes@.len());
    nodes
}

/// The nodes at which the events of the cranes arrive.
pub fn crane_pickdrops(n: u32) -> (r: Vec<Node>)
    ensures
        r.deep_view() == numbered_nodes(n as nat, "MyCrane"@, ".PickDrop"@, "PickDrop"@, NodeClass::Event),
        r@.len() == n,
        all_named(r.deep_view()),
{
    let mut nodes: Vec<Node> = Vec::new();
    let ghost want = numbered_nodes(n as nat, "MyCrane"@, ".PickDrop"@, "PickDrop"@, NodeClass::Event);
    let mut i: u32 = 0;
    while i < n
        invariant
            i <= n,
            want == numbered_nodes(n as nat, "MyCrane"@, ".PickDrop"@, "PickDrop"@, NodeClass::Event),
            nodes.deep_view() == want.take(i as int),
        decreases n - i,
    {
        let name = numbered_name("MyCrane", i, ".PickDrop");
        let ghost prev = nodes.deep_view();
        nodes.push(Node::event_instance_node(name.as_str(), "PickDrop"));
        proof {
            assert(nodes.deep_view() =~= prev.push(want[i as int]));
            assert(want.take(i + 1) =~= want.take(i as int).push(want[i as int]));
        }
        i = i + 1;
    }
    assert(want.take(n as int) =~= want);
    assert(nodes.deep_view().len() == nodes@.len());
    nodes
}

/// The barrels of a factory.
pub fn barrels(n: u32) -> (r: Vec<Node>)
    ensures
        r.deep_view() == numbered_nodes(n as nat, "MyBarrel"@, ""@, "Barrel"@, NodeClass::Material),
        r@.len() == n,
        all_named(r.deep_view()),
{
    let mut nodes: Vec<Node> = Vec::new();
    let ghost want = numbered_nodes(n as nat, "MyBarrel"@, ""@, "Barrel"@, NodeClass::Material);
    let mut i: u32 = 0;
    while i < n
        invariant
            i <= n,
            want == numbered_nodes(n as nat, "MyBarrel"@, ""@, "Barrel"@, NodeClass::Material),
            nodes.deep_view() == want.take(i as int),
        decreases n - i,
    {
        let name = numbered_name("MyBarrel", i, "");
        let ghost prev = nodes.deep_view();
        nodes.push(Node::material_instance_node(name.as_str(), "Barrel"));
        proof {
            assert(nodes.deep_view() =~= prev.push(want[i as int]));
            assert(want.take(i + 1) =~= want.take(i as int).push(want[i as int]));
        }
        i = i + 1;
    }
    assert(want.take(n as int) =~= want);
    assert(nodes.deep_view().len() == nodes@.len());
    nodes
}

/// The nodes at which the events of the stamp assemblies arrive.
pub fn stamps(n: u32) -> (r: Vec<Node>)
    ensures
        r.deep_view() == numbered_nodes(n as nat, "MyStamp"@, ""@, "Stamp"@, NodeClass::Event),
        r@.len() == n,
        all_named(r.deep_view()),
{
    let mut nodes: Vec<Node> = Vec::new();
    let ghost want = numbered_nodes(n as nat, "MyStamp"@, ""@, "Stamp"@, NodeClass::Event);
    let mut i: u32 = 0;
    while i < n
        invariant
            i <= n,
            want == numbered_nodes(n as nat, "MyStamp"@, ""@, "Stamp"@, NodeClass::Event),
            nodes.deep_view() == want.take(i as int),
        decreases n - i,
    {
        let name = numbered_name("MyStamp", i, "");
        let ghost prev = nodes.deep_view();
        nodes.push(Node::event_instance_node(name.as_str(), "Stamp"));
        proof {
            assert(nodes.deep_view() =~= prev.push(want[i as int]));
            assert(want.take(i + 1) =~= want.take(i as int).push(want[i as int]));
        }
        i = i + 1;
    }
    assert(want.take(n as int) =~= want);
    assert(nodes.deep_view().len() == nodes@.len());
    nodes
}

/// The stamp assemblies of a factory.
pub fn stamp_assemblies(n: u32) -> (r: Vec<Node>)
    ensures
        r.deep_view() == numbered_nodes(n as nat, "MyStampAssembly"@, ""@, "StampAssembly"@, NodeClass::Object),
        r@.len() == n,
        all_named(r.deep_view()),
{
    let mut nodes: Vec<Node> = Vec::new();
    let ghost want = numbered_nodes(n as nat, "MyStampAssembly"@, ""@, "StampAssembly"@, NodeClass::Object);
    let mut i: u32 = 0;
    while i < n
        invariant
            i <= n,
            want == numbered_nodes(n as nat, "MyStampAssembly"@, ""@, "StampAssembly"@, NodeClass::Object),
            nodes.deep_view() == want.take(i as int),
        decreases n - i,
    {
        let name = numbered_name("MyStampAssembly", i, "");
        let ghost prev = nodes.deep_view();
        nodes.push(Node::object_instance_node(name.as_str(), "StampAssembly"));
        proof {
            assert(nodes.deep_view() =~= prev.push(want[i as int]));
            assert(want.take(i + 1) =~= want.take(i as int).push(want[i as int]));
        }
        i = i + 1;
    }
    assert(want.take(n as int) =~= want);
    assert(nodes.deep_view().len() == nodes@.len());
    nodes
}

/// The platforms of a factory.
pub fn platforms(n: u32) -> (r: Vec<Node>)
    ensures
        r.deep_view() == numbered_nodes(n as nat, "MyPlatform"@, ""@, "Platform"@, NodeClass::Object),
        r@.len() == n,
        all_named(r.deep_view()),
{
    let mut nodes: Vec<Node> = Vec::new();
    let ghost want = numbered_nodes(n as nat, "MyPlatform"@, ""@, "Platform"@, NodeClass::Object);
    let mut i: u32 = 0;
    while i < n
        invariant
            i <= n,
            want == numbered_nodes(n as nat, "MyPlatform"@, ""@, "Platform"@, NodeClass::Object),
            nodes.deep_view() == want.take(i as int),
        decreases n - i,
    {
        let name = numbered_name("MyPlatform", i, "");
        let ghost prev = nodes.deep_view();
        nodes.push(Node::object_instance_node(name.as_str(), "Platform"));
        proof {
            assert(nodes.deep_view() =~= prev.push(want[i as int]));
            assert(want.take(i + 1) =~= want.take(i as int).push(want[i as int]));
        }
        i = i + 1;
    }
    assert(want.take(n as int) =~= want);
    assert(nodes.deep_view().len() == nodes@.len());
    nodes
}

/// The nodes at which the events of the detectors arrive.
pub fn detectors(n: u32) -> (r: Vec<Node>)
    ensures
        r.deep_view() == numbered_nodes(n as nat, "MyDetector"@, ""@, "Detector"@, NodeClass::Event),
        r@.len() == n,
        all_named(r.deep_view()),
{
    let mut nodes: Vec<Node> = Vec::new();
    let ghost want = numbered_nodes(n as nat, "MyDetector"@, ""@, "Detector"@, NodeClass::Event);
    let mut i: u32 = 0;
    while i < n
        invariant
            i <= n,
            want == numbered_nodes(n as nat, "MyDetector"@, ""@, "Detector"@, NodeClass::Event),
            nodes.deep_view() == want.take(i as int),
        decreases n - i,
    {
        let name = numbered_name("MyDetector", i, "");
        let ghost prev = nodes.deep_view();
        nodes.push(Node::event_instance_node(name.as_str(), "Detector"));
        proof {
            assert(nodes.deep_view() =~= prev.push(want[i as int]));
            assert(want.take(i + 1) =~= want.take(i as int).push(want[i as int]));
        }
        i = i + 1;
    }
    assert(want.take(n as int) =~= want);
    assert(nodes.deep_view().len() == nodes@.len());
    nodes
}

/// The conveyors of a factory.
pub fn conveyors(n: u32) -> (r: Vec<Node>)
    ensures
        r.deep_view() == numbered_nodes(n as nat, "MyConveyor"@, ""@, "Conveyor"@, NodeClass::Object),
        r@.len() == n,
        all_named(r.deep_view()),
{
    let mut nodes: Vec<Node> = Vec::new();
    let ghost want = numbered_nodes(n as nat, "MyConveyor"@, ""@, "Conveyor"@, NodeClass::Object);
    let mut i: u32 = 0;
    while i < n
        invariant
            i <= n,
            want == numbered_nodes(n as nat, "MyConveyor"@, ""@, "Conveyor"@, NodeClass::Object),
            nodes.deep_view() == want.take(i as int),
        decreases n - i,
    {
        let name = numbered_name("MyConveyor", i, "");
        let ghost prev = nodes.deep_view();
        nodes.push(Node::object_instance_node(name.as_str(), "Conveyor"));
        proof {
            assert(nodes.deep_view() =~= prev.push(want[i as int]));
            assert(want.take(i + 1) =~= want.take(i as int).push(want[i as int]));
        }
        i = i + 1;
    }
    assert(want.take(n as int) =~= want);
    assert(nodes.deep_view().len() == nodes@.len());
    nodes
}

/// The nodes at which the events of the conveyors arrive.
pub fn conveyor_events(n: u32) -> (r: Vec<Node>)
    ensures
        r.deep_view() == numbered_nodes(n as nat, "MyConveyorEvent"@, ""@, "ConveyorEvent"@, NodeClass::Object),
        r@.len() == n,
        all_named(r.deep_view()),
{
    let mut nodes: Vec<Node> = Vec::new();
    let ghost want = numbered_nodes(n as nat, "MyConveyorEvent"@, ""@, "ConveyorEvent"@, NodeClass::Object);
    let mut i: u32 = 0;
    while i < n
        invariant
            i <= n,
            want == numbered_nodes(n as nat, "MyConveyorEvent"@, ""@, "ConveyorEvent"@, NodeClass::Object),
            nodes.deep_view() == want.take(i as int),
        decreases n - i,
    {
        let name = numbered_name("MyConveyorEvent", i, "");
        let ghost prev = nodes.deep_view();
        nodes.push(Node::object_instance_node(name.as_str(), "ConveyorEvent"));
        proof {
            assert(nodes.deep_view() =~= prev.push(want[i as int]));
            assert(want.take(i + 1) =~= want.take(i as int).push(want[i as int]));
        }
        i = i + 1;
    }
    assert(want.take(n as int) =~= want);
    assert(nodes.deep_view().len() == nodes@.len());
    nodes
}

/// The ramps of a factory.
pub fn ramps(n: u32) -> (r: Vec<Node>)
    ensures
        r.deep_view() == numbered_nodes(n as nat, "MyRamp"@, ""@, "Ramp"@, NodeClass::Object),
        r@.len() == n,
        all_named(r.deep_view()),
{
    let mut nodes: Vec<Node> = Vec::new();
    let ghost want = numbered_nodes(n as nat, "MyRamp"@, ""@, "Ramp"@, NodeClass::Object);
    let mut i: u32 = 0;
    while i < n
        invariant
            i <= n,
            want == numbered_nodes(n as nat, "MyRamp"@, ""@, "Ramp"@, NodeClass::Object),
            nodes.deep_view() == want.take(i as int),
        decreases n - i,
    {
        let name = numbered_name("MyRamp", i, "");
        let ghost prev = nodes.deep_view();
        nodes.push(Node::object_instance_node(name.as_str(), "Ramp"));
        proof {
            assert(nodes.deep_view() =~= prev.push(want[i as int]));
            assert(want.take(i + 1) =~= want.take(i as int).push(want[i as int]));
        }
        i = i + 1;
    }
    assert(want.take(n as int) =~= want);
    assert(nodes.deep_view().len() == nodes@.len());
    nodes
}

/// A query with given parts: its name and application, the edges of its
/// pattern in their order, and its optional edges, output edges, input
/// nodes and grouping nodes.
pub open spec fn is_pattern(
    q: QueryView,
    name: Seq<char>,
    edges: Seq<EdgeView>,
    optional_edges: Seq<EdgeView>,
    output_edges: Seq<EdgeView>,
    input_nodes: Seq<NodeView>,
    group: Seq<NodeView>,
) -> bool {
    &&& q.name == name
    &&& q.application == name
    &&& q.graph.edges == edges
    &&& crate::graph::is_adjacency(edges, as_map(q.graph.incoming), true)
    &&& crate::graph::is_adjacency(edges, as_map(q.graph.outgoing), false)
    &&& strictly_sorted::<Edge>(q.optional_edges)
    &&& strictly_sorted::<Edge>(q.output_edges)
    &&& strictly_sorted::<Node>(q.input_nodes)
    &&& strictly_sorted::<Node>(q.group)
    &&& q.optional_edges.to_set() == optional_edges.to_set()
    &&& q.output_edges.to_set() == output_edges.to_set()
    &&& q.input_nodes.to_set() == input_nodes.to_set()
    &&& q.group.to_set() == group.to_set()
}

/// The edges of the pattern of the pickdrop query.
pub open spec fn pickdrop_edges() -> Seq<EdgeView> {
    seq![bare_edge(query_view("oap"@, "ObjectAtPosition"@, NodeClass::Object), query_view("o"@, "Object"@, NodeClass::Object), "HasObject"@), bare_edge(query_view("c"@, "Crane"@, NodeClass::Object), query_view("oap"@, "ObjectAtPosition"@, NodeClass::Object), "HasObjectAtPosition"@), bare_edge(query_view("c"@, "Crane"@, NodeClass::Object), query_view("p"@, "Pickdrop"@, NodeClass::Event), "HasEvent"@), bare_edge(query_view("bc"@, "Barrel"@, NodeClass::Material), query_view("c"@, "Crane"@, NodeClass::Object), "At"@), bare_edge(query_view("bo"@, "Barrel"@, NodeClass::Material), query_view("o"@, "Object"@, NodeClass::Object), "At"@)]
}

/// Whether a query is that of a crane that picks a barrel up from an object at one of its positions, or drops it there.
pub open spec fn is_pickdrop_query(q: QueryView) -> bool {
    is_pattern(
        q,
        "pickdrop"@,
        pickdrop_edges(),
        seq![bare_edge(query_view("bo"@, "Barrel"@, NodeClass::Material), query_view("o"@, "Object"@, NodeClass::Object), "At"@), bare_edge(query_view("bc"@, "Barrel"@, NodeClass::Material), query_view("c"@, "Crane"@, NodeClass::Object), "At"@)],
        seq![bare_edge(query_view("bc"@, "Barrel"@, NodeClass::Material), query_view("c"@, "Crane"@, NodeClass::Object), "At"@), bare_edge(query_view("bo"@, "Barrel"@, NodeClass::Material), query_view("o"@, "Object"@, NodeClass::Object), "At"@)],
        seq![query_view("p"@, "Pickdrop"@, NodeClass::Event)],
        seq![query_view("c"@, "Crane"@, NodeClass::Object)],
    )
}

/// The query of a crane that picks a barrel up from an object at one of its positions, or drops it there.
pub fn pickdrop_query() -> (r: Query)
    ensures
        is_pickdrop_query(r@),
{
    let obj = Node::object_query_node("o", "Object");
    let obj_at_pos = Node::object_query_node("oap", "ObjectAtPosition");
    let crane = Node::object_query_node("c", "Crane");
    let pickdrop = Node::event_query_node("p", "Pickdrop");
    let barrel_obj = Node::material_query_node("bo", "Barrel");
    let barrel_crane = Node::material_query_node("bc", "Barrel");
    let edge_obj_pos = Edge::without_timestamp(obj_at_pos.dup(), obj.dup(), "HasObject");
    let edge_crane_obj = Edge::without_timestamp(crane.dup(), obj_at_pos.dup(), "HasObjectAtPosition");
    let edge_crane_pickdrop = Edge::without_timestamp(crane.dup(), pickdrop.dup(), "HasEvent");
    let edge_barrel_at_object = Edge::without_timestamp(barrel_obj.dup(), obj.dup(), "At");
    let edge_barrel_at_crane = Edge::without_timestamp(barrel_crane.dup(), crane.dup(), "At");
    let mut optional_edges_list: Vec<Edge> = Vec::new();
    optional_edges_list.push(edge_barrel_at_object.dup());
    optional_edges_list.push(edge_barrel_at_crane.dup());
    assert(optional_edges_list.deep_view() =~= seq![bare_edge(query_view("bo"@, "Barrel"@, NodeClass::Material), query_view("o"@, "Object"@, NodeClass::Object), "At"@), bare_edge(query_view("bc"@, "Barrel"@, NodeClass::Material), query_view("c"@, "Crane"@, NodeClass::Object), "At"@)]);
    let optional_edges = OrderedSet::from_vec(optional_edges_list);
    let mut output_edges_list: Vec<Edge> = Vec::new();
    output_edges_list.push(edge_barrel_at_crane.dup());
    output_edges_list.push(edge_barrel_at_object.dup());
    assert(output_edges_list.deep_view() =~= seq![bare_edge(query_view("bc"@, "Barrel"@, NodeClass::Material), query_view("c"@, "Crane"@, NodeClass::Object), "At"@), bare_edge(query_view("bo"@, "Barrel"@, NodeClass::Material), query_view("o"@, "Object"@, NodeClass::Object), "At"@)]);
    let output_edges = OrderedSet::from_vec(output_edges_list);
    let mut input_nodes_list: Vec<Node> = Vec::new();
    input_nodes_list.push(pickdrop.dup());
    assert(input_nodes_list.deep_view() =~= seq![query_view("p"@, "Pickdrop"@, NodeClass::Event)]);
    let input_nodes = OrderedSet::from_vec(input_nodes_list);
    let mut group_list: Vec<Node> = Vec::new();
    group_list.push(crane.dup());
    assert(group_list.deep_view() =~= seq![query_view("c"@, "Crane"@, NodeClass::Object)]);
    let group = OrderedSet::from_vec(group_list);
    let mut edges: Vec<Edge> = Vec::new();
    edges.push(edge_obj_pos.dup());
    edges.push(edge_crane_obj.dup());
    edges.push(edge_crane_pickdrop.dup());
    edges.push(edge_barrel_at_crane.dup());
    edges.push(edge_barrel_at_object.dup());
    assert(edges.deep_view() =~= pickdrop_edges());
    let query_graph = Graph::from_edges(edges);
    Query {
        name: "pickdrop".to_owned(),
        application: "pickdrop".to_owned(),
        graph: query_graph,
        optional_edges,
        group,
        output_edges,
        input_nodes,
    }
}

/// The edges of the pattern of the stamp query.
pub open spec fn stamp_edges() -> Seq<EdgeView> {
    seq![bare_edge(query_view("sa"@, "StampAssembly"@, NodeClass::Object), query_view("s"@, "Stamp"@, NodeClass::Event), "HasEvent"@), bare_edge(query_view("b"@, "Barrel"@, NodeClass::Material), query_view("sa"@, "StampAssembly"@, NodeClass::Object), "At"@)]
}

/// Whether a query is that of a stamp assembly that stamps the barrel that is at it.
pub open spec fn is_stamp_query(q: QueryView) -> bool {
    is_pattern(
        q,
        "stamp"@,
        stamp_edges(),
        Seq::<EdgeView>::empty(),
        seq![bare_edge(query_view("b"@, "Barrel"@, NodeClass::Material), query_view("bsd"@, "StampData"@, NodeClass::Property), "HasProperty"@)],
        seq![query_view("s"@, "Stamp"@, NodeClass::Event)],
        Seq::<NodeView>::empty(),
    )
}

/// The query of a stamp assembly that stamps the barrel that is at it.
pub fn stamp_query() -> (r: Query)
    ensures
        is_stamp_query(r@),
{
    let stamp_assembly = Node::object_query_node("sa", "StampAssembly");
    let stamp = Node::event_query_node("s", "Stamp");
    let barrel = Node::material_query_node("b", "Barrel");
    let output_stamp_data = Node::property_query_node("bsd", "StampData");
    let stamp_assembly_has_stamp = Edge::without_timestamp(stamp_assembly.dup(), stamp.dup(), "HasEvent");
    let barrel_at_stamp_assembly = Edge::without_timestamp(barrel.dup(), stamp_assembly.dup(), "At");
    let output_edge_barrel_has_stampdata = Edge::without_timestamp(barrel.dup(), output_stamp_data.dup(), "HasProperty");
    let mut optional_edges_list: Vec<Edge> = Vec::new();
    assert(optional_edges_list.deep_view() =~= Seq::<EdgeView>::empty());
    let optional_edges = OrderedSet::from_vec(optional_edges_list);
    let mut output_edges_list: Vec<Edge> = Vec::new();
    output_edges_list.push(output_edge_barrel_has_stampdata.dup());
    assert(output_edges_list.deep_view() =~= seq![bare_edge(query_view("b"@, "Barrel"@, NodeClass::Material), query_view("bsd"@, "StampData"@, NodeClass::Property), "HasProperty"@)]);
    let output_edges = OrderedSet::from_vec(output_edges_list);
    let mut input_nodes_list: Vec<Node> = Vec::new();
    input_nodes_list.push(stamp.dup());
    assert(input_nodes_list.deep_view() =~= seq![query_view("s"@, "Stamp"@, NodeClass::Event)]);
    let input_nodes = OrderedSet::from_vec(input_nodes_list);
    let mut group_list: Vec<Node> = Vec::new();
    assert(group_list.deep_view() =~= Seq::<NodeView>::empty());
    let group = OrderedSet::from_vec(group_list);
    let mut edges: Vec<Edge> = Vec::new();
    edges.push(stamp_assembly_has_stamp.dup());
    edges.push(barrel_at_stamp_assembly.dup());
    assert(edges.deep_view() =~= stamp_edges());
    let query_graph = Graph::from_edges(edges);
    Query {
        name: "stamp".to_owned(),
        application: "stamp".to_owned(),
        graph: query_graph,
        optional_edges,
        group,
        output_edges,
        input_nodes,
    }
}

/// The edges of the pattern of the conveyor query.
pub open spec fn conveyor_edges() -> Seq<EdgeView> {
    seq![bare_edge(query_view("c"@, "Conveyor"@, NodeClass::Object), query_view("e"@, "ConveyorEvent"@, NodeClass::Event), "HasEvent"@), bare_edge(query_view("c"@, "Conveyor"@, NodeClass::Object), query_view("p"@, "Ramp"@, NodeClass::Object), "HasPlasticRamp"@), bare_edge(query_view("b"@, "Barrel"@, NodeClass::Material), query_view("c"@, "Conveyor"@, NodeClass::Object), "At"@), bare_edge(query_view("b"@, "Barrel"@, NodeClass::Material), query_view("t"@, "BarrelMaterialType"@, NodeClass::Property), "HasMaterialType"@), bare_edge(query_view("c"@, "Conveyor"@, NodeClass::Object), query_view("m"@, "Ramp"@, NodeClass::Object), "HasMetalRamp"@)]
}

/// Whether a query is that of a conveyor that moves the barrel that is on it to the ramp for its material.
pub open spec fn is_conveyor_query(q: QueryView) -> bool {
    is_pattern(
        q,
        "conveyor"@,
        conveyor_edges(),
        Seq::<EdgeView>::empty(),
        seq![bare_edge(query_view("b"@, "Barrel"@, NodeClass::Material), query_view("c"@, "Conveyor"@, NodeClass::Object), "At"@), bare_edge(query_view("b"@, "Barrel"@, NodeClass::Material), query_view("p"@, "Ramp"@, NodeClass::Object), "At"@), bare_edge(query_view("b"@, "Barrel"@, NodeClass::Material), query_view("m"@, "Ramp"@, NodeClass::Object), "At"@)],
        seq![query_view("e"@, "ConveyorEvent"@, NodeClass::Event)],
        Seq::<NodeView>::empty(),
    )
}

/// The query of a conveyor that moves the barrel that is on it to the ramp for its material.
pub fn conveyor_query() -> (r: Query)
    ensures
        is_conveyor_query(r@),
{
    let conveyor = Node::object_query_node("c", "Conveyor");
    let conveyor_event = Node::event_query_node("e", "ConveyorEvent");
    let plastic_ramp = Node::object_query_node("p", "Ramp");
    let metal_ramp = Node::object_query_node("m", "Ramp");
    let barrel = Node::material_query_node("b", "Barrel");
    let barrel_material_type = Node::property_query_node("t", "BarrelMaterialType");
    let conveyor_has_conveyor_event = Edge::without_timestamp(conveyor.dup(), conveyor_event.dup(), "HasEvent");
    let conveyor_has_plastic_ramp = Edge::without_timestamp(conveyor.dup(), plastic_ramp.dup(), "HasPlasticRamp");
    let conveyor_has_metal_ramp = Edge::without_timestamp(conveyor.dup(), metal_ramp.dup(), "HasMetalRamp");
    let barrel_has_material_type = Edge::without_timestamp(barrel.dup(), barrel_material_type.dup(), "HasMaterialType");
    let barrel_at_conveyor = Edge::without_timestamp(barrel.dup(), conveyor.dup(), "At");
    let barrel_at_plastic_ramp = Edge::without_timestamp(barrel.dup(), plastic_ramp.dup(), "At");
    let barrel_at_metal_ramp = Edge::without_timestamp(barrel.dup(), metal_ramp.dup(), "At");
    let mut optional_edges_list: Vec<Edge> = Vec::new();
    assert(optional_edges_list.deep_view() =~= Seq::<EdgeView>::empty());
    let optional_edges = OrderedSet::from_vec(optional_edges_list);
    let mut output_edges_list: Vec<Edge> = Vec::new();
    output_edges_list.push(barrel_at_conveyor.dup());
    output_edges_list.push(barrel_at_plastic_ramp.dup());
    output_edges_list.push(barrel_at_metal_ramp.dup());
    assert(output_edges_list.deep_view() =~= seq![bare_edge(query_view("b"@, "Barrel"@, NodeClass::Material), query_view("c"@, "Conveyor"@, NodeClass::Object), "At"@), bare_edge(query_view("b"@, "Barrel"@, NodeClass::Material), query_view("p"@, "Ramp"@, NodeClass::Object), "At"@), bare_edge(query_view("b"@, "Barrel"@, NodeClass::Material), query_view("m"@, "Ramp"@, NodeClass::Object), "At"@)]);
    let output_edges = OrderedSet::from_vec(output_edges_list);
    let mut input_nodes_list: Vec<Node> = Vec::new();
    input_nodes_list.push(conveyor_event.dup());
    assert(input_nodes_list.deep_view() =~= seq![query_view("e"@, "ConveyorEvent"@, NodeClass::Event)]);
    let input_nodes = OrderedSet::from_vec(input_nodes_list);
    let mut group_list: Vec<Node> = Vec::new();
    assert(group_list.deep_view() =~= Seq::<NodeView>::empty());
    let group = OrderedSet::from_vec(group_list);
    let mut edges: Vec<Edge> = Vec::new();
    edges.push(conveyor_has_conveyor_event.dup());
    edges.push(conveyor_has_plastic_ramp.dup());
    edges.push(barrel_at_conveyor.dup());
    edges.push(barrel_has_material_type.dup());
    edges.push(conveyor_has_metal_ramp.dup());
    assert(edges.deep_view() =~= conveyor_edges());
    let query_graph = Graph::from_edges(edges);
    Query {
        name: "conveyor".to_owned(),
        application: "conveyor".to_owned(),
        graph: query_graph,
        optional_edges,
        group,
        output_edges,
        input_nodes,
    }
}

/// The edges of the pattern of the detector query.
pub open spec fn detector_edges() -> Seq<EdgeView> {
    seq![bare_edge(query_view("p"@, "Platform"@, NodeClass::Object), query_view("d"@, "Detector"@, NodeClass::Event), "HasEvent"@), bare_edge(query_view("b"@, "Barrel"@, NodeClass::Material), query_view("p"@, "Platform"@, NodeClass::Object), "At"@)]
}

/// Whether a query is that of a detector that tells the material of the barrel that is on its platform.
pub open spec fn is_detector_query(q: QueryView) -> bool {
    is_pattern(
        q,
        "detector"@,
        detector_edges(),
        Seq::<EdgeView>::empty(),
        seq![bare_edge(query_view("b"@, "Barrel"@, NodeClass::Material), query_view("bmt"@, "BarrelMaterialType"@, NodeClass::Property), "HasMaterialType"@)],
        seq![query_view("d"@, "Detector"@, NodeClass::Event)],
        Seq::<NodeView>::empty(),
    )
}

/// The query of a detector that tells the material of the barrel that is on its platform.
pub fn detector_query() -> (r: Query)
    ensures
        is_detector_query(r@),
{
    let platform = Node::object_query_node("p", "Platform");
    let detector = Node::event_query_node("d", "Detector");
    let barrel = Node::material_query_node("b", "Barrel");
    let output_material_type = Node::property_query_node("bmt", "BarrelMaterialType");
    let platform_has_detector = Edge::without_timestamp(platform.dup(), detector.dup(), "HasEvent");
    let barrel_at_platform = Edge::without_timestamp(barrel.dup(), platform.dup(), "At");
    let output_edge_barrel_has_material_type = Edge::without_timestamp(barrel.dup(), output_material_type.dup(), "HasMaterialType");
    let mut optional_edges_list: Vec<Edge> = Vec::new();
    assert(optional_edges_list.deep_view() =~= Seq::<EdgeView>::empty());
    let optional_edges = OrderedSet::from_vec(optional_edges_list);
    let mut output_edges_list: Vec<Edge> = Vec::new();
    output_edges_list.push(output_edge_barrel_has_material_type.dup());
    assert(output_edges_list.deep_view() =~= seq![bare_edge(query_view("b"@, "Barrel"@, NodeClass::Material), query_view("bmt"@, "BarrelMaterialType"@, NodeClass::Property), "HasMaterialType"@)]);
    let output_edges = OrderedSet::from_vec(output_edges_list);
    let mut input_nodes_list: Vec<Node> = Vec::new();
    input_nodes_list.push(detector.dup());
    assert(input_nodes_list.deep_view() =~= seq![query_view("d"@, "Detector"@, NodeClass::Event)]);
    let input_nodes = OrderedSet::from_vec(input_nodes_list);
    let mut group_list: Vec<Node> = Vec::new();
    assert(group_list.deep_view() =~= Seq::<NodeView>::empty());
    let group = OrderedSet::from_vec(group_list);
    let mut edges: Vec<Edge> = Vec::new();
    edges.push(platform_has_detector.dup());
    edges.push(barrel_at_platform.dup());
    assert(edges.deep_view() =~= detector_edges());
    let query_graph = Graph::from_edges(edges);
    Query {
        name: "detector".to_owned(),
        application: "detector".to_owned(),
        graph: query_graph,
        optional_edges,
        group,
        output_edges,
        input_nodes,
    }
}

/// A small factory: two cranes between three platforms and three stamp assemblies, and a ramp.
#[derive(Debug)]
pub struct SimpleFactoryScenario {
    pub cranes: Vec<Node>,
    pub crane_pickdrops: Vec<Node>,
    pub platforms: Vec<Node>,
    pub ramps: Vec<Node>,
    pub stamp_assemblies: Vec<Node>,
    pub stamps: Vec<Node>,
    pub queries: Vec<Query>,
}

/// What a small factory holds.
pub struct SimpleFactoryScenarioView {
    pub cranes: Seq<NodeView>,
    pub crane_pickdrops: Seq<NodeView>,
    pub platforms: Seq<NodeView>,
    pub ramps: Seq<NodeView>,
    pub stamp_assemblies: Seq<NodeView>,
    pub stamps: Seq<NodeView>,
    pub queries: Seq<QueryView>,
}

impl DeepView for SimpleFactoryScenario {
    type V = SimpleFactoryScenarioView;

    open spec fn deep_view(&self) -> SimpleFactoryScenarioView {
        SimpleFactoryScenarioView {
            cranes: self.cranes.deep_view(),
            crane_pickdrops: self.crane_pickdrops.deep_view(),
            platforms: self.platforms.deep_view(),
            ramps: self.ramps.deep_view(),
            stamp_assemblies: self.stamp_assemblies.deep_view(),
            stamps: self.stamps.deep_view(),
            queries: self.queries.deep_view(),
        }
    }
}

impl View for SimpleFactoryScenario {
    type V = SimpleFactoryScenarioView;

    open spec fn view(&self) -> SimpleFactoryScenarioView {
        self.deep_view()
    }
}

impl Value for SimpleFactoryScenario {
    fn dup(&self) -> (r: Self) {
        SimpleFactoryScenario {
            cranes: self.cranes.dup(),
            crane_pickdrops: self.crane_pickdrops.dup(),
            platforms: self.platforms.dup(),
            ramps: self.ramps.dup(),
            stamp_assemblies: self.stamp_assemblies.dup(),
            stamps: self.stamps.dup(),
            queries: self.queries.dup(),
        }
    }
}

impl Clone for SimpleFactoryScenario {
    fn clone(&self) -> (r: Self)
        ensures
            r@ == self@,
    {
        self.dup()
    }
}

/// A factory of a given size: cranes, platforms with detectors, stamp assemblies, and conveyors with a ramp for plastic and one for metal.
#[derive(Debug)]
pub struct ComplexFactoryScenario {
    pub cranes: Vec<Node>,
    pub crane_pickdrops: Vec<Node>,
    pub platforms: Vec<Node>,
    pub detectors: Vec<Node>,
    pub conveyors: Vec<Node>,
    pub conveyor_events: Vec<Node>,
    pub plastic_ramps: Vec<Node>,
    pub metal_ramps: Vec<Node>,
    pub stamp_assemblies: Vec<Node>,
    pub stamps: Vec<Node>,
    pub pickdrop_queries: Vec<Query>,
    pub stamp_queries: Vec<Query>,
    pub detector_queries: Vec<Query>,
    pub conveyor_queries: Vec<Query>,
}

/// What a factory of a given size holds.
pub struct ComplexFactoryScenarioView {
    pub cranes: Seq<NodeView>,
    pub crane_pickdrops: Seq<NodeView>,
    pub platforms: Seq<NodeView>,
    pub detectors: Seq<NodeView>,
    pub conveyors: Seq<NodeView>,
    pub conveyor_events: Seq<NodeView>,
    pub plastic_ramps: Seq<NodeView>,
    pub metal_ramps: Seq<NodeView>,
    pub stamp_assemblies: Seq<NodeView>,
    pub stamps: Seq<NodeView>,
    pub pickdrop_queries: Seq<QueryView>,
    pub stamp_queries: Seq<QueryView>,
    pub detector_queries: Seq<QueryView>,
    pub conveyor_queries: Seq<QueryView>,
}

impl DeepView for ComplexFactoryScenario {
    type V = ComplexFactoryScenarioView;

    open spec fn deep_view(&self) -> ComplexFactoryScenarioView {
        ComplexFactoryScenarioView {
            cranes: self.cranes.deep_view(),
            crane_pickdrops: self.crane_pickdrops.deep_view(),
            platforms: self.platforms.deep_view(),
            detectors: self.detectors.deep_view(),
            conveyors: self.conveyors.deep_view(),
            conveyor_events: self.conveyor_events.deep_view(),
            plastic_ramps: self.plastic_ramps.deep_view(),
            metal_ramps: self.metal_ramps.deep_view(),
            stamp_assemblies: self.stamp_assemblies.deep_view(),
            stamps: self.stamps.deep_view(),
            pickdrop_queries: self.pickdrop_queries.deep_view(),
            stamp_queries: self.stamp_queries.deep_view(),
            detector_queries: self.detector_queries.deep_view(),
            conveyor_queries: self.conveyor_queries.deep_view(),
        }
    }
}

impl View for ComplexFactoryScenario {
    type V = ComplexFactoryScenarioView;

    open spec fn view(&self) -> ComplexFactoryScenarioView {
        self.deep_view()
    }
}

impl Value for ComplexFactoryScenario {
    fn dup(&self) -> (r: Self) {
        ComplexFactoryScenario {
            cranes: self.cranes.dup(),
            crane_pickdrops: self.crane_pickdrops.dup(),
            platforms: self.platforms.dup(),
            detectors: self.detectors.dup(),
            conveyors: self.conveyors.dup(),
            conveyor_events: self.conveyor_events.dup(),
            plastic_ramps: self.plastic_ramps.dup(),
            metal_ramps: self.metal_ramps.dup(),
            stamp_assemblies: self.stamp_assemblies.dup(),
            stamps: self.stamps.dup(),
            pickdrop_queries: self.pickdrop_queries.dup(),
            stamp_queries: self.stamp_queries.dup(),
            detector_queries: self.detector_queries.dup(),
            conveyor_queries: self.conveyor_queries.dup(),
        }
    }
}

impl Clone for ComplexFactoryScenario {
    fn clone(&self) -> (r: Self)
        ensures
            r@ == self@,
    {
        self.dup()
    }
}

impl ComplexFactoryScenario {
    /// All queries of the factory: those of the conveyors, of the stamp
    /// assemblies, of the detectors and of the cranes.
    pub fn all_queries(&self) -> (r: Vec<Query>)
        ensures
            r.deep_view() == self@.conveyor_queries + self@.stamp_queries + self@.detector_queries
                + self@.pickdrop_queries,
    {
        let mut all_queries = self.conveyor_queries.dup();
        let mut stamp_queries = self.stamp_queries.dup();
        let mut detector_queries = self.detector_queries.dup();
        let mut pickdrop_queries = self.pickdrop_queries.dup();
        let ghost a = all_queries.deep_view();
        let ghost b = stamp_queries.deep_view();
        let ghost c = detector_queries.deep_view();
        let ghost d = pickdrop_queries.deep_view();
        all_queries.append(&mut stamp_queries);
        assert(all_queries.deep_view() =~= a + b);
        all_queries.append(&mut detector_queries);
        assert(all_queries.deep_view() =~= a + b + c);
        all_queries.append(&mut pickdrop_queries);
        assert(all_queries.deep_view() =~= a + b + c + d);
        all_queries
    }
}

/// The edges of one type between the nodes of two lists, one for one.
pub fn edges_between_node_vectors(sources: &Vec<Node>, targets: &Vec<Node>, edge_type: &str) -> (r:
    Vec<Edge>)
    requires
        sources.len() == targets.len(),
    ensures
        r.deep_view() == Seq::new(
            sources.deep_view().len(),
            |i: int| bare_edge(sources.deep_view()[i], targets.deep_view()[i], edge_type@),
        ),
{
    let mut edges: Vec<Edge> = Vec::new();
    let ghost want = Seq::new(
        sources.deep_view().len(),
        |i: int| bare_edge(sources.deep_view()[i], targets.deep_view()[i], edge_type@),
    );
    let mut i: usize = 0;
    while i < sources.len()
        invariant
            i <= sources.len(),
            sources.len() == targets.len(),
            want == Seq::new(
                sources.deep_view().len(),
                |i: int| bare_edge(sources.deep_view()[i], targets.deep_view()[i], edge_type@),
            ),
            edges.deep_view() == want.take(i as int),
        decreases sources.len() - i,
    {
        let ghost prev = edges.deep_view();
        edges.push(Edge::without_timestamp(sources[i].dup(), targets[i].dup(), edge_type));
        proof {
            assert(edges.deep_view() =~= prev.push(want[i as int]));
            assert(want.take(i + 1) =~= want.take(i as int).push(want[i as int]));
        }
        i = i + 1;
    }
    assert(want.take(i as int) =~= want);
    edges
}

/// The position of an object: a node named after the object.
pub open spec fn position_of(o: NodeView) -> NodeView {
    instance_view(
        o.instance_node_name->0 + ".ObjectAtPosition"@,
        "ObjectAtPosition"@,
        NodeClass::Object,
    )
}

/// For each object its position, with the edge from the position to the
/// object.
pub fn objects_at_position(objects: Vec<Node>) -> (r: Vec<Edge>)
    requires
        forall|i: int|
            0 <= i < objects.deep_view().len() ==> (
            #[trigger] objects.deep_view()[i]).instance_node_name is Some,
    ensures
        r.deep_view() == Seq::new(
            objects.deep_view().len(),
            |i: int|
                bare_edge(position_of(objects.deep_view()[i]), objects.deep_view()[i], "HasObject"@),
        ),
        r@.len() == objects@.len(),
{
    let mut edges: Vec<Edge> = Vec::new();
    let ghost ov = objects.deep_view();
    let ghost want = Seq::new(ov.len(), |i: int| bare_edge(position_of(ov[i]), ov[i], "HasObject"@));
    let mut i: usize = 0;
    while i < objects.len()
        invariant
            i <= objects.len(),
            ov == objects.deep_view(),
            forall|k: int| 0 <= k < ov.len() ==> (#[trigger] ov[k]).instance_node_name is Some,
            want == Seq::new(ov.len(), |i: int| bare_edge(position_of(ov[i]), ov[i], "HasObject"@)),
            edges.deep_view() == want.take(i as int),
        decreases objects.len() - i,
    {
        let o = &objects[i];
        assert(ov[i as int] == o@);
        let mut name = match &o.instance_node_name {
            Some(n) => n.dup(),
            None => String::new(),
        };
        name.append(".ObjectAtPosition");
        let at_posn_node = Node::object_instance_node(name.as_str(), "ObjectAtPosition");
        let ghost prev = edges.deep_view();
        edges.push(
            Edge {
                src: at_posn_node,
                trg: o.dup(),
                edge_type: "HasObject".to_owned(),
                from_timestamp: None,
                to_timestamp: None,
            },
        );
        proof {
            assert(edges.deep_view() =~= prev.push(want[i as int]));
            assert(want.take(i + 1) =~= want.take(i as int).push(want[i as int]));
        }
        i = i + 1;
    }
    assert(want.take(i as int) =~= want);
    assert(edges.deep_view().len() == edges@.len());
    assert(ov.len() == objects@.len());
    edges
}

/// The image that a list of bindings gives an edge of a pattern: that of
/// the last binding of the edge.
pub open spec fn bound_to(edges: Seq<EdgeView>, bound: Seq<(int, EdgeView)>, e: EdgeView) -> Option<
    EdgeView,
>
    decreases bound.len(),
{
    if bound.len() == 0 {
        None
    } else if edges[bound.last().0] == e {
        Some(bound.last().1)
    } else {
        bound_to(edges, bound.drop_last(), e)
    }
}

/// A match that binds every edge of a pattern: those of the bindings to
/// their images, the others to nothing.
pub open spec fn is_bound_match(
    edges: Seq<EdgeView>,
    bound: Seq<(int, EdgeView)>,
    m: MatchEntries,
) -> bool {
    &&& strictly_sorted::<Edge>(keys_of(m))
    &&& forall|e: EdgeView| #[trigger] has_key(m, e) <==> edges.contains(e)
    &&& forall|e: EdgeView| #[trigger] has_key(m, e) ==> value_of(m, e) == bound_to(edges, bound, e)
}

/// The views of a list of bindings.
pub open spec fn bindings_view(bound: Seq<(usize, Edge)>) -> Seq<(int, EdgeView)> {
    Seq::new(bound.len(), |i: int| (bound[i].0 as int, bound[i].1@))
}

/// The match that binds some edges of a pattern to images and the others
/// to nothing.
fn bound_match(edges: &Vec<Edge>, bound: Vec<(usize, Edge)>) -> (r: QueryMatch)
    requires
        forall|i: int| 0 <= i < bound@.len() ==> (#[trigger] bound@[i]).0 < edges.len(),
    ensures
        is_bound_match(edges.deep_view(), bindings_view(bound@), r@),
{
    let ghost ev = edges.deep_view();
    let ghost bv = bindings_view(bound@);
    let mut homomorphism: OrderedMap<Edge, Option<Edge>> = OrderedMap::new();
    let mut i: usize = 0;
    proof {
        assert(keys_of(homomorphism@) =~= Seq::<EdgeView>::empty());
        assert(bv.take(0) =~= Seq::<(int, EdgeView)>::empty());
    }
    while i < bound.len()
        invariant
            i <= bound.len(),
            ev == edges.deep_view(),
            bv == bindings_view(bound@),
            forall|k: int| 0 <= k < bound@.len() ==> (#[trigger] bound@[k]).0 < edges.len(),
            strictly_sorted::<Edge>(keys_of(homomorphism@)),
            forall|e: EdgeView| #[trigger]
                has_key(homomorphism@, e) <==> bound_to(ev, bv.take(i as int), e) is Some,
            forall|e: EdgeView| #[trigger]
                has_key(homomorphism@, e) ==> value_of(homomorphism@, e) == bound_to(
                    ev,
                    bv.take(i as int),
                    e,
                ),
            forall|e: EdgeView| #[trigger] has_key(homomorphism@, e) ==> ev.contains(e),
        decreases bound.len() - i,
    {
        let ghost before = homomorphism@;
        let idx = bound[i].0;
        assert(bound@[i as int].0 < edges.len());
        homomorphism.insert(edges[idx].dup(), Some(bound[i].1.dup()));
        proof {
            let cur = bv.take(i + 1);
            assert(cur.drop_last() =~= bv.take(i as int));
            assert(cur.last() == bv[i as int]);
            let after = homomorphism@;
            assert(ev[idx as int] == edges[idx as int]@);
            assert forall|e: EdgeView| #[trigger] has_key(after, e) <==> bound_to(ev, cur, e)
                is Some by {
                assert(has_key(after, e) == as_map(after).dom().contains(e));
                assert(has_key(before, e) == as_map(before).dom().contains(e));
            }
            assert forall|e: EdgeView| #[trigger] has_key(after, e) implies value_of(after, e)
                == bound_to(ev, cur, e) && ev.contains(e) by {
                assert(has_key(after, e) == as_map(after).dom().contains(e));
                assert(has_key(before, e) == as_map(before).dom().contains(e));
                assert(value_of(after, e) == as_map(after)[e]);
                if e != ev[idx as int] {
                    assert(value_of(before, e) == as_map(before)[e]);
                }
            }
        }
        i = i + 1;
    }
    assert(bv.take(i as int) =~= bv);
    let mut k: usize = 0;
    while k < edges.len()
        invariant
            k <= edges.len(),
            ev == edges.deep_view(),
            strictly_sorted::<Edge>(keys_of(homomorphism@)),
            forall|e: EdgeView| #[trigger]
                has_key(homomorphism@, e) <==> (bound_to(ev, bv, e) is Some || ev.take(
                    k as int,
                ).contains(e)),
            forall|e: EdgeView| #[trigger]
                has_key(homomorphism@, e) ==> value_of(homomorphism@, e) == bound_to(ev, bv, e),
            forall|e: EdgeView| #[trigger] has_key(homomorphism@, e) ==> ev.contains(e),
        decreases edges.len() - k,
    {
        let e = &edges[k];
        let ghost before = homomorphism@;
        if !homomorphism.contains_key(e) {
            homomorphism.insert(e.dup(), None);
        }
        proof {
            let after = homomorphism@;
            let cur = ev.take(k + 1);
            assert(cur =~= ev.take(k as int).push(ev[k as int]));
            assert forall|x: EdgeView| cur.contains(x) == (ev.take(k as int).contains(x) || x
                == ev[k as int]) by {
                crate::ordered::lemma_insert_contains(ev.take(k as int), k as int, ev[k as int], x);
                assert(ev.take(k as int).insert(k as int, ev[k as int]) =~= cur);
            }
            assert forall|x: EdgeView| #[trigger] has_key(after, x) <==> (bound_to(ev, bv, x)
                is Some || cur.contains(x)) by {
                assert(has_key(after, x) == as_map(after).dom().contains(x));
                assert(has_key(before, x) == as_map(before).dom().contains(x));
            }
            assert forall|x: EdgeView| #[trigger] has_key(after, x) implies value_of(after, x)
                == bound_to(ev, bv, x) && ev.contains(x) by {
                assert(has_key(after, x) == as_map(after).dom().contains(x));
                assert(has_key(before, x) == as_map(before).dom().contains(x));
                assert(value_of(after, x) == as_map(after)[x]);
                if has_key(before, x) {
                    assert(value_of(before, x) == as_map(before)[x]);
                } else {
                    assert(x == ev[k as int]);
                    assert(ev.contains(ev[k as int]));
                }
            }
        }
        k = k + 1;
    }
    assert(ev.take(k as int) =~= ev);
    QueryMatch { homomorphism }
}

/// The matched query of a pattern for a group of matches that bind every
/// edge of the pattern: the edges of the given bindings to their images,
/// the others to nothing.
pub open spec fn is_matched_by(
    q: QueryView,
    bound: Seq<Seq<(int, EdgeView)>>,
    suffix: Seq<char>,
    r: QueryView,
) -> bool {
    exists|g: Seq<MatchEntries>|
        g.len() == bound.len() && (forall|i: int|
            0 <= i < g.len() ==> is_bound_match(q.graph.edges, bound[i], #[trigger] g[i]))
            && #[trigger] is_matched_query(q, g, suffix, r)
}

fn matched_by(query: &Query, bound: Vec<Vec<(usize, Edge)>>, suffix: &str) -> (r: Query)
    requires
        forall|i: int, j: int|
            0 <= i < bound@.len() && 0 <= j < bound@[i]@.len() ==> (#[trigger] bound@[i]@[j]).0
                < query@.graph.edges.len(),
    ensures
        is_matched_by(
            query@,
            Seq::new(bound@.len(), |i: int| bindings_view(bound@[i]@)),
            suffix@,
            r@,
        ),
{
    let ghost want = Seq::new(bound@.len(), |i: int| bindings_view(bound@[i]@));
    let mut matches: Vec<QueryMatch> = Vec::new();
    let mut i: usize = 0;
    while i < bound.len()
        invariant
            i <= bound.len(),
            want == Seq::new(bound@.len(), |i: int| bindings_view(bound@[i]@)),
            forall|a: int, b: int|
                0 <= a < bound@.len() && 0 <= b < bound@[a]@.len() ==> (#[trigger] bound@[a]@[b]).0
                    < query@.graph.edges.len(),
            matches@.len() == i,
            forall|k: int|
                0 <= k < i ==> is_bound_match(
                    query@.graph.edges,
                    want[k],
                    (#[trigger] matches@[k])@,
                ),
        decreases bound.len() - i,
    {
        let mut copy: Vec<(usize, Edge)> = Vec::new();
        let mut j: usize = 0;
        while j < bound[i].len()
            invariant
                j <= bound@[i as int]@.len(),
                i < bound.len(),
                copy@.len() == j,
                forall|k: int|
                    0 <= k < j ==> (#[trigger] copy@[k]).0 == bound@[i as int]@[k].0 && copy@[k].1@
                        == bound@[i as int]@[k].1@,
            decreases bound@[i as int]@.len() - j,
        {
            copy.push((bound[i][j].0, bound[i][j].1.dup()));
            j = j + 1;
        }
        proof {
            assert(bindings_view(copy@) =~= want[i as int]);
            assert forall|k: int| 0 <= k < copy@.len() implies (#[trigger] copy@[k]).0
                < query.graph.edges.len() by {
                assert(bound@[i as int]@[k].0 < query@.graph.edges.len());
            }
        }
        matches.push(bound_match(&query.graph.edges, copy));
        i = i + 1;
    }
    let grouped = GroupedQueryMatch { grouped_matches: matches };
    let ghost g = grouped@;
    let r = query.create_matched_query(grouped, suffix.to_owned());
    proof {
        assert(g.len() == want.len());
        assert forall|k: int| 0 <= k < g.len() implies is_bound_match(
            query@.graph.edges,
            want[k],
            #[trigger] g[k],
        ) by {}
        assert(is_matched_query(query@, g, suffix@, r@));
    }
    r
}

/// The bindings of the matches of a crane: for each object around it, its
/// event edge, the edge to the position of the object, and the edge from
/// the position to the object.
pub open spec fn pickdrop_bindings(crane: NodeView, pickdrop: NodeView, objects: Seq<NodeView>) -> Seq<
    Seq<(int, EdgeView)>,
> {
    Seq::new(
        objects.len(),
        |i: int|
            seq![
                (2int, bare_edge(crane, pickdrop, "HasEvent"@)),
                (1int, bare_edge(crane, position_of(objects[i]), "HasObjectAtPosition"@)),
                (0int, bare_edge(position_of(objects[i]), objects[i], "HasObject"@)),
            ],
    )
}

/// The query of a crane with the node of its events and the objects around
/// it: the matched query of the crane query for the matches that bind the
/// crane and, one for each, the objects with their positions.
pub fn matched_pickdrop_query(
    my_crane: Node,
    my_pickdrop: Node,
    surrounding_objects: Vec<Node>,
    suffix: &str,
) -> (r: Query)
    requires
        forall|i: int|
            0 <= i < surrounding_objects.deep_view().len() ==> (
            #[trigger] surrounding_objects.deep_view()[i]).instance_node_name is Some,
    ensures
        r@.name == "pickdrop"@ + suffix@,
        exists|q: QueryView|
            is_pickdrop_query(q) && #[trigger] is_matched_by(
                q,
                pickdrop_bindings(my_crane@, my_pickdrop@, surrounding_objects.deep_view()),
                suffix@,
                r@,
            ),
{
    let query = pickdrop_query();
    let ghost ov = surrounding_objects.deep_view();
    let ghost want = pickdrop_bindings(my_crane@, my_pickdrop@, ov);
    let my_crane_has_pickdrop = Edge::without_timestamp(my_crane.dup(), my_pickdrop.dup(), "HasEvent");
    let crane_objects_at_position = objects_at_position(surrounding_objects);
    let ghost pv = crane_objects_at_position.deep_view();
    assert(ov.len() == crane_objects_at_position@.len());
    let mut bound: Vec<Vec<(usize, Edge)>> = Vec::new();
    let mut i: usize = 0;
    while i < crane_objects_at_position.len()
        invariant
            i <= crane_objects_at_position.len(),
            pv == crane_objects_at_position.deep_view(),
            pv == Seq::new(ov.len(), |i: int| bare_edge(position_of(ov[i]), ov[i], "HasObject"@)),
            crane_objects_at_position@.len() == ov.len(),
            want == pickdrop_bindings(my_crane@, my_pickdrop@, ov),
            my_crane_has_pickdrop@ == bare_edge(my_crane@, my_pickdrop@, "HasEvent"@),
            bound@.len() == i,
            forall|k: int| 0 <= k < i ==> bindings_view((#[trigger] bound@[k])@) == want[k],
            forall|a: int, b: int|
                0 <= a < i && 0 <= b < bound@[a]@.len() ==> (#[trigger] bound@[a]@[b]).0 < 5,
        decreases crane_objects_at_position.len() - i,
    {
        let position = &crane_objects_at_position[i];
        assert(pv[i as int] == position@);
        let crane_has_position = Edge::without_timestamp(
            my_crane.dup(),
            position.src.dup(),
            "HasObjectAtPosition",
        );
        let mut one: Vec<(usize, Edge)> = Vec::new();
        one.push((2, my_crane_has_pickdrop.dup()));
        one.push((1, crane_has_position));
        one.push((0, position.dup()));
        assert(bindings_view(one@) =~= want[i as int]);
        bound.push(one);
        i = i + 1;
    }
    proof {
        assert(query@.graph.edges.len() == 5);
        assert(Seq::new(bound@.len(), |i: int| bindings_view(bound@[i]@)) =~= want);
    }
    let r = matched_by(&query, bound, suffix);
    proof {
        assert(is_pickdrop_query(query@) && is_matched_by(query@, want, suffix@, r@));
    }
    r
}

/// The binding of the event edge of a pattern, its first edge, to the edge
/// from an object to the node of its events.
pub open spec fn event_binding(object: NodeView, event: NodeView) -> Seq<Seq<(int, EdgeView)>> {
    seq![seq![(0int, bare_edge(object, event, "HasEvent"@))]]
}

/// The bindings of the match of a conveyor: the edges to its two ramps and
/// its event edge.
pub open spec fn conveyor_bindings(
    conveyor: NodeView,
    plastic_ramp: NodeView,
    metal_ramp: NodeView,
    event: NodeView,
) -> Seq<Seq<(int, EdgeView)>> {
    seq![
        seq![
            (1int, bare_edge(conveyor, plastic_ramp, "HasPlasticRamp"@)),
            (4int, bare_edge(conveyor, metal_ramp, "HasMetalRamp"@)),
            (0int, bare_edge(conveyor, event, "HasEvent"@)),
        ],
    ]
}

/// The query of a stamp assembly with the node of its events.
pub fn matched_stamp_query(my_stamp_assembly: Node, my_stamp: Node, suffix: &str) -> (r: Query)
    ensures
        r@.name == "stamp"@ + suffix@,
        exists|q: QueryView|
            is_stamp_query(q) && #[trigger] is_matched_by(
                q,
                event_binding(my_stamp_assembly@, my_stamp@),
                suffix@,
                r@,
            ),
{
    let query = stamp_query();
    let ghost want = event_binding(my_stamp_assembly@, my_stamp@);
    let mut one: Vec<(usize, Edge)> = Vec::new();
    one.push((0, Edge::without_timestamp(my_stamp_assembly.dup(), my_stamp.dup(), "HasEvent")));
    assert(bindings_view(one@) =~= want[0]);
    let mut bound: Vec<Vec<(usize, Edge)>> = Vec::new();
    bound.push(one);
    proof {
        assert(query@.graph.edges.len() == 2);
        assert(Seq::new(bound@.len(), |i: int| bindings_view(bound@[i]@)) =~= want);
    }
    let r = matched_by(&query, bound, suffix);
    proof {
        assert(is_stamp_query(query@) && is_matched_by(query@, want, suffix@, r@));
    }
    r
}

/// The query of a conveyor with its two ramps and the node of its events.
pub fn matched_conveyor_query(
    my_conveyor: Node,
    my_plastic_ramp: Node,
    my_metal_ramp: Node,
    my_conveyor_event: Node,
    suffix: &str,
) -> (r: Query)
    ensures
        r@.name == "conveyor"@ + suffix@,
        exists|q: QueryView|
            is_conveyor_query(q) && #[trigger] is_matched_by(
                q,
                conveyor_bindings(
                    my_conveyor@,
                    my_plastic_ramp@,
                    my_metal_ramp@,
                    my_conveyor_event@,
                ),
                suffix@,
                r@,
            ),
{
    let query = conveyor_query();
    let ghost want = conveyor_bindings(my_conveyor@, my_plastic_ramp@, my_metal_ramp@, my_conveyor_event@);
    let mut one: Vec<(usize, Edge)> = Vec::new();
    one.push(
        (1, Edge::without_timestamp(my_conveyor.dup(), my_plastic_ramp.dup(), "HasPlasticRamp")),
    );
    one.push((4, Edge::without_timestamp(my_conveyor.dup(), my_metal_ramp.dup(), "HasMetalRamp")));
    one.push((0, Edge::without_timestamp(my_conveyor.dup(), my_conveyor_event.dup(), "HasEvent")));
    assert(bindings_view(one@) =~= want[0]);
    let mut bound: Vec<Vec<(usize, Edge)>> = Vec::new();
    bound.push(one);
    proof {
        assert(query@.graph.edges.len() == 5);
        assert(Seq::new(bound@.len(), |i: int| bindings_view(bound@[i]@)) =~= want);
    }
    let r = matched_by(&query, bound, suffix);
    proof {
        assert(is_conveyor_query(query@) && is_matched_by(query@, want, suffix@, r@));
    }
    r
}

/// The query of a detector with its platform and the node of its events.
pub fn matched_detector_query(my_platform: Node, my_detector: Node, suffix: &str) -> (r: Query)
    ensures
        r@.name == "detector"@ + suffix@,
        exists|q: QueryView|
            is_detector_query(q) && #[trigger] is_matched_by(
                q,
                event_binding(my_platform@, my_detector@),
                suffix@,
                r@,
            ),
{
    let query = detector_query();
    let ghost want = event_binding(my_platform@, my_detector@);
    let mut one: Vec<(usize, Edge)> = Vec::new();
    one.push((0, Edge::without_timestamp(my_platform.dup(), my_detector.dup(), "HasEvent")));
    assert(bindings_view(one@) =~= want[0]);
    let mut bound: Vec<Vec<(usize, Edge)>> = Vec::new();
    bound.push(one);
    proof {
        assert(query@.graph.edges.len() == 2);
        assert(Seq::new(bound@.len(), |i: int| bindings_view(bound@[i]@)) =~= want);
    }
    let r = matched_by(&query, bound, suffix);
    proof {
        assert(is_detector_query(query@) && is_matched_by(query@, want, suffix@, r@));
    }
    r
}

/// The name of a matched query of a numbered list.
pub open spec fn matched_name(query: Seq<char>, i: nat) -> Seq<char> {
    query + ("_matched_"@ + decimal(i))
}

fn matched_suffix(i: u32) -> (r: String)
    ensures
        r@ == "_matched_"@ + decimal(i as nat),
{
    numbered("_matched_", i)
}

/// Whether the nodes of a list have instance names.
pub open spec fn all_named(nodes: Seq<NodeView>) -> bool {
    forall|i: int| 0 <= i < nodes.len() ==> (#[trigger] nodes[i]).instance_node_name is Some
}

/// A small factory: two cranes between three platforms and three stamp
/// assemblies, and a ramp. The first crane reaches the first two platforms
/// and stamp assemblies, the second the last two; both reach the ramp.
pub fn create_simple_factory_scenario() -> (r: SimpleFactoryScenario)
    ensures
        r@.cranes == numbered_nodes(2, "MyCrane"@, ""@, "Crane"@, NodeClass::Object),
        r@.crane_pickdrops == numbered_nodes(
            2,
            "MyCrane"@,
            ".PickDrop"@,
            "PickDrop"@,
            NodeClass::Event,
        ),
        r@.platforms == numbered_nodes(3, "MyPlatform"@, ""@, "Platform"@, NodeClass::Object),
        r@.ramps == numbered_nodes(1, "MyRamp"@, ""@, "Ramp"@, NodeClass::Object),
        r@.stamp_assemblies == numbered_nodes(
            3,
            "MyStampAssembly"@,
            ""@,
            "StampAssembly"@,
            NodeClass::Object,
        ),
        r@.stamps == numbered_nodes(3, "MyStamp"@, ""@, "Stamp"@, NodeClass::Event),
        r@.queries.len() == 5,
        r@.queries[0].name == "pickdrop"@ + "_matched_1"@,
        r@.queries[1].name == "pickdrop"@ + "_matched_2"@,
        r@.queries[2].name == "stamp"@ + "_matched_1"@,
        r@.queries[3].name == "stamp"@ + "_matched_2"@,
        r@.queries[4].name == "stamp"@ + "_matched_3"@,
{
    let two_cranes = cranes(2);
    let two_pickdrops = crane_pickdrops(2);
    let three_platforms = platforms(3);
    let three_stamp_assemblies = stamp_assemblies(3);
    let three_stamps = stamps(3);
    let one_ramp = ramps(1);
    let my_ramp = one_ramp[0].dup();
    let ghost pv = three_platforms.deep_view();
    let ghost sv = three_stamp_assemblies.deep_view();
    let ghost rv = one_ramp.deep_view();
    let mut around_first: Vec<Node> = Vec::new();
    around_first.push(three_platforms[0].dup());
    around_first.push(three_platforms[1].dup());
    around_first.push(three_stamp_assemblies[0].dup());
    around_first.push(three_stamp_assemblies[1].dup());
    around_first.push(my_ramp.dup());
    proof {
        assert(around_first.deep_view() =~= seq![pv[0], pv[1], sv[0], sv[1], rv[0]]);
    }
    let matched_pickdrop_query_1 = matched_pickdrop_query(
        two_cranes[0].dup(),
        two_pickdrops[0].dup(),
        around_first,
        "_matched_1",
    );
    let mut around_second: Vec<Node> = Vec::new();
    around_second.push(three_platforms[1].dup());
    around_second.push(three_platforms[2].dup());
    around_second.push(three_stamp_assemblies[1].dup());
    around_second.push(three_stamp_assemblies[2].dup());
    around_second.push(my_ramp.dup());
    proof {
        assert(around_second.deep_view() =~= seq![pv[1], pv[2], sv[1], sv[2], rv[0]]);
    }
    let matched_pickdrop_query_2 = matched_pickdrop_query(
        two_cranes[1].dup(),
        two_pickdrops[1].dup(),
        around_second,
        "_matched_2",
    );
    let matched_stamp_query_1 = matched_stamp_query(
        three_stamp_assemblies[0].dup(),
        three_stamps[0].dup(),
        "_matched_1",
    );
    let matched_stamp_query_2 = matched_stamp_query(
        three_stamp_assemblies[1].dup(),
        three_stamps[1].dup(),
        "_matched_2",
    );
    let matched_stamp_query_3 = matched_stamp_query(
        three_stamp_assemblies[2].dup(),
        three_stamps[2].dup(),
        "_matched_3",
    );
    let mut queries: Vec<Query> = Vec::new();
    queries.push(matched_pickdrop_query_1);
    queries.push(matched_pickdrop_query_2);
    queries.push(matched_stamp_query_1);
    queries.push(matched_stamp_query_2);
    queries.push(matched_stamp_query_3);
    let mut ramp_list: Vec<Node> = Vec::new();
    ramp_list.push(my_ramp);
    assert(ramp_list.deep_view() =~= one_ramp.deep_view());
    SimpleFactoryScenario {
        cranes: two_cranes,
        crane_pickdrops: two_pickdrops,
        platforms: three_platforms,
        ramps: ramp_list,
        stamps: three_stamps,
        stamp_assemblies: three_stamp_assemblies,
        queries,
    }
}

/// A factory of an even size, at least two: as many cranes, platforms and
/// detectors, one stamp assembly less, and half as many conveyors, each
/// with a ramp for metal and one for plastic. A crane reaches the platforms
/// and stamp assemblies next to it and the conveyor of its pair.
pub fn complex_factory_scenario_builder(size: u32) -> (r: ComplexFactoryScenario)
    requires
        size >= 2,
        size % 2 == 0,
    ensures
        r@.cranes == numbered_nodes(size as nat, "MyCrane"@, ""@, "Crane"@, NodeClass::Object),
        r@.crane_pickdrops == numbered_nodes(
            size as nat,
            "MyCrane"@,
            ".PickDrop"@,
            "PickDrop"@,
            NodeClass::Event,
        ),
        r@.platforms == numbered_nodes(
            size as nat,
            "MyPlatform"@,
            ""@,
            "Platform"@,
            NodeClass::Object,
        ),
        r@.detectors == numbered_nodes(size as nat, "MyDetector"@, ""@, "Detector"@, NodeClass::Event),
        r@.stamp_assemblies == numbered_nodes(
            (size - 1) as nat,
            "MyStampAssembly"@,
            ""@,
            "StampAssembly"@,
            NodeClass::Object,
        ),
        r@.stamps == numbered_nodes((size - 1) as nat, "MyStamp"@, ""@, "Stamp"@, NodeClass::Event),
        r@.conveyors == numbered_nodes(
            (size / 2) as nat,
            "MyConveyor"@,
            ""@,
            "Conveyor"@,
            NodeClass::Object,
        ),
        r@.conveyor_events == numbered_nodes(
            (size / 2) as nat,
            "MyConveyorEvent"@,
            ""@,
            "ConveyorEvent"@,
            NodeClass::Object,
        ),
        r@.metal_ramps == numbered_nodes(size as nat, "MyRamp"@, ""@, "Ramp"@, NodeClass::Object).take(
            (size / 2) as int,
        ),
        r@.plastic_ramps == numbered_nodes(
            size as nat,
            "MyRamp"@,
            ""@,
            "Ramp"@,
            NodeClass::Object,
        ).skip((size / 2) as int),
        r@.pickdrop_queries.len() == size,
        r@.stamp_queries.len() == size - 1,
        r@.conveyor_queries.len() == size / 2,
        r@.detector_queries.len() == size,
        forall|i: int|
            0 <= i < size ==> (#[trigger] r@.pickdrop_queries[i]).name == matched_name(
                "pickdrop"@,
                i as nat,
            ),
        forall|i: int|
            0 <= i < size - 1 ==> (#[trigger] r@.stamp_queries[i]).name == matched_name(
                "stamp"@,
                i as nat,
            ),
        forall|i: int|
            0 <= i < size / 2 ==> (#[trigger] r@.conveyor_queries[i]).name == matched_name(
                "conveyor"@,
                i as nat,
            ),
        forall|i: int|
            0 <= i < size ==> (#[trigger] r@.detector_queries[i]).name == matched_name(
                "detector"@,
                i as nat,
            ),
{
    let some_cranes = cranes(size);
    let some_crane_events = crane_pickdrops(size);
    let some_platforms = platforms(size);
    let some_detectors = detectors(size);
    let some_stamp_assemblies = stamp_assemblies(size - 1);
    let some_stamps = stamps(size - 1);
    let some_conveyors = conveyors(size / 2);
    let some_conveyor_events = conveyor_events(size / 2);
    let all_ramps = ramps(size);
    let half = (size / 2) as usize;
    let ghost rv = all_ramps.deep_view();
    let mut some_metal_ramps: Vec<Node> = Vec::new();
    let mut m: usize = 0;
    while m < half
        invariant
            m <= half,
            half <= all_ramps.len(),
            rv == all_ramps.deep_view(),
            some_metal_ramps.deep_view() == rv.take(m as int),
        decreases half - m,
    {
        let ghost prev = some_metal_ramps.deep_view();
        some_metal_ramps.push(all_ramps[m].dup());
        proof {
            assert(some_metal_ramps.deep_view() =~= prev.push(rv[m as int]));
            assert(rv.take(m + 1) =~= rv.take(m as int).push(rv[m as int]));
        }
        m = m + 1;
    }
    let mut some_plastic_ramps: Vec<Node> = Vec::new();
    let mut p: usize = half;
    assert(some_plastic_ramps.deep_view() =~= rv.subrange(half as int, half as int));
    while p < all_ramps.len()
        invariant
            half <= p <= all_ramps.len(),
            rv == all_ramps.deep_view(),
            some_plastic_ramps.deep_view() == rv.subrange(half as int, p as int),
        decreases all_ramps.len() - p,
    {
        let ghost prev = some_plastic_ramps.deep_view();
        some_plastic_ramps.push(all_ramps[p].dup());
        proof {
            assert(some_plastic_ramps.deep_view() =~= prev.push(rv[p as int]));
            assert(rv.subrange(half as int, p + 1) =~= rv.subrange(half as int, p as int).push(
                rv[p as int],
            ));
        }
        p = p + 1;
    }
    assert(rv.subrange(half as int, p as int) =~= rv.skip(half as int));

    let ghost pv = some_platforms.deep_view();
    let ghost sv = some_stamp_assemblies.deep_view();
    let ghost cv = some_conveyors.deep_view();
    let mut matched_crane_queries: Vec<Query> = Vec::new();
    let mut i: u32 = 0;
    while i < size
        invariant
            i <= size,
            size >= 2,
            size % 2 == 0,
            some_cranes.len() == size,
            some_crane_events.len() == size,
            some_platforms.len() == size,
            some_stamp_assemblies.len() == size - 1,
            some_conveyors.len() == size / 2,
            pv == some_platforms.deep_view(),
            sv == some_stamp_assemblies.deep_view(),
            cv == some_conveyors.deep_view(),
            all_named(pv),
            all_named(sv),
            all_named(cv),
            matched_crane_queries@.len() == i,
            forall|k: int|
                0 <= k < i ==> (#[trigger] matched_crane_queries@[k])@.name == matched_name(
                    "pickdrop"@,
                    k as nat,
                ),
        decreases size - i,
    {
        let mut surrounding: Vec<Node> = Vec::new();
        if i > 0 {
            surrounding.push(some_platforms[(i - 1) as usize].dup());
            surrounding.push(some_stamp_assemblies[(i - 1) as usize].dup());
        }
        surrounding.push(some_conveyors[(i / 2) as usize].dup());
        surrounding.push(some_platforms[i as usize].dup());
        if i < size - 1 {
            surrounding.push(some_platforms[(i + 1) as usize].dup());
            surrounding.push(some_stamp_assemblies[i as usize].dup());
        }
        proof {
            let around = surrounding.deep_view();
            let first = if i > 0 {
                seq![pv[i - 1], sv[i - 1]]
            } else {
                Seq::empty()
            };
            let last = if i < size - 1 {
                seq![pv[i + 1], sv[i as int]]
            } else {
                Seq::empty()
            };
            assert(around =~= first + seq![cv[(i / 2) as int], pv[i as int]] + last);
        }
        let a_matched_crane_query = matched_pickdrop_query(
            some_cranes[i as usize].dup(),
            some_crane_events[i as usize].dup(),
            surrounding,
            matched_suffix(i).as_str(),
        );
        matched_crane_queries.push(a_matched_crane_query);
        i = i + 1;
    }
    let mut matched_stamp_queries: Vec<Query> = Vec::new();
    let mut i: u32 = 0;
    while i < size - 1
        invariant
            i <= size - 1,
            size >= 2,
            some_stamp_assemblies.len() == size - 1,
            some_stamps.len() == size - 1,
            matched_stamp_queries@.len() == i,
            forall|k: int|
                0 <= k < i ==> (#[trigger] matched_stamp_queries@[k])@.name == matched_name(
                    "stamp"@,
                    k as nat,
                ),
        decreases size - 1 - i,
    {
        let a_matched_stamp_query = matched_stamp_query(
            some_stamp_assemblies[i as usize].dup(),
            some_stamps[i as usize].dup(),
            matched_suffix(i).as_str(),
        );
        matched_stamp_queries.push(a_matched_stamp_query);
        i = i + 1;
    }
    let mut matched_conveyor_queries: Vec<Query> = Vec::new();
    let mut i: u32 = 0;
    while i < size / 2
        invariant
            i <= size / 2,
            size % 2 == 0,
            some_conveyors.len() == size / 2,
            some_conveyor_events.len() == size / 2,
            some_plastic_ramps.len() == size - size / 2,
            some_metal_ramps.len() == size / 2,
            matched_conveyor_queries@.len() == i,
            forall|k: int|
                0 <= k < i ==> (#[trigger] matched_conveyor_queries@[k])@.name == matched_name(
                    "conveyor"@,
                    k as nat,
                ),
        decreases size / 2 - i,
    {
        let a_matched_conveyor_query = matched_conveyor_query(
            some_conveyors[i as usize].dup(),
            some_plastic_ramps[i as usize].dup(),
            some_metal_ramps[i as usize].dup(),
            some_conveyor_events[i as usize].dup(),
            matched_suffix(i).as_str(),
        );
        matched_conveyor_queries.push(a_matched_conveyor_query);
        i = i + 1;
    }
    let mut matched_detector_queries: Vec<Query> = Vec::new();
    let mut i: u32 = 0;
    while i < size
        invariant
            i <= size,
            some_platforms.len() == size,
            some_detectors.len() == size,
            matched_detector_queries@.len() == i,
            forall|k: int|
                0 <= k < i ==> (#[trigger] matched_detector_queries@[k])@.name == matched_name(
                    "detector"@,
                    k as nat,
                ),
        decreases size - i,
    {
        let a_matched_detector_query = matched_detector_query(
            some_platforms[i as usize].dup(),
            some_detectors[i as usize].dup(),
            matched_suffix(i).as_str(),
        );
        matched_detector_queries.push(a_matched_detector_query);
        i = i + 1;
    }
    ComplexFactoryScenario {
        cranes: some_cranes,
        crane_pickdrops: some_crane_events,
        platforms: some_platforms,
        detectors: some_detectors,
        conveyors: some_conveyors,
        conveyor_events: some_conveyor_events,
        plastic_ramps: some_plastic_ramps,
        metal_ramps: some_metal_ramps,
        stamp_assemblies: some_stamp_assemblies,
        stamps: some_stamps,
        pickdrop_queries: matched_crane_queries,
        stamp_queries: matched_stamp_queries,
        detector_queries: matched_detector_queries,
        conveyor_queries: matched_conveyor_queries,
    }
}

} // verus!
