//! The bitemporal property graph: nodes, edges, the deltas that begin and end
//! edges, and the derivation of edge intervals from delta histories.

use crate::order::{same, Rank, Sortable, Value};
use crate::ordered::{lemma_sorted_unique, strictly_sorted, OrderedMap};
use vstd::prelude::*;

verus! {

/// Whether a delta begins an edge or ends one.
#[derive(Debug, PartialEq, Eq, Structural, Clone, Copy)]
pub enum DeltaType {
    Addition,
    Removal,
}

/// The class of a node.
#[derive(Debug, PartialEq, Eq, Structural, Clone, Copy)]
pub enum NodeClass {
    Object,
    Event,
    Material,
    Property,
}

impl DeltaType {
    /// The position of the variant in the declaration.
    pub open spec fn index(self) -> int {
        match self {
            DeltaType::Addition => 0,
            DeltaType::Removal => 1,
        }
    }

    /// The number that stands for the variant on the wire.
    pub fn code(&self) -> (r: i32)
        ensures
            r == self.index(),
    {
        match self {
            DeltaType::Addition => 0,
            DeltaType::Removal => 1,
        }
    }

    /// The variant that a wire number stands for.
    pub fn from_code(code: i32) -> (r: Option<DeltaType>)
        ensures
            r is Some <==> 0 <= code <= 1,
            r is Some ==> r->0.index() == code,
    {
        if code == 0 {
            Some(DeltaType::Addition)
        } else if code == 1 {
            Some(DeltaType::Removal)
        } else {
            None
        }
    }
}

impl DeltaType {
    /// The name of the variant.
    pub open spec fn name_of(self) -> Seq<char> {
        match self {
            DeltaType::Addition => "Addition"@,
            DeltaType::Removal => "Removal"@,
        }
    }

    /// The variant of a name.
    pub open spec fn named(name: Seq<char>) -> Option<DeltaType> {
        if name == "Addition"@ {
            Some(DeltaType::Addition)
        } else if name == "Removal"@ {
            Some(DeltaType::Removal)
        } else {
            None
        }
    }

    /// The name of the variant.
    pub fn name(&self) -> (r: &'static str)
        ensures
            r@ == self.name_of(),
    {
        match self {
            DeltaType::Addition => "Addition",
            DeltaType::Removal => "Removal",
        }
    }

    /// The variant of a name.
    pub fn from_name(name: &str) -> (r: Option<DeltaType>)
        ensures
            r == DeltaType::named(name@),
    {
        let given = name.to_owned();
        if same(&given, &"Addition".to_owned()) {
            Some(DeltaType::Addition)
        } else if same(&given, &"Removal".to_owned()) {
            Some(DeltaType::Removal)
        } else {
            None
        }
    }

    /// The name of a variant is the name of that variant alone.
    pub proof fn lemma_name_round_trip(self)
        ensures
            DeltaType::named(self.name_of()) == Some(self),
    {
        reveal_strlit("Addition");
        reveal_strlit("Removal");
        assert("Removal"@.len() != "Addition"@.len());
    }
}

impl NodeClass {
    /// The name of the variant.
    pub open spec fn name_of(self) -> Seq<char> {
        match self {
            NodeClass::Object => "Object"@,
            NodeClass::Event => "Event"@,
            NodeClass::Material => "Material"@,
            NodeClass::Property => "Property"@,
        }
    }

    /// The variant of a name.
    pub open spec fn named(name: Seq<char>) -> Option<NodeClass> {
        if name == "Object"@ {
            Some(NodeClass::Object)
        } else if name == "Event"@ {
            Some(NodeClass::Event)
        } else if name == "Material"@ {
            Some(NodeClass::Material)
        } else if name == "Property"@ {
            Some(NodeClass::Property)
        } else {
            None
        }
    }

    /// The name of the variant.
    pub fn name(&self) -> (r: &'static str)
        ensures
            r@ == self.name_of(),
    {
        match self {
            NodeClass::Object => "Object",
            NodeClass::Event => "Event",
            NodeClass::Material => "Material",
            NodeClass::Property => "Property",
        }
    }

    /// The variant of a name.
    pub fn from_name(name: &str) -> (r: Option<NodeClass>)
        ensures
            r == NodeClass::named(name@),
    {
        let given = name.to_owned();
        if same(&given, &"Object".to_owned()) {
            Some(NodeClass::Object)
        } else if same(&given, &"Event".to_owned()) {
            Some(NodeClass::Event)
        } else if same(&given, &"Material".to_owned()) {
            Some(NodeClass::Material)
        } else if same(&given, &"Property".to_owned()) {
            Some(NodeClass::Property)
        } else {
            None
        }
    }

    /// The name of a variant is the name of that variant alone.
    pub proof fn lemma_name_round_trip(self)
        ensures
            NodeClass::named(self.name_of()) == Some(self),
    {
        reveal_strlit("Object");
        reveal_strlit("Event");
        reveal_strlit("Material");
        reveal_strlit("Property");
        assert("Object"@.len() == 6 && "Event"@.len() == 5 && "Material"@.len() == 8
            && "Property"@.len() == 8);
        assert("Material"@[0] != "Property"@[0]);
    }
}

impl NodeClass {
    /// The position of the variant in the declaration.
    pub open spec fn index(self) -> int {
        match self {
            NodeClass::Object => 0,
            NodeClass::Event => 1,
            NodeClass::Material => 2,
            NodeClass::Property => 3,
        }
    }

    /// The number that stands for the variant on the wire.
    pub fn code(&self) -> (r: i32)
        ensures
            r == self.index(),
    {
        match self {
            NodeClass::Object => 0,
            NodeClass::Event => 1,
            NodeClass::Material => 2,
            NodeClass::Property => 3,
        }
    }

    /// The variant that a wire number stands for.
    pub fn from_code(code: i32) -> (r: Option<NodeClass>)
        ensures
            r is Some <==> 0 <= code <= 3,
            r is Some ==> r->0.index() == code,
    {
        if code == 0 {
            Some(NodeClass::Object)
        } else if code == 1 {
            Some(NodeClass::Event)
        } else if code == 2 {
            Some(NodeClass::Material)
        } else if code == 3 {
            Some(NodeClass::Property)
        } else {
            None
        }
    }
}

impl View for DeltaType {
    type V = DeltaType;

    open spec fn view(&self) -> DeltaType {
        *self
    }
}

impl DeepView for DeltaType {
    type V = DeltaType;

    open spec fn deep_view(&self) -> DeltaType {
        *self
    }
}

impl Value for DeltaType {
    fn dup(&self) -> (r: Self) {
        *self
    }
}

impl Sortable for DeltaType {
    open spec fn before(a: DeltaType, b: DeltaType) -> bool {
        a.index() < b.index()
    }

    proof fn lemma_order(a: DeltaType, b: DeltaType, c: DeltaType) {
    }

    fn rank(&self, other: &Self) -> (r: Rank) {
        let x = self.code();
        let y = other.code();
        if x < y {
            Rank::Less
        } else if x == y {
            Rank::Equal
        } else {
            Rank::Greater
        }
    }
}

impl View for NodeClass {
    type V = NodeClass;

    open spec fn view(&self) -> NodeClass {
        *self
    }
}

impl DeepView for NodeClass {
    type V = NodeClass;

    open spec fn deep_view(&self) -> NodeClass {
        *self
    }
}

impl Value for NodeClass {
    fn dup(&self) -> (r: Self) {
        *self
    }
}

impl Sortable for NodeClass {
    open spec fn before(a: NodeClass, b: NodeClass) -> bool {
        a.index() < b.index()
    }

    proof fn lemma_order(a: NodeClass, b: NodeClass, c: NodeClass) {
    }

    fn rank(&self, other: &Self) -> (r: Rank) {
        let x = self.code();
        let y = other.code();
        if x < y {
            Rank::Less
        } else if x == y {
            Rank::Equal
        } else {
            Rank::Greater
        }
    }
}

/// A node of a query pattern or of the instance graph.
#[derive(Debug, PartialEq, Eq)]
pub struct Node {
    pub query_node_name: Option<String>,
    pub instance_node_name: Option<String>,
    pub node_type: Option<String>,
    pub node_class: NodeClass,
    pub value_bytes: Option<Vec<u8>>,
}

/// What a node holds.
pub struct NodeView {
    pub query_node_name: Option<Seq<char>>,
    pub instance_node_name: Option<Seq<char>>,
    pub node_type: Option<Seq<char>>,
    pub node_class: NodeClass,
    pub value_bytes: Option<Seq<u8>>,
}

impl DeepView for Node {
    type V = NodeView;

    open spec fn deep_view(&self) -> NodeView {
        NodeView {
            query_node_name: self.query_node_name.deep_view(),
            instance_node_name: self.instance_node_name.deep_view(),
            node_type: self.node_type.deep_view(),
            node_class: self.node_class,
            value_bytes: self.value_bytes.deep_view(),
        }
    }
}

impl View for Node {
    type V = NodeView;

    open spec fn view(&self) -> NodeView {
        self.deep_view()
    }
}

/// The fields of a node in the order in which two nodes are compared.
pub type NodeKey = (Option<String>, (Option<String>, (Option<String>, (NodeClass, Option<Vec<u8>>))));

pub open spec fn node_key(n: NodeView) -> <NodeKey as DeepView>::V {
    (n.query_node_name, (n.instance_node_name, (n.node_type, (n.node_class, n.value_bytes))))
}

impl Value for Node {
    fn dup(&self) -> (r: Self) {
        Node {
            query_node_name: self.query_node_name.dup(),
            instance_node_name: self.instance_node_name.dup(),
            node_type: self.node_type.dup(),
            node_class: self.node_class,
            value_bytes: self.value_bytes.dup(),
        }
    }
}

impl Clone for Node {
    fn clone(&self) -> (r: Self)
        ensures
            r@ == self@,
    {
        self.dup()
    }
}

impl Sortable for Node {
    /// Nodes are compared field by field, in the order of declaration.
    open spec fn before(a: NodeView, b: NodeView) -> bool {
        <NodeKey as Sortable>::before(node_key(a), node_key(b))
    }

    proof fn lemma_order(a: NodeView, b: NodeView, c: NodeView) {
        <NodeKey as Sortable>::lemma_order(node_key(a), node_key(b), node_key(c));
    }

    fn rank(&self, other: &Self) -> (r: Rank) {
        proof {
            Self::lemma_order(self@, other@, self@);
            Self::lemma_order(other@, self@, other@);
        }
        match self.query_node_name.rank(&other.query_node_name) {
            Rank::Less => Rank::Less,
            Rank::Greater => Rank::Greater,
            Rank::Equal => match self.instance_node_name.rank(&other.instance_node_name) {
                Rank::Less => Rank::Less,
                Rank::Greater => Rank::Greater,
                Rank::Equal => match self.node_type.rank(&other.node_type) {
                    Rank::Less => Rank::Less,
                    Rank::Greater => Rank::Greater,
                    Rank::Equal => match self.node_class.rank(&other.node_class) {
                        Rank::Less => Rank::Less,
                        Rank::Greater => Rank::Greater,
                        Rank::Equal => self.value_bytes.rank(&other.value_bytes),
                    },
                },
            },
        }
    }
}

impl Node {
    pub fn property_query_node(query_node_name: &str, node_type: &str) -> (r: Node)
        ensures
            r@ == (NodeView {
                query_node_name: Some(query_node_name@),
                instance_node_name: None,
                node_type: Some(node_type@),
                node_class: NodeClass::Property,
                value_bytes: None,
            }),
    {
        Node {
            query_node_name: Some(query_node_name.to_owned()),
            instance_node_name: None,
            node_type: Some(node_type.to_owned()),
            node_class: NodeClass::Property,
            value_bytes: None,
        }
    }

    pub fn property_instance_node(instance_node_name: &str, node_type: &str, value: Vec<u8>) -> (r: Node)
        ensures
            r@ == (NodeView {
                query_node_name: None,
                instance_node_name: Some(instance_node_name@),
                node_type: Some(node_type@),
                node_class: NodeClass::Property,
                value_bytes: Some(value@),
            }),
    {
        assert(value.deep_view() =~= value@);
        Node {
            query_node_name: None,
            instance_node_name: Some(instance_node_name.to_owned()),
            node_type: Some(node_type.to_owned()),
            node_class: NodeClass::Property,
            value_bytes: Some(value),
        }
    }

    pub fn object_query_node(query_node_name: &str, node_type: &str) -> (r: Node)
        ensures
            r@ == (NodeView {
                query_node_name: Some(query_node_name@),
                instance_node_name: None,
                node_type: Some(node_type@),
                node_class: NodeClass::Object,
                value_bytes: None,
            }),
    {
        Node {
            query_node_name: Some(query_node_name.to_owned()),
            instance_node_name: None,
            node_type: Some(node_type.to_owned()),
            node_class: NodeClass::Object,
            value_bytes: None,
        }
    }

    pub fn object_matched_query_node(query_node_name: &str, instance_node_name: &str, node_type: &str) -> (r: Node)
        ensures
            r@ == (NodeView {
                query_node_name: Some(query_node_name@),
                instance_node_name: Some(instance_node_name@),
                node_type: Some(node_type@),
                node_class: NodeClass::Object,
                value_bytes: None,
            }),
    {
        Node {
            query_node_name: Some(query_node_name.to_owned()),
            instance_node_name: Some(instance_node_name.to_owned()),
            node_type: Some(node_type.to_owned()),
            node_class: NodeClass::Object,
            value_bytes: None,
        }
    }

    pub fn object_instance_node(instance_node_name: &str, node_type: &str) -> (r: Node)
        ensures
            r@ == (NodeView {
                query_node_name: None,
                instance_node_name: Some(instance_node_name@),
                node_type: Some(node_type@),
                node_class: NodeClass::Object,
                value_bytes: None,
            }),
    {
        Node {
            query_node_name: None,
            instance_node_name: Some(instance_node_name.to_owned()),
            node_type: Some(node_type.to_owned()),
            node_class: NodeClass::Object,
            value_bytes: None,
        }
    }

    pub fn material_query_node(query_node_name: &str, node_type: &str) -> (r: Node)
        ensures
            r@ == (NodeView {
                query_node_name: Some(query_node_name@),
                instance_node_name: None,
                node_type: Some(node_type@),
                node_class: NodeClass::Material,
                value_bytes: None,
            }),
    {
        Node {
            query_node_name: Some(query_node_name.to_owned()),
            instance_node_name: None,
            node_type: Some(node_type.to_owned()),
            node_class: NodeClass::Material,
            value_bytes: None,
        }
    }

    pub fn material_matched_query_node(query_node_name: &str, instance_node_name: &str, node_type: &str) -> (r: Node)
        ensures
            r@ == (NodeView {
                query_node_name: Some(query_node_name@),
                instance_node_name: Some(instance_node_name@),
                node_type: Some(node_type@),
                node_class: NodeClass::Material,
                value_bytes: None,
            }),
    {
        Node {
            query_node_name: Some(query_node_name.to_owned()),
            instance_node_name: Some(instance_node_name.to_owned()),
            node_type: Some(node_type.to_owned()),
            node_class: NodeClass::Material,
            value_bytes: None,
        }
    }

    pub fn material_instance_node(instance_node_name: &str, node_type: &str) -> (r: Node)
        ensures
            r@ == (NodeView {
                query_node_name: None,
                instance_node_name: Some(instance_node_name@),
                node_type: Some(node_type@),
                node_class: NodeClass::Material,
                value_bytes: None,
            }),
    {
        Node {
            query_node_name: None,
            instance_node_name: Some(instance_node_name.to_owned()),
            node_type: Some(node_type.to_owned()),
            node_class: NodeClass::Material,
            value_bytes: None,
        }
    }

    pub fn event_query_node(query_node_name: &str, node_type: &str) -> (r: Node)
        ensures
            r@ == (NodeView {
                query_node_name: Some(query_node_name@),
                instance_node_name: None,
                node_type: Some(node_type@),
                node_class: NodeClass::Event,
                value_bytes: None,
            }),
    {
        Node {
            query_node_name: Some(query_node_name.to_owned()),
            instance_node_name: None,
            node_type: Some(node_type.to_owned()),
            node_class: NodeClass::Event,
            value_bytes: None,
        }
    }

    pub fn event_matched_query_node(query_node_name: &str, instance_node_name: &str, node_type: &str) -> (r: Node)
        ensures
            r@ == (NodeView {
                query_node_name: Some(query_node_name@),
                instance_node_name: Some(instance_node_name@),
                node_type: Some(node_type@),
                node_class: NodeClass::Event,
                value_bytes: None,
            }),
    {
        Node {
            query_node_name: Some(query_node_name.to_owned()),
            instance_node_name: Some(instance_node_name.to_owned()),
            node_type: Some(node_type.to_owned()),
            node_class: NodeClass::Event,
            value_bytes: None,
        }
    }

    pub fn event_instance_node(instance_node_name: &str, node_type: &str) -> (r: Node)
        ensures
            r@ == (NodeView {
                query_node_name: None,
                instance_node_name: Some(instance_node_name@),
                node_type: Some(node_type@),
                node_class: NodeClass::Event,
                value_bytes: None,
            }),
    {
        Node {
            query_node_name: None,
            instance_node_name: Some(instance_node_name.to_owned()),
            node_type: Some(node_type.to_owned()),
            node_class: NodeClass::Event,
            value_bytes: None,
        }
    }

    /// A material node stands for its kind: its names are dropped.
    pub fn forget_particular_material(&mut self)
        ensures
            final(self)@ == (if old(self)@.node_class == NodeClass::Material {
                NodeView { query_node_name: None, instance_node_name: None, ..old(self)@ }
            } else {
                old(self)@
            }),
    {
        if self.node_class == NodeClass::Material {
            self.query_node_name = None;
            self.instance_node_name = None;
        }
    }

    /// A property node stands for its kind: its names are dropped.
    pub fn forget_particular_property(&mut self)
        ensures
            final(self)@ == (if old(self)@.node_class == NodeClass::Property {
                NodeView { query_node_name: None, instance_node_name: None, ..old(self)@ }
            } else {
                old(self)@
            }),
    {
        if self.node_class == NodeClass::Property {
            self.query_node_name = None;
            self.instance_node_name = None;
        }
    }

    pub fn forget_particular_value(&mut self)
        ensures
            final(self)@ == (NodeView { value_bytes: None, ..old(self)@ }),
    {
        self.value_bytes = None;
    }

    pub fn forget_query_node_name(&mut self)
        ensures
            final(self)@ == (NodeView { query_node_name: None, ..old(self)@ }),
    {
        self.query_node_name = None;
    }
}

/// What is left of a node once its particulars are forgotten: a material or
/// property node keeps neither name, and no node keeps its value.
pub open spec fn node_without_particulars(n: NodeView) -> NodeView {
    if n.node_class == NodeClass::Material || n.node_class == NodeClass::Property {
        NodeView { query_node_name: None, instance_node_name: None, value_bytes: None, ..n }
    } else {
        NodeView { value_bytes: None, ..n }
    }
}

/// An edge between two nodes, live from `from_timestamp` to `to_timestamp`;
/// it is open while `to_timestamp` is absent.
#[derive(Debug, PartialEq, Eq)]
pub struct Edge {
    pub src: Node,
    pub trg: Node,
    pub edge_type: String,
    pub from_timestamp: Option<u64>,
    pub to_timestamp: Option<u64>,
}

/// What an edge holds.
pub struct EdgeView {
    pub src: NodeView,
    pub trg: NodeView,
    pub edge_type: Seq<char>,
    pub from_timestamp: Option<u64>,
    pub to_timestamp: Option<u64>,
}

impl DeepView for Edge {
    type V = EdgeView;

    open spec fn deep_view(&self) -> EdgeView {
        EdgeView {
            src: self.src@,
            trg: self.trg@,
            edge_type: self.edge_type@,
            from_timestamp: self.from_timestamp,
            to_timestamp: self.to_timestamp,
        }
    }
}

impl View for Edge {
    type V = EdgeView;

    open spec fn view(&self) -> EdgeView {
        self.deep_view()
    }
}

/// The fields of an edge in the order in which two edges are compared.
pub type EdgeKey = (Node, (Node, (String, (Option<u64>, Option<u64>))));

pub open spec fn edge_key(e: EdgeView) -> <EdgeKey as DeepView>::V {
    (e.src, (e.trg, (e.edge_type, (e.from_timestamp, e.to_timestamp))))
}

impl Value for Edge {
    fn dup(&self) -> (r: Self) {
        Edge {
            src: self.src.dup(),
            trg: self.trg.dup(),
            edge_type: self.edge_type.dup(),
            from_timestamp: self.from_timestamp,
            to_timestamp: self.to_timestamp,
        }
    }
}

impl Clone for Edge {
    fn clone(&self) -> (r: Self)
        ensures
            r@ == self@,
    {
        self.dup()
    }
}

impl Sortable for Edge {
    /// Edges are compared field by field, in the order of declaration.
    open spec fn before(a: EdgeView, b: EdgeView) -> bool {
        <EdgeKey as Sortable>::before(edge_key(a), edge_key(b))
    }

    proof fn lemma_order(a: EdgeView, b: EdgeView, c: EdgeView) {
        <EdgeKey as Sortable>::lemma_order(edge_key(a), edge_key(b), edge_key(c));
    }

    fn rank(&self, other: &Self) -> (r: Rank) {
        proof {
            Self::lemma_order(self@, other@, self@);
            Self::lemma_order(other@, self@, other@);
        }
        match self.src.rank(&other.src) {
            Rank::Less => Rank::Less,
            Rank::Greater => Rank::Greater,
            Rank::Equal => match self.trg.rank(&other.trg) {
                Rank::Less => Rank::Less,
                Rank::Greater => Rank::Greater,
                Rank::Equal => match self.edge_type.rank(&other.edge_type) {
                    Rank::Less => Rank::Less,
                    Rank::Greater => Rank::Greater,
                    Rank::Equal => match self.from_timestamp.rank(&other.from_timestamp) {
                        Rank::Less => Rank::Less,
                        Rank::Greater => Rank::Greater,
                        Rank::Equal => self.to_timestamp.rank(&other.to_timestamp),
                    },
                },
            },
        }
    }
}

/// What is left of an edge once the particulars of its nodes are forgotten.
pub open spec fn edge_without_particulars(e: EdgeView) -> EdgeView {
    EdgeView {
        src: node_without_particulars(e.src),
        trg: node_without_particulars(e.trg),
        ..e
    }
}

/// An edge whose nodes have lost their query-side names.
pub open spec fn edge_without_query_names(e: EdgeView) -> EdgeView {
    EdgeView {
        src: NodeView { query_node_name: None, ..e.src },
        trg: NodeView { query_node_name: None, ..e.trg },
        ..e
    }
}

impl Edge {
    pub fn without_timestamp(src: Node, trg: Node, edge_type: &str) -> (r: Edge)
        ensures
            r@ == (EdgeView {
                src: src@,
                trg: trg@,
                edge_type: edge_type@,
                from_timestamp: None,
                to_timestamp: None,
            }),
    {
        Edge { src, trg, edge_type: edge_type.to_owned(), from_timestamp: None, to_timestamp: None }
    }

    pub fn forget_particulars(&mut self)
        ensures
            final(self)@ == edge_without_particulars(old(self)@),
    {
        self.src.forget_particular_material();
        self.src.forget_particular_property();
        self.src.forget_particular_value();
        self.trg.forget_particular_material();
        self.trg.forget_particular_value();
        self.trg.forget_particular_property();
    }

    pub fn forget_query_node_name(&mut self)
        ensures
            final(self)@ == edge_without_query_names(old(self)@),
    {
        self.src.forget_query_node_name();
        self.trg.forget_query_node_name();
    }
}

/// A timestamped fact that an edge begins (addition) or ends (removal).
#[derive(Debug, PartialEq, Eq)]
pub struct Delta {
    pub src: Node,
    pub trg: Node,
    pub edge_type: String,
    pub timestamp: u64,
    pub delta_type: DeltaType,
}

/// What a delta holds.
pub struct DeltaView {
    pub src: NodeView,
    pub trg: NodeView,
    pub edge_type: Seq<char>,
    pub timestamp: u64,
    pub delta_type: DeltaType,
}

impl DeepView for Delta {
    type V = DeltaView;

    open spec fn deep_view(&self) -> DeltaView {
        DeltaView {
            src: self.src@,
            trg: self.trg@,
            edge_type: self.edge_type@,
            timestamp: self.timestamp,
            delta_type: self.delta_type,
        }
    }
}

impl View for Delta {
    type V = DeltaView;

    open spec fn view(&self) -> DeltaView {
        self.deep_view()
    }
}

/// The fields of a delta in the order in which two deltas are compared.
pub type DeltaKey = (Node, (Node, (String, (u64, DeltaType))));

pub open spec fn delta_key(d: DeltaView) -> <DeltaKey as DeepView>::V {
    (d.src, (d.trg, (d.edge_type, (d.timestamp, d.delta_type))))
}

impl Value for Delta {
    fn dup(&self) -> (r: Self) {
        Delta {
            src: self.src.dup(),
            trg: self.trg.dup(),
            edge_type: self.edge_type.dup(),
            timestamp: self.timestamp,
            delta_type: self.delta_type,
        }
    }
}

impl Clone for Delta {
    fn clone(&self) -> (r: Self)
        ensures
            r@ == self@,
    {
        self.dup()
    }
}

impl Sortable for Delta {
    /// Deltas are compared field by field, in the order of declaration.
    open spec fn before(a: DeltaView, b: DeltaView) -> bool {
        <DeltaKey as Sortable>::before(delta_key(a), delta_key(b))
    }

    proof fn lemma_order(a: DeltaView, b: DeltaView, c: DeltaView) {
        <DeltaKey as Sortable>::lemma_order(delta_key(a), delta_key(b), delta_key(c));
    }

    fn rank(&self, other: &Self) -> (r: Rank) {
        proof {
            Self::lemma_order(self@, other@, self@);
            Self::lemma_order(other@, self@, other@);
        }
        match self.src.rank(&other.src) {
            Rank::Less => Rank::Less,
            Rank::Greater => Rank::Greater,
            Rank::Equal => match self.trg.rank(&other.trg) {
                Rank::Less => Rank::Less,
                Rank::Greater => Rank::Greater,
                Rank::Equal => match self.edge_type.rank(&other.edge_type) {
                    Rank::Less => Rank::Less,
                    Rank::Greater => Rank::Greater,
                    Rank::Equal => match self.timestamp.rank(&other.timestamp) {
                        Rank::Less => Rank::Less,
                        Rank::Greater => Rank::Greater,
                        Rank::Equal => self.delta_type.rank(&other.delta_type),
                    },
                },
            },
        }
    }
}

/// The edge shape that a delta speaks of: its nodes and type, without times.
pub open spec fn shape_of(d: DeltaView) -> EdgeView {
    EdgeView {
        src: d.src,
        trg: d.trg,
        edge_type: d.edge_type,
        from_timestamp: None,
        to_timestamp: None,
    }
}

impl Delta {
    pub fn to_edge(&self) -> (r: Edge)
        ensures
            r@ == shape_of(self@),
    {
        Edge {
            src: self.src.dup(),
            trg: self.trg.dup(),
            edge_type: self.edge_type.dup(),
            from_timestamp: None,
            to_timestamp: None,
        }
    }
}

/// The deltas of one type, in their order.
pub open spec fn of_type(s: Seq<DeltaView>, t: DeltaType) -> Seq<DeltaView>
    decreases s.len(),
{
    if s.len() == 0 {
        s
    } else {
        let rest = of_type(s.drop_last(), t);
        if s.last().delta_type == t {
            rest.push(s.last())
        } else {
            rest
        }
    }
}

/// A delta put into a sequence sorted by timestamp, behind those that are not
/// later than it.
pub open spec fn insert_by_time(s: Seq<DeltaView>, d: DeltaView) -> Seq<DeltaView>
    decreases s.len(),
{
    if s.len() == 0 {
        seq![d]
    } else if s.last().timestamp <= d.timestamp {
        s.push(d)
    } else {
        insert_by_time(s.drop_last(), d).push(s.last())
    }
}

/// The deltas sorted by timestamp; deltas of one timestamp keep their order.
pub open spec fn sort_by_time(s: Seq<DeltaView>) -> Seq<DeltaView>
    decreases s.len(),
{
    if s.len() == 0 {
        s
    } else {
        insert_by_time(sort_by_time(s.drop_last()), s.last())
    }
}

/// The first position from `p` on whose addition is later than `bound`.
pub open spec fn next_after(adds: Seq<DeltaView>, p: int, bound: u64) -> int
    decreases adds.len() - p,
{
    if 0 <= p < adds.len() && adds[p].timestamp <= bound {
        next_after(adds, p + 1, bound)
    } else {
        p
    }
}

/// The edge that an addition opens, closed by a removal if there is one.
pub open spec fn edge_between(shape: DeltaView, from: u64, to: Option<u64>) -> EdgeView {
    EdgeView {
        src: shape.src,
        trg: shape.trg,
        edge_type: shape.edge_type,
        from_timestamp: Some(from),
        to_timestamp: to,
    }
}

/// The edges derived from sorted additions, from position `p` on, and sorted
/// removals, from position `i` on. Each removal takes the additions up to its
/// time that no earlier removal took, and gives one edge if there is any; the
/// additions that are left give one open edge.
pub open spec fn derive_edges(
    adds: Seq<DeltaView>,
    rems: Seq<DeltaView>,
    p: int,
    i: int,
) -> Seq<EdgeView>
    decreases rems.len() - i,
{
    if i < 0 || i >= rems.len() {
        if 0 <= p < adds.len() {
            seq![edge_between(adds[p], adds[p].timestamp, None)]
        } else {
            Seq::empty()
        }
    } else if 0 <= p < adds.len() && adds[p].timestamp <= rems[i].timestamp {
        seq![edge_between(rems[i], adds[p].timestamp, Some(rems[i].timestamp))] + derive_edges(
            adds,
            rems,
            next_after(adds, p, rems[i].timestamp),
            i + 1,
        )
    } else {
        derive_edges(adds, rems, p, i + 1)
    }
}

/// The edges that a history of deltas gives.
pub open spec fn edges_of(deltas: Seq<DeltaView>) -> Seq<EdgeView> {
    derive_edges(
        sort_by_time(of_type(deltas, DeltaType::Addition)),
        sort_by_time(of_type(deltas, DeltaType::Removal)),
        0,
        0,
    )
}

/// The least timestamp among the deltas of one type.
pub open spec fn least_time(s: Seq<DeltaView>, t: DeltaType) -> Option<u64>
    decreases s.len(),
{
    if s.len() == 0 {
        None
    } else {
        let rest = least_time(s.drop_last(), t);
        if s.last().delta_type == t && (rest is None || rest->0 > s.last().timestamp) {
            Some(s.last().timestamp)
        } else {
            rest
        }
    }
}

proof fn lemma_insert_position(s: Seq<DeltaView>, d: DeltaView, pos: int)
    requires
        0 <= pos <= s.len(),
        forall|j: int| pos <= j < s.len() ==> (#[trigger] s[j]).timestamp > d.timestamp,
        pos == 0 || s[pos - 1].timestamp <= d.timestamp,
    ensures
        insert_by_time(s, d) == s.insert(pos, d),
    decreases s.len(),
{
    if s.len() == 0 {
        assert(seq![d] =~= s.insert(pos, d));
    } else if pos == s.len() {
        assert(s.push(d) =~= s.insert(pos, d));
    } else {
        assert(s.last() == s[s.len() - 1]);
        lemma_insert_position(s.drop_last(), d, pos);
        assert(s.drop_last().insert(pos, d).push(s.last()) =~= s.insert(pos, d));
    }
}

/// Puts a delta into a vector sorted by timestamp.
fn insert_sorted<'a>(v: &mut Vec<&'a Delta>, d: &'a Delta)
    ensures
        final(v).deep_view() == insert_by_time(old(v).deep_view(), d@),
{
    let ghost before = v.deep_view();
    let mut pos: usize = v.len();
    while pos > 0 && v[pos - 1].timestamp > d.timestamp
        invariant
            pos <= v.len(),
            v.deep_view() == before,
            forall|j: int| pos <= j < before.len() ==> (#[trigger] before[j]).timestamp > d.timestamp,
        decreases pos,
    {
        pos = pos - 1;
    }
    v.insert(pos, d);
    proof {
        assert(v.deep_view() =~= before.insert(pos as int, d@));
        lemma_insert_position(before, d@, pos as int);
    }
}

/// The deltas of one type, sorted by timestamp.
fn sorted_of_type<'a>(deltas: &Vec<&'a Delta>, t: DeltaType) -> (r: Vec<&'a Delta>)
    ensures
        r.deep_view() == sort_by_time(of_type(deltas.deep_view(), t)),
{
    let mut out: Vec<&Delta> = Vec::new();
    let ghost dv = deltas.deep_view();
    let mut i: usize = 0;
    assert(out.deep_view() =~= sort_by_time(of_type(dv.take(0), t)));
    while i < deltas.len()
        invariant
            i <= deltas.len(),
            dv == deltas.deep_view(),
            out.deep_view() == sort_by_time(of_type(dv.take(i as int), t)),
        decreases deltas.len() - i,
    {
        proof {
            let cur = dv.take(i + 1);
            assert(cur.drop_last() =~= dv.take(i as int));
            assert(cur.last() == dv[i as int]);
            let f = of_type(dv.take(i as int), t);
            if dv[i as int].delta_type == t {
                assert(of_type(cur, t) == f.push(dv[i as int]));
                assert(f.push(dv[i as int]).drop_last() =~= f);
            }
        }
        if deltas[i].delta_type == t {
            insert_sorted(&mut out, deltas[i]);
        }
        i = i + 1;
    }
    assert(dv.take(i as int) =~= dv);
    out
}

impl Edge {
    /// The edge of a group of deltas: it has the shape of the first delta,
    /// begins with the earliest addition and ends with the earliest removal.
    /// A group without an addition gives no edge.
    pub fn from_deltas(deltas: &Vec<&Delta>) -> (r: Option<Edge>)
        requires
            deltas.len() > 0,
        ensures
            r is Some == (least_time(deltas.deep_view(), DeltaType::Addition) is Some),
            r is Some ==> r->0@ == (EdgeView {
                from_timestamp: least_time(deltas.deep_view(), DeltaType::Addition),
                to_timestamp: least_time(deltas.deep_view(), DeltaType::Removal),
                ..shape_of(deltas.deep_view()[0])
            }),
    {
        let mut edge = deltas[0].to_edge();
        let mut min_from: Option<u64> = None;
        let mut min_to: Option<u64> = None;
        let ghost dv = deltas.deep_view();
        let mut i: usize = 0;
        while i < deltas.len()
            invariant
                i <= deltas.len(),
                dv == deltas.deep_view(),
                min_from == least_time(dv.take(i as int), DeltaType::Addition),
                min_to == least_time(dv.take(i as int), DeltaType::Removal),
            decreases deltas.len() - i,
        {
            proof {
                let cur = dv.take(i + 1);
                assert(cur.drop_last() =~= dv.take(i as int));
                assert(cur.last() == dv[i as int]);
            }
            let d = deltas[i];
            if d.delta_type == DeltaType::Addition && (min_from.is_none() || min_from.unwrap()
                > d.timestamp) {
                min_from = Some(d.timestamp);
            }
            if d.delta_type == DeltaType::Removal && (min_to.is_none() || min_to.unwrap()
                > d.timestamp) {
                min_to = Some(d.timestamp);
            }
            i = i + 1;
        }
        assert(dv.take(i as int) =~= dv);
        if min_from.is_none() {
            None
        } else {
            edge.from_timestamp = min_from;
            edge.to_timestamp = min_to;
            Some(edge)
        }
    }
}

/// Every edge has a beginning.
pub open spec fn all_begin(edges: Seq<EdgeView>) -> bool {
    forall|i: int| 0 <= i < edges.len() ==> (#[trigger] edges[i]).from_timestamp is Some
}

/// The timestamps do not decrease along the sequence.
pub open spec fn sorted_by_time(s: Seq<DeltaView>) -> bool {
    forall|i: int, j: int| 0 <= i <= j < s.len() ==> (#[trigger] s[i]).timestamp <= (
    #[trigger] s[j]).timestamp
}

pub proof fn lemma_of_type_members(s: Seq<DeltaView>, t: DeltaType, x: DeltaView)
    ensures
        of_type(s, t).contains(x) <==> (s.contains(x) && x.delta_type == t),
    decreases s.len(),
{
    if s.len() > 0 {
        let rest = of_type(s.drop_last(), t);
        lemma_of_type_members(s.drop_last(), t, x);
        if s.contains(x) {
            let i = choose|i: int| 0 <= i < s.len() && s[i] == x;
            if i < s.len() - 1 {
                assert(s.drop_last()[i] == x);
            }
        }
        if s.drop_last().contains(x) {
            let i = choose|i: int| 0 <= i < s.drop_last().len() && s.drop_last()[i] == x;
            assert(s[i] == x);
        }
        assert(s[s.len() - 1] == s.last());
        if s.last().delta_type == t {
            lemma_push_contains(rest, s.last(), x);
        }
    }
}

proof fn lemma_push_contains<A>(s: Seq<A>, a: A, x: A)
    ensures
        s.push(a).contains(x) <==> (x == a || s.contains(x)),
{
    let t = s.push(a);
    if t.contains(x) {
        let j = choose|j: int| 0 <= j < t.len() && t[j] == x;
        if j < s.len() {
            assert(s[j] == x);
        }
    }
    if x == a {
        assert(t[s.len() as int] == x);
    }
    if s.contains(x) {
        let j = choose|j: int| 0 <= j < s.len() && s[j] == x;
        assert(t[j] == x);
    }
}

proof fn lemma_drop_last_contains<A>(s: Seq<A>, x: A)
    requires
        s.len() > 0,
    ensures
        s.contains(x) <==> (x == s.last() || s.drop_last().contains(x)),
{
    assert(s =~= s.drop_last().push(s.last()));
    lemma_push_contains(s.drop_last(), s.last(), x);
}

pub proof fn lemma_insert_by_time(s: Seq<DeltaView>, d: DeltaView)
    requires
        sorted_by_time(s),
    ensures
        sorted_by_time(insert_by_time(s, d)),
        insert_by_time(s, d).len() == s.len() + 1,
        forall|x: DeltaView| #[trigger] insert_by_time(s, d).contains(x) <==> (x == d || s.contains(x)),
    decreases s.len(),
{
    let r = insert_by_time(s, d);
    if s.len() == 0 {
        assert forall|x: DeltaView| #[trigger] r.contains(x) <==> (x == d || s.contains(x)) by {
            lemma_push_contains(s, d, x);
            assert(seq![d] =~= s.push(d));
        }
    } else if s.last().timestamp <= d.timestamp {
        assert forall|x: DeltaView| #[trigger] r.contains(x) <==> (x == d || s.contains(x)) by {
            lemma_push_contains(s, d, x);
        }
        assert forall|i: int, j: int| 0 <= i <= j < r.len() implies (#[trigger] r[i]).timestamp <= (
        #[trigger] r[j]).timestamp by {
            if j == s.len() && i < s.len() {
                assert(s[i].timestamp <= s[s.len() - 1].timestamp);
            }
        }
    } else {
        let head = s.drop_last();
        assert forall|i: int, j: int| 0 <= i <= j < head.len() implies (#[trigger] head[i]).timestamp
            <= (#[trigger] head[j]).timestamp by {
            assert(head[i] == s[i] && head[j] == s[j]);
        }
        lemma_insert_by_time(head, d);
        let mid = insert_by_time(head, d);
        assert forall|x: DeltaView| #[trigger] r.contains(x) <==> (x == d || s.contains(x)) by {
            lemma_push_contains(mid, s.last(), x);
            lemma_drop_last_contains(s, x);
            assert(mid.contains(x) <==> (x == d || head.contains(x)));
        }
        assert forall|i: int, j: int| 0 <= i <= j < r.len() implies (#[trigger] r[i]).timestamp <= (
        #[trigger] r[j]).timestamp by {
            if j == mid.len() && i < mid.len() {
                assert(mid.contains(mid[i]));
                if mid[i] != d {
                    assert(head.contains(mid[i]));
                    let k = choose|k: int| 0 <= k < head.len() && head[k] == mid[i];
                    assert(s[k].timestamp <= s[s.len() - 1].timestamp);
                }
            } else if j < mid.len() {
                assert(mid[i].timestamp <= mid[j].timestamp);
            }
        }
    }
}

/// Sorting by timestamp keeps the deltas and puts them in order.
pub proof fn lemma_sort_by_time(s: Seq<DeltaView>)
    ensures
        sorted_by_time(sort_by_time(s)),
        sort_by_time(s).len() == s.len(),
        forall|x: DeltaView| #[trigger] sort_by_time(s).contains(x) <==> s.contains(x),
    decreases s.len(),
{
    if s.len() > 0 {
        lemma_sort_by_time(s.drop_last());
        let head = sort_by_time(s.drop_last());
        lemma_insert_by_time(head, s.last());
        assert forall|x: DeltaView| #[trigger] sort_by_time(s).contains(x) <==> s.contains(x) by {
            lemma_drop_last_contains(s, x);
            assert(head.contains(x) <==> s.drop_last().contains(x));
        }
    }
}

proof fn lemma_next_after(adds: Seq<DeltaView>, p: int, bound: u64)
    requires
        0 <= p <= adds.len(),
    ensures
        p <= next_after(adds, p, bound) <= adds.len(),
        forall|k: int| p <= k < next_after(adds, p, bound) ==> (#[trigger] adds[k]).timestamp <= bound,
        next_after(adds, p, bound) < adds.len() ==> adds[next_after(adds, p, bound)].timestamp
            > bound,
    decreases adds.len() - p,
{
    if p < adds.len() && adds[p].timestamp <= bound {
        lemma_next_after(adds, p + 1, bound);
    }
}

/// Whether an addition from position `p` on is later than every removal from
/// position `i` on.
pub open spec fn addition_left_over(
    adds: Seq<DeltaView>,
    rems: Seq<DeltaView>,
    p: int,
    i: int,
) -> bool {
    p < adds.len() && forall|j: int| i <= j < rems.len() ==> adds.last().timestamp > (
    #[trigger] rems[j]).timestamp
}

proof fn lemma_derive_edges(adds: Seq<DeltaView>, rems: Seq<DeltaView>, p: int, i: int)
    requires
        sorted_by_time(adds),
        0 <= p <= adds.len(),
        0 <= i <= rems.len(),
    ensures
        all_begin(derive_edges(adds, rems, p, i)),
        forall|n: int|
            0 <= n < derive_edges(adds, rems, p, i).len() - 1 ==> (#[trigger] derive_edges(
                adds,
                rems,
                p,
                i,
            )[n]).to_timestamp is Some,
        (derive_edges(adds, rems, p, i).len() > 0 && derive_edges(
            adds,
            rems,
            p,
            i,
        ).last().to_timestamp is None) <==> addition_left_over(adds, rems, p, i),
        forall|n: int|
            0 <= n < derive_edges(adds, rems, p, i).len() && (#[trigger] derive_edges(
                adds,
                rems,
                p,
                i,
            )[n]).to_timestamp is Some ==> exists|j: int, k: int|
                i <= j < rems.len() && p <= k < adds.len() && (#[trigger] adds[k]).timestamp <= (
                #[trigger] rems[j]).timestamp && derive_edges(adds, rems, p, i)[n].to_timestamp
                    == Some(rems[j].timestamp),
    decreases rems.len() - i,
{
    let es = derive_edges(adds, rems, p, i);
    if i >= rems.len() {
    } else if p < adds.len() && adds[p].timestamp <= rems[i].timestamp {
        let q = next_after(adds, p, rems[i].timestamp);
        lemma_next_after(adds, p, rems[i].timestamp);
        lemma_derive_edges(adds, rems, q, i + 1);
        let tail = derive_edges(adds, rems, q, i + 1);
        let head = edge_between(rems[i], adds[p].timestamp, Some(rems[i].timestamp));
        assert(es == seq![head] + tail);
        assert(es[0] == head);
        assert forall|n: int| 1 <= n < es.len() implies es[n] == tail[n - 1] by {}
        assert(addition_left_over(adds, rems, p, i) <==> addition_left_over(adds, rems, q, i + 1))
            by {
            if addition_left_over(adds, rems, q, i + 1) {
                assert(adds[q].timestamp <= adds[adds.len() - 1].timestamp);
                assert forall|j: int| i <= j < rems.len() implies adds.last().timestamp > (
                #[trigger] rems[j]).timestamp by {
                    if j > i {
                        assert(i + 1 <= j);
                    }
                }
            }
            if addition_left_over(adds, rems, p, i) {
                assert(adds.last().timestamp > rems[i].timestamp);
                if q >= adds.len() {
                    assert(adds[adds.len() - 1].timestamp <= rems[i].timestamp);
                }
            }
        }
        if tail.len() > 0 {
            assert(es.last() == tail.last());
        }
        assert forall|n: int| 0 <= n < es.len() && (#[trigger] es[n]).to_timestamp is Some implies exists|
            j: int,
            k: int,
        |
            i <= j < rems.len() && p <= k < adds.len() && (#[trigger] adds[k]).timestamp <= (
            #[trigger] rems[j]).timestamp && es[n].to_timestamp == Some(rems[j].timestamp) by {
            if n == 0 {
                assert(adds[p].timestamp <= rems[i].timestamp);
            } else {
                assert(tail[n - 1].to_timestamp is Some);
                let (j, k) = choose|j: int, k: int|
                    i + 1 <= j < rems.len() && q <= k < adds.len() && (#[trigger] adds[k]).timestamp
                        <= (#[trigger] rems[j]).timestamp && tail[n - 1].to_timestamp == Some(
                        rems[j].timestamp,
                    );
                assert(adds[k].timestamp <= rems[j].timestamp);
            }
        }
    } else {
        lemma_derive_edges(adds, rems, p, i + 1);
        assert(addition_left_over(adds, rems, p, i) <==> addition_left_over(adds, rems, p, i + 1))
            by {
            if addition_left_over(adds, rems, p, i + 1) {
                assert(adds[p].timestamp <= adds[adds.len() - 1].timestamp);
                assert forall|j: int| i <= j < rems.len() implies adds.last().timestamp > (
                #[trigger] rems[j]).timestamp by {
                    if j > i {
                        assert(i + 1 <= j);
                    }
                }
            }
        }
        assert forall|n: int| 0 <= n < es.len() && (#[trigger] es[n]).to_timestamp is Some implies exists|
            j: int,
            k: int,
        |
            i <= j < rems.len() && p <= k < adds.len() && (#[trigger] adds[k]).timestamp <= (
            #[trigger] rems[j]).timestamp && es[n].to_timestamp == Some(rems[j].timestamp) by {
            let (j, k) = choose|j: int, k: int|
                i + 1 <= j < rems.len() && p <= k < adds.len() && (#[trigger] adds[k]).timestamp <= (
                #[trigger] rems[j]).timestamp && es[n].to_timestamp == Some(rems[j].timestamp);
            assert(adds[k].timestamp <= rems[j].timestamp);
        }
    }
}

/// Every derived edge has a beginning.
pub proof fn lemma_edges_begin(deltas: Seq<DeltaView>)
    ensures
        all_begin(edges_of(deltas)),
{
    let adds = sort_by_time(of_type(deltas, DeltaType::Addition));
    let rems = sort_by_time(of_type(deltas, DeltaType::Removal));
    lemma_sort_by_time(of_type(deltas, DeltaType::Addition));
    lemma_derive_edges(adds, rems, 0, 0);
}

/// A removal that is earlier than every addition yields no edge: no derived
/// edge ends with it.
pub proof fn lemma_removal_before_first_addition(deltas: Seq<DeltaView>, r: DeltaView)
    requires
        deltas.contains(r),
        r.delta_type == DeltaType::Removal,
        forall|a: DeltaView|
            deltas.contains(a) && a.delta_type == DeltaType::Addition ==> a.timestamp > r.timestamp,
    ensures
        forall|n: int|
            0 <= n < edges_of(deltas).len() ==> (#[trigger] edges_of(deltas)[n]).to_timestamp
                != Some(r.timestamp),
{
    let adds = sort_by_time(of_type(deltas, DeltaType::Addition));
    let rems = sort_by_time(of_type(deltas, DeltaType::Removal));
    lemma_sort_by_time(of_type(deltas, DeltaType::Addition));
    lemma_derive_edges(adds, rems, 0, 0);
    let es = edges_of(deltas);
    assert forall|n: int| 0 <= n < es.len() implies (#[trigger] es[n]).to_timestamp != Some(
        r.timestamp,
    ) by {
        if es[n].to_timestamp == Some(r.timestamp) {
            let (j, k) = choose|j: int, k: int|
                0 <= j < rems.len() && 0 <= k < adds.len() && (#[trigger] adds[k]).timestamp <= (
                #[trigger] rems[j]).timestamp && es[n].to_timestamp == Some(rems[j].timestamp);
            assert(adds.contains(adds[k]));
            lemma_of_type_members(deltas, DeltaType::Addition, adds[k]);
            assert(false);
        }
    }
}

/// Additions that are later than every removal yield exactly one open edge:
/// the last derived edge is open, and no other is.
pub proof fn lemma_additions_after_all_removals(deltas: Seq<DeltaView>, a: DeltaView)
    requires
        deltas.contains(a),
        a.delta_type == DeltaType::Addition,
        forall|r: DeltaView|
            deltas.contains(r) && r.delta_type == DeltaType::Removal ==> r.timestamp < a.timestamp,
    ensures
        edges_of(deltas).len() > 0,
        edges_of(deltas).last().to_timestamp is None,
        forall|n: int|
            0 <= n < edges_of(deltas).len() - 1 ==> (#[trigger] edges_of(deltas)[n]).to_timestamp
                is Some,
{
    let adds = sort_by_time(of_type(deltas, DeltaType::Addition));
    let rems = sort_by_time(of_type(deltas, DeltaType::Removal));
    lemma_sort_by_time(of_type(deltas, DeltaType::Addition));
    lemma_sort_by_time(of_type(deltas, DeltaType::Removal));
    lemma_derive_edges(adds, rems, 0, 0);
    lemma_of_type_members(deltas, DeltaType::Addition, a);
    assert(adds.contains(a));
    let k = choose|k: int| 0 <= k < adds.len() && adds[k] == a;
    assert(adds[k].timestamp <= adds[adds.len() - 1].timestamp);
    assert forall|j: int| 0 <= j < rems.len() implies adds.last().timestamp > (
    #[trigger] rems[j]).timestamp by {
        assert(rems.contains(rems[j]));
        lemma_of_type_members(deltas, DeltaType::Removal, rems[j]);
    }
    assert(addition_left_over(adds, rems, 0, 0));
}

/// Derives the edge intervals of a history of deltas.
pub fn edges_from_deltas(deltas: &Vec<&Delta>) -> (r: Vec<Edge>)
    ensures
        r.deep_view() == edges_of(deltas.deep_view()),
        all_begin(r.deep_view()),
{
    proof {
        lemma_edges_begin(deltas.deep_view());
    }
    let adds = sorted_of_type(deltas, DeltaType::Addition);
    let rems = sorted_of_type(deltas, DeltaType::Removal);
    let ghost av = adds.deep_view();
    let ghost rv = rems.deep_view();
    let mut edges: Vec<Edge> = Vec::new();
    let mut p: usize = 0;
    let mut i: usize = 0;
    assert(edges.deep_view() + derive_edges(av, rv, 0, 0) =~= derive_edges(av, rv, 0, 0));
    while i < rems.len()
        invariant
            i <= rems.len(),
            p <= adds.len(),
            av == adds.deep_view(),
            rv == rems.deep_view(),
            edges.deep_view() + derive_edges(av, rv, p as int, i as int) == edges_of(
                deltas.deep_view(),
            ),
        decreases rems.len() - i,
    {
        let r = rems[i];
        if p < adds.len() && adds[p].timestamp <= r.timestamp {
            let mut edge = r.to_edge();
            edge.from_timestamp = Some(adds[p].timestamp);
            edge.to_timestamp = Some(r.timestamp);
            let ghost prev = edges.deep_view();
            let ghost p0 = p as int;
            edges.push(edge);
            while p < adds.len() && adds[p].timestamp <= r.timestamp
                invariant
                    p <= adds.len(),
                    av == adds.deep_view(),
                    next_after(av, p as int, r.timestamp) == next_after(av, p0, r.timestamp),
                decreases adds.len() - p,
            {
                p = p + 1;
            }
            proof {
                let e = edge_between(rv[i as int], av[p0].timestamp, Some(rv[i as int].timestamp));
                assert(edges.deep_view() =~= prev.push(e));
                let tail = derive_edges(av, rv, p as int, i + 1);
                assert(derive_edges(av, rv, p0, i as int) == seq![e] + tail);
                assert(prev.push(e) + tail =~= prev + (seq![e] + tail));
            }
        }
        i = i + 1;
    }
    if p < adds.len() {
        let a = adds[p];
        let mut edge = a.to_edge();
        edge.from_timestamp = Some(a.timestamp);
        let ghost prev = edges.deep_view();
        edges.push(edge);
        proof {
            let e = edge_between(av[p as int], av[p as int].timestamp, None);
            assert(edges.deep_view() =~= prev.push(e));
            assert(prev.push(e) =~= prev + seq![e]);
        }
    } else {
        assert(edges.deep_view() + Seq::<EdgeView>::empty() =~= edges.deep_view());
    }
    edges
}

/// The node at the end of an edge at which an adjacency list gathers it: its
/// target for the incoming edges, its source for the outgoing ones.
pub open spec fn end_of(e: EdgeView, incoming: bool) -> NodeView {
    if incoming {
        e.trg
    } else {
        e.src
    }
}

/// The edges that arrive at a node (or leave it), in their order.
pub open spec fn edges_at(edges: Seq<EdgeView>, n: NodeView, incoming: bool) -> Seq<EdgeView>
    decreases edges.len(),
{
    if edges.len() == 0 {
        edges
    } else {
        let rest = edges_at(edges.drop_last(), n, incoming);
        if end_of(edges.last(), incoming) == n {
            rest.push(edges.last())
        } else {
            rest
        }
    }
}

/// The nodes that some edge begins or ends at.
pub open spec fn nodes_touched(edges: Seq<EdgeView>) -> Set<NodeView> {
    Set::new(
        |n: NodeView|
            exists|j: int| 0 <= j < edges.len() && ((#[trigger] edges[j]).src == n || edges[j].trg == n),
    )
}

/// An adjacency map of the edges: every node that an edge touches has the
/// list of the edges that arrive at it (or leave it), and no other node has
/// one.
pub open spec fn is_adjacency(
    edges: Seq<EdgeView>,
    m: Map<NodeView, Seq<EdgeView>>,
    incoming: bool,
) -> bool {
    &&& m.dom() == nodes_touched(edges)
    &&& forall|n: NodeView| #[trigger] m.dom().contains(n) ==> m[n] == edges_at(edges, n, incoming)
}

proof fn lemma_untouched_has_no_edges(edges: Seq<EdgeView>, n: NodeView, incoming: bool)
    requires
        !nodes_touched(edges).contains(n),
    ensures
        edges_at(edges, n, incoming).len() == 0,
    decreases edges.len(),
{
    if edges.len() > 0 {
        let head = edges.drop_last();
        assert(edges[edges.len() - 1] == edges.last());
        if nodes_touched(head).contains(n) {
            let j = choose|j: int| 0 <= j < head.len() && ((#[trigger] head[j]).src == n || head[j].trg == n);
            assert(edges[j] == head[j]);
        }
        lemma_untouched_has_no_edges(head, n, incoming);
    }
}

/// A working set of edges with its adjacency by node.
#[derive(Debug, PartialEq, Eq)]
pub struct Graph {
    pub edges: Vec<Edge>,
    pub incoming: OrderedMap<Node, Vec<Edge>>,
    pub outgoing: OrderedMap<Node, Vec<Edge>>,
}

/// What a graph holds.
pub struct GraphView {
    pub edges: Seq<EdgeView>,
    pub incoming: Seq<(NodeView, Seq<EdgeView>)>,
    pub outgoing: Seq<(NodeView, Seq<EdgeView>)>,
}

impl DeepView for Graph {
    type V = GraphView;

    open spec fn deep_view(&self) -> GraphView {
        GraphView {
            edges: self.edges.deep_view(),
            incoming: self.incoming@,
            outgoing: self.outgoing@,
        }
    }
}

impl View for Graph {
    type V = GraphView;

    open spec fn view(&self) -> GraphView {
        self.deep_view()
    }
}

impl Value for Graph {
    fn dup(&self) -> (r: Self) {
        Graph {
            edges: self.edges.dup(),
            incoming: self.incoming.dup(),
            outgoing: self.outgoing.dup(),
        }
    }
}

impl Clone for Graph {
    fn clone(&self) -> (r: Self)
        ensures
            r@ == self@,
    {
        self.dup()
    }
}

fn adjacency(edges: &Vec<Edge>, incoming: bool) -> (r: OrderedMap<Node, Vec<Edge>>)
    ensures
        is_adjacency(edges.deep_view(), r.map(), incoming),
{
    let mut out: OrderedMap<Node, Vec<Edge>> = OrderedMap::new();
    let ghost ev = edges.deep_view();
    let mut i: usize = 0;
    proof {
        assert(out.map().dom() =~= nodes_touched(ev.take(0)));
    }
    while i < edges.len()
        invariant
            i <= edges.len(),
            ev == edges.deep_view(),
            is_adjacency(ev.take(i as int), out.map(), incoming),
        decreases edges.len() - i,
    {
        let e = &edges[i];
        let ghost before = out.map();
        let ghost cur = ev.take(i + 1);
        let ghost head = ev.take(i as int);
        proof {
            assert(cur.drop_last() =~= head);
            assert(cur.last() == ev[i as int]);
            assert(ev[i as int] == e@);
        }
        let (here, there) = if incoming {
            (&e.trg, &e.src)
        } else {
            (&e.src, &e.trg)
        };
        assert(end_of(e@, incoming) == here@);
        let found = out.remove(here);
        let mut list: Vec<Edge> = match found {
            Some(l) => {
                assert(before.dom().contains(here@));
                assert(l.deep_view() == before[here@]);
                l
            },
            None => {
                proof {
                    assert(!before.dom().contains(here@));
                    lemma_untouched_has_no_edges(head, here@, incoming);
                }
                let l: Vec<Edge> = Vec::new();
                assert(l.deep_view() =~= Seq::<EdgeView>::empty());
                l
            },
        };
        let ghost lv = list.deep_view();
        assert(lv =~= edges_at(head, here@, incoming));
        list.push(e.dup());
        assert(list.deep_view() =~= lv.push(e@));
        out.insert(here.dup(), list);
        let ghost mid = out.map();
        assert(mid == before.remove(here@).insert(here@, lv.push(e@)));
        if !out.contains_key(there) {
            proof {
                assert(!before.dom().contains(there@));
                lemma_untouched_has_no_edges(head, there@, incoming);
            }
            let empty: Vec<Edge> = Vec::new();
            assert(empty.deep_view() =~= Seq::<EdgeView>::empty());
            out.insert(there.dup(), empty);
        }
        proof {
            let after = out.map();
            assert forall|n: NodeView| #[trigger] after.dom().contains(n) implies after[n]
                == edges_at(cur, n, incoming) by {
                if n == here@ {
                    assert(after[n] == lv.push(e@));
                } else if mid.dom().contains(n) {
                    assert(before.dom().contains(n));
                    assert(after[n] == before[n]);
                } else {
                    assert(n == there@);
                }
            }
            assert forall|n: NodeView| after.dom().contains(n) == nodes_touched(cur).contains(
                n,
            ) by {
                if nodes_touched(cur).contains(n) {
                    let j = choose|j: int|
                        0 <= j < cur.len() && ((#[trigger] cur[j]).src == n || cur[j].trg == n);
                    if j < i {
                        assert(head[j] == cur[j]);
                        assert(nodes_touched(head).contains(n));
                    }
                }
                if nodes_touched(head).contains(n) {
                    let j = choose|j: int|
                        0 <= j < head.len() && ((#[trigger] head[j]).src == n || head[j].trg == n);
                    assert(cur[j] == head[j]);
                }
                if n == e@.src || n == e@.trg {
                    assert(cur[i as int].src == n || cur[i as int].trg == n);
                }
            }
            assert(after.dom() =~= nodes_touched(cur));
        }
        i = i + 1;
    }
    assert(ev.take(i as int) =~= ev);
    out
}

impl Graph {
    /// The graph of a list of edges, with the edges that arrive at and leave
    /// each node that they touch.
    pub fn from_edges(edges: Vec<Edge>) -> (r: Graph)
        ensures
            r@.edges == edges.deep_view(),
            is_adjacency(edges.deep_view(), r.incoming.map(), true),
            is_adjacency(edges.deep_view(), r.outgoing.map(), false),
    {
        let incoming = adjacency(&edges, true);
        let outgoing = adjacency(&edges, false);
        Graph { edges, incoming, outgoing }
    }
}

/// The sequence that holds the members of a set of deltas in increasing
/// order.
pub open spec fn sorted_deltas(s: Set<DeltaView>) -> Seq<DeltaView> {
    choose|q: Seq<DeltaView>| strictly_sorted::<Delta>(q) && q.to_set() == s
}

/// A strictly increasing sequence of deltas is the sorted sequence of its
/// members.
pub proof fn lemma_sorted_deltas(q: Seq<DeltaView>)
    requires
        strictly_sorted::<Delta>(q),
    ensures
        sorted_deltas(q.to_set()) == q,
{
    lemma_sorted_unique::<Delta>(sorted_deltas(q.to_set()), q);
}

} // verus!
