//! The messages that components exchange with each other and with the
//! application, as plain values, and their mapping to and from the values of
//! the engine.

use crate::event::{
    Deltas, DeltasView, Event, EventView, Retractions, RetractionsView, Update, UpdateView,
};
use crate::graph::{
    lemma_sorted_deltas, sorted_deltas, Delta, DeltaType, DeltaView, Edge, EdgeView, Graph, Node,
    NodeClass, NodeView,
};
use crate::order::Value;
use crate::ordered::{strictly_sorted, OrderedSet};
use crate::query::{GroupedQueryMatch, MatchEntries, QueryMatch};
use vstd::prelude::*;

verus! {

/// Bytes that may be absent from a message.
#[derive(Debug, PartialEq, Eq)]
pub struct OptionalBytes {
    pub b: Vec<u8>,
}

/// What an optional bytes holds.
pub struct OptionalBytesView {
    pub b: Seq<u8>,
}

impl DeepView for OptionalBytes {
    type V = OptionalBytesView;

    open spec fn deep_view(&self) -> OptionalBytesView {
        OptionalBytesView {
            b: self.b.deep_view(),
        }
    }
}

impl View for OptionalBytes {
    type V = OptionalBytesView;

    open spec fn view(&self) -> OptionalBytesView {
        self.deep_view()
    }
}

impl Value for OptionalBytes {
    fn dup(&self) -> (r: Self) {
        OptionalBytes {
            b: self.b.dup(),
        }
    }
}

impl Clone for OptionalBytes {
    fn clone(&self) -> (r: Self)
        ensures
            r@ == self@,
    {
        self.dup()
    }
}

/// A string that may be absent from a message.
#[derive(Debug, PartialEq, Eq)]
pub struct OptionalString {
    pub s: String,
}

/// What an optional string holds.
pub struct OptionalStringView {
    pub s: Seq<char>,
}

impl DeepView for OptionalString {
    type V = OptionalStringView;

    open spec fn deep_view(&self) -> OptionalStringView {
        OptionalStringView {
            s: self.s.deep_view(),
        }
    }
}

impl View for OptionalString {
    type V = OptionalStringView;

    open spec fn view(&self) -> OptionalStringView {
        self.deep_view()
    }
}

impl Value for OptionalString {
    fn dup(&self) -> (r: Self) {
        OptionalString {
            s: self.s.dup(),
        }
    }
}

impl Clone for OptionalString {
    fn clone(&self) -> (r: Self)
        ensures
            r@ == self@,
    {
        self.dup()
    }
}

/// A node of the instance graph on the wire.
#[derive(Debug, PartialEq, Eq)]
pub struct InstanceNode {
    pub instance_node_id: String,
    pub node_type: String,
    pub node_class: i32,
    pub value: Option<OptionalBytes>,
}

/// What an instance node holds.
pub struct InstanceNodeView {
    pub instance_node_id: Seq<char>,
    pub node_type: Seq<char>,
    pub node_class: i32,
    pub value: Option<OptionalBytesView>,
}

impl DeepView for InstanceNode {
    type V = InstanceNodeView;

    open spec fn deep_view(&self) -> InstanceNodeView {
        InstanceNodeView {
            instance_node_id: self.instance_node_id.deep_view(),
            node_type: self.node_type.deep_view(),
            node_class: self.node_class,
            value: self.value.deep_view(),
        }
    }
}

impl View for InstanceNode {
    type V = InstanceNodeView;

    open spec fn view(&self) -> InstanceNodeView {
        self.deep_view()
    }
}

impl Value for InstanceNode {
    fn dup(&self) -> (r: Self) {
        InstanceNode {
            instance_node_id: self.instance_node_id.dup(),
            node_type: self.node_type.dup(),
            node_class: self.node_class,
            value: self.value.dup(),
        }
    }
}

impl Clone for InstanceNode {
    fn clone(&self) -> (r: Self)
        ensures
            r@ == self@,
    {
        self.dup()
    }
}

/// A delta on the wire.
#[derive(Debug, PartialEq, Eq)]
pub struct DeltaMessage {
    pub src: Option<InstanceNode>,
    pub trg: Option<InstanceNode>,
    pub edge_type: String,
    pub timestamp: u64,
    pub delta_type: i32,
}

/// What a delta message holds.
pub struct DeltaMessageView {
    pub src: Option<InstanceNodeView>,
    pub trg: Option<InstanceNodeView>,
    pub edge_type: Seq<char>,
    pub timestamp: u64,
    pub delta_type: i32,
}

impl DeepView for DeltaMessage {
    type V = DeltaMessageView;

    open spec fn deep_view(&self) -> DeltaMessageView {
        DeltaMessageView {
            src: self.src.deep_view(),
            trg: self.trg.deep_view(),
            edge_type: self.edge_type.deep_view(),
            timestamp: self.timestamp,
            delta_type: self.delta_type,
        }
    }
}

impl View for DeltaMessage {
    type V = DeltaMessageView;

    open spec fn view(&self) -> DeltaMessageView {
        self.deep_view()
    }
}

impl Value for DeltaMessage {
    fn dup(&self) -> (r: Self) {
        DeltaMessage {
            src: self.src.dup(),
            trg: self.trg.dup(),
            edge_type: self.edge_type.dup(),
            timestamp: self.timestamp,
            delta_type: self.delta_type,
        }
    }
}

impl Clone for DeltaMessage {
    fn clone(&self) -> (r: Self)
        ensures
            r@ == self@,
    {
        self.dup()
    }
}

/// An event on the wire.
#[derive(Debug, PartialEq, Eq)]
pub struct EventMessage {
    pub event_id: String,
    pub instance_node_id: String,
    pub timestamp: u64,
    pub payload: Vec<u8>,
}

/// What an event message holds.
pub struct EventMessageView {
    pub event_id: Seq<char>,
    pub instance_node_id: Seq<char>,
    pub timestamp: u64,
    pub payload: Seq<u8>,
}

impl DeepView for EventMessage {
    type V = EventMessageView;

    open spec fn deep_view(&self) -> EventMessageView {
        EventMessageView {
            event_id: self.event_id.deep_view(),
            instance_node_id: self.instance_node_id.deep_view(),
            timestamp: self.timestamp,
            payload: self.payload.deep_view(),
        }
    }
}

impl View for EventMessage {
    type V = EventMessageView;

    open spec fn view(&self) -> EventMessageView {
        self.deep_view()
    }
}

impl Value for EventMessage {
    fn dup(&self) -> (r: Self) {
        EventMessage {
            event_id: self.event_id.dup(),
            instance_node_id: self.instance_node_id.dup(),
            timestamp: self.timestamp,
            payload: self.payload.dup(),
        }
    }
}

impl Clone for EventMessage {
    fn clone(&self) -> (r: Self)
        ensures
            r@ == self@,
    {
        self.dup()
    }
}

/// A package of deltas on the wire.
#[derive(Debug, PartialEq, Eq)]
pub struct DeltasMessage {
    pub deltas_id: String,
    pub origin_id: String,
    pub origin_timestamp: u64,
    pub deltas: Vec<DeltaMessage>,
}

/// What a deltas message holds.
pub struct DeltasMessageView {
    pub deltas_id: Seq<char>,
    pub origin_id: Seq<char>,
    pub origin_timestamp: u64,
    pub deltas: Seq<DeltaMessageView>,
}

impl DeepView for DeltasMessage {
    type V = DeltasMessageView;

    open spec fn deep_view(&self) -> DeltasMessageView {
        DeltasMessageView {
            deltas_id: self.deltas_id.deep_view(),
            origin_id: self.origin_id.deep_view(),
            origin_timestamp: self.origin_timestamp,
            deltas: self.deltas.deep_view(),
        }
    }
}

impl View for DeltasMessage {
    type V = DeltasMessageView;

    open spec fn view(&self) -> DeltasMessageView {
        self.deep_view()
    }
}

impl Value for DeltasMessage {
    fn dup(&self) -> (r: Self) {
        DeltasMessage {
            deltas_id: self.deltas_id.dup(),
            origin_id: self.origin_id.dup(),
            origin_timestamp: self.origin_timestamp,
            deltas: self.deltas.dup(),
        }
    }
}

impl Clone for DeltasMessage {
    fn clone(&self) -> (r: Self)
        ensures
            r@ == self@,
    {
        self.dup()
    }
}

/// A retraction on the wire.
#[derive(Debug, PartialEq, Eq)]
pub struct RetractionsMessage {
    pub retraction_id: String,
    pub origin_timestamp: u64,
    pub delta_ids: Vec<String>,
}

/// What a retractions message holds.
pub struct RetractionsMessageView {
    pub retraction_id: Seq<char>,
    pub origin_timestamp: u64,
    pub delta_ids: Seq<Seq<char>>,
}

impl DeepView for RetractionsMessage {
    type V = RetractionsMessageView;

    open spec fn deep_view(&self) -> RetractionsMessageView {
        RetractionsMessageView {
            retraction_id: self.retraction_id.deep_view(),
            origin_timestamp: self.origin_timestamp,
            delta_ids: self.delta_ids.deep_view(),
        }
    }
}

impl View for RetractionsMessage {
    type V = RetractionsMessageView;

    open spec fn view(&self) -> RetractionsMessageView {
        self.deep_view()
    }
}

impl Value for RetractionsMessage {
    fn dup(&self) -> (r: Self) {
        RetractionsMessage {
            retraction_id: self.retraction_id.dup(),
            origin_timestamp: self.origin_timestamp,
            delta_ids: self.delta_ids.dup(),
        }
    }
}

impl Clone for RetractionsMessage {
    fn clone(&self) -> (r: Self)
        ensures
            r@ == self@,
    {
        self.dup()
    }
}

/// An update on the wire.
#[derive(Debug, PartialEq, Eq)]
pub enum UpdateMessage {
    Stop,
    Event(EventMessage),
    Deltas(DeltasMessage),
    Retractions(RetractionsMessage),
}

/// What an update on the wire holds.
pub enum UpdateMessageView {
    Stop,
    Event(EventMessageView),
    Deltas(DeltasMessageView),
    Retractions(RetractionsMessageView),
}

impl DeepView for UpdateMessage {
    type V = UpdateMessageView;

    open spec fn deep_view(&self) -> UpdateMessageView {
        match self {
            UpdateMessage::Stop => UpdateMessageView::Stop,
            UpdateMessage::Event(e) => UpdateMessageView::Event(e@),
            UpdateMessage::Deltas(ds) => UpdateMessageView::Deltas(ds@),
            UpdateMessage::Retractions(rs) => UpdateMessageView::Retractions(rs@),
        }
    }
}

impl View for UpdateMessage {
    type V = UpdateMessageView;

    open spec fn view(&self) -> UpdateMessageView {
        self.deep_view()
    }
}

impl Value for UpdateMessage {
    fn dup(&self) -> (r: Self) {
        match self {
            UpdateMessage::Stop => UpdateMessage::Stop,
            UpdateMessage::Event(e) => UpdateMessage::Event(e.dup()),
            UpdateMessage::Deltas(ds) => UpdateMessage::Deltas(ds.dup()),
            UpdateMessage::Retractions(rs) => UpdateMessage::Retractions(rs.dup()),
        }
    }
}

impl Clone for UpdateMessage {
    fn clone(&self) -> (r: Self)
        ensures
            r@ == self@,
    {
        self.dup()
    }
}

/// The request to process an update.
#[derive(Debug, PartialEq, Eq)]
pub struct ProcessUpdateRequest {
    pub update: Option<UpdateMessage>,
}

/// What a process update request holds.
pub struct ProcessUpdateRequestView {
    pub update: Option<UpdateMessageView>,
}

impl DeepView for ProcessUpdateRequest {
    type V = ProcessUpdateRequestView;

    open spec fn deep_view(&self) -> ProcessUpdateRequestView {
        ProcessUpdateRequestView {
            update: self.update.deep_view(),
        }
    }
}

impl View for ProcessUpdateRequest {
    type V = ProcessUpdateRequestView;

    open spec fn view(&self) -> ProcessUpdateRequestView {
        self.deep_view()
    }
}

impl Value for ProcessUpdateRequest {
    fn dup(&self) -> (r: Self) {
        ProcessUpdateRequest {
            update: self.update.dup(),
        }
    }
}

impl Clone for ProcessUpdateRequest {
    fn clone(&self) -> (r: Self)
        ensures
            r@ == self@,
    {
        self.dup()
    }
}

/// The answer to a request to process an update: the number of updates that wait.
#[derive(Debug, PartialEq, Eq)]
pub struct ProcessUpdateResponse {
    pub queue_size: u32,
}

/// What a process update response holds.
pub struct ProcessUpdateResponseView {
    pub queue_size: u32,
}

impl DeepView for ProcessUpdateResponse {
    type V = ProcessUpdateResponseView;

    open spec fn deep_view(&self) -> ProcessUpdateResponseView {
        ProcessUpdateResponseView {
            queue_size: self.queue_size,
        }
    }
}

impl View for ProcessUpdateResponse {
    type V = ProcessUpdateResponseView;

    open spec fn view(&self) -> ProcessUpdateResponseView {
        self.deep_view()
    }
}

impl Value for ProcessUpdateResponse {
    fn dup(&self) -> (r: Self) {
        ProcessUpdateResponse {
            queue_size: self.queue_size,
        }
    }
}

impl Clone for ProcessUpdateResponse {
    fn clone(&self) -> (r: Self)
        ensures
            r@ == self@,
    {
        self.dup()
    }
}

/// A node of a query pattern on the wire.
#[derive(Debug, PartialEq, Eq)]
pub struct QueryNode {
    pub query_node_name: String,
    pub instance_node_id: Option<OptionalString>,
    pub node_type: Option<OptionalString>,
    pub node_class: i32,
}

/// What a query node holds.
pub struct QueryNodeView {
    pub query_node_name: Seq<char>,
    pub instance_node_id: Option<OptionalStringView>,
    pub node_type: Option<OptionalStringView>,
    pub node_class: i32,
}

impl DeepView for QueryNode {
    type V = QueryNodeView;

    open spec fn deep_view(&self) -> QueryNodeView {
        QueryNodeView {
            query_node_name: self.query_node_name.deep_view(),
            instance_node_id: self.instance_node_id.deep_view(),
            node_type: self.node_type.deep_view(),
            node_class: self.node_class,
        }
    }
}

impl View for QueryNode {
    type V = QueryNodeView;

    open spec fn view(&self) -> QueryNodeView {
        self.deep_view()
    }
}

impl Value for QueryNode {
    fn dup(&self) -> (r: Self) {
        QueryNode {
            query_node_name: self.query_node_name.dup(),
            instance_node_id: self.instance_node_id.dup(),
            node_type: self.node_type.dup(),
            node_class: self.node_class,
        }
    }
}

impl Clone for QueryNode {
    fn clone(&self) -> (r: Self)
        ensures
            r@ == self@,
    {
        self.dup()
    }
}

/// An edge of a query pattern on the wire.
#[derive(Debug, PartialEq, Eq)]
pub struct QueryEdge {
    pub src: Option<QueryNode>,
    pub trg: Option<QueryNode>,
    pub edge_type: String,
}

/// What a query edge holds.
pub struct QueryEdgeView {
    pub src: Option<QueryNodeView>,
    pub trg: Option<QueryNodeView>,
    pub edge_type: Seq<char>,
}

impl DeepView for QueryEdge {
    type V = QueryEdgeView;

    open spec fn deep_view(&self) -> QueryEdgeView {
        QueryEdgeView {
            src: self.src.deep_view(),
            trg: self.trg.deep_view(),
            edge_type: self.edge_type.deep_view(),
        }
    }
}

impl View for QueryEdge {
    type V = QueryEdgeView;

    open spec fn view(&self) -> QueryEdgeView {
        self.deep_view()
    }
}

impl Value for QueryEdge {
    fn dup(&self) -> (r: Self) {
        QueryEdge {
            src: self.src.dup(),
            trg: self.trg.dup(),
            edge_type: self.edge_type.dup(),
        }
    }
}

impl Clone for QueryEdge {
    fn clone(&self) -> (r: Self)
        ensures
            r@ == self@,
    {
        self.dup()
    }
}

/// An edge of the instance graph on the wire.
#[derive(Debug, PartialEq, Eq)]
pub struct InstanceEdge {
    pub src: Option<InstanceNode>,
    pub trg: Option<InstanceNode>,
    pub from_timestamp: u64,
    pub edge_type: String,
}

/// What an instance edge holds.
pub struct InstanceEdgeView {
    pub src: Option<InstanceNodeView>,
    pub trg: Option<InstanceNodeView>,
    pub from_timestamp: u64,
    pub edge_type: Seq<char>,
}

impl DeepView for InstanceEdge {
    type V = InstanceEdgeView;

    open spec fn deep_view(&self) -> InstanceEdgeView {
        InstanceEdgeView {
            src: self.src.deep_view(),
            trg: self.trg.deep_view(),
            from_timestamp: self.from_timestamp,
            edge_type: self.edge_type.deep_view(),
        }
    }
}

impl View for InstanceEdge {
    type V = InstanceEdgeView;

    open spec fn view(&self) -> InstanceEdgeView {
        self.deep_view()
    }
}

impl Value for InstanceEdge {
    fn dup(&self) -> (r: Self) {
        InstanceEdge {
            src: self.src.dup(),
            trg: self.trg.dup(),
            from_timestamp: self.from_timestamp,
            edge_type: self.edge_type.dup(),
        }
    }
}

impl Clone for InstanceEdge {
    fn clone(&self) -> (r: Self)
        ensures
            r@ == self@,
    {
        self.dup()
    }
}

/// A query edge with the graph edge that a match maps it to.
#[derive(Debug, PartialEq, Eq)]
pub struct MatchTuple {
    pub src: Option<QueryEdge>,
    pub trg: Option<InstanceEdge>,
}

/// What a match tuple holds.
pub struct MatchTupleView {
    pub src: Option<QueryEdgeView>,
    pub trg: Option<InstanceEdgeView>,
}

impl DeepView for MatchTuple {
    type V = MatchTupleView;

    open spec fn deep_view(&self) -> MatchTupleView {
        MatchTupleView {
            src: self.src.deep_view(),
            trg: self.trg.deep_view(),
        }
    }
}

impl View for MatchTuple {
    type V = MatchTupleView;

    open spec fn view(&self) -> MatchTupleView {
        self.deep_view()
    }
}

impl Value for MatchTuple {
    fn dup(&self) -> (r: Self) {
        MatchTuple {
            src: self.src.dup(),
            trg: self.trg.dup(),
        }
    }
}

impl Clone for MatchTuple {
    fn clone(&self) -> (r: Self)
        ensures
            r@ == self@,
    {
        self.dup()
    }
}

/// A match on the wire: the query edges that it maps, each with its image.
#[derive(Debug, PartialEq, Eq)]
pub struct Match {
    pub tuples: Vec<MatchTuple>,
}

/// What a match holds.
pub struct MatchView {
    pub tuples: Seq<MatchTupleView>,
}

impl DeepView for Match {
    type V = MatchView;

    open spec fn deep_view(&self) -> MatchView {
        MatchView {
            tuples: self.tuples.deep_view(),
        }
    }
}

impl View for Match {
    type V = MatchView;

    open spec fn view(&self) -> MatchView {
        self.deep_view()
    }
}

impl Value for Match {
    fn dup(&self) -> (r: Self) {
        Match {
            tuples: self.tuples.dup(),
        }
    }
}

impl Clone for Match {
    fn clone(&self) -> (r: Self)
        ensures
            r@ == self@,
    {
        self.dup()
    }
}

/// The request to the application: a grouped match of a query with the event that it is for.
#[derive(Debug, PartialEq, Eq)]
pub struct ApplicationRequest {
    pub query_name: String,
    pub application_name: String,
    pub matches: Vec<Match>,
    pub query_graph: Vec<QueryEdge>,
    pub event: Option<EventMessage>,
}

/// What an application request holds.
pub struct ApplicationRequestView {
    pub query_name: Seq<char>,
    pub application_name: Seq<char>,
    pub matches: Seq<MatchView>,
    pub query_graph: Seq<QueryEdgeView>,
    pub event: Option<EventMessageView>,
}

impl DeepView for ApplicationRequest {
    type V = ApplicationRequestView;

    open spec fn deep_view(&self) -> ApplicationRequestView {
        ApplicationRequestView {
            query_name: self.query_name.deep_view(),
            application_name: self.application_name.deep_view(),
            matches: self.matches.deep_view(),
            query_graph: self.query_graph.deep_view(),
            event: self.event.deep_view(),
        }
    }
}

impl View for ApplicationRequest {
    type V = ApplicationRequestView;

    open spec fn view(&self) -> ApplicationRequestView {
        self.deep_view()
    }
}

impl Value for ApplicationRequest {
    fn dup(&self) -> (r: Self) {
        ApplicationRequest {
            query_name: self.query_name.dup(),
            application_name: self.application_name.dup(),
            matches: self.matches.dup(),
            query_graph: self.query_graph.dup(),
            event: self.event.dup(),
        }
    }
}

impl Clone for ApplicationRequest {
    fn clone(&self) -> (r: Self)
        ensures
            r@ == self@,
    {
        self.dup()
    }
}

/// The answer of the application: the deltas that the match gives.
#[derive(Debug, PartialEq, Eq)]
pub struct ApplicationResponse {
    pub deltas: Vec<DeltaMessage>,
}

/// What an application response holds.
pub struct ApplicationResponseView {
    pub deltas: Seq<DeltaMessageView>,
}

impl DeepView for ApplicationResponse {
    type V = ApplicationResponseView;

    open spec fn deep_view(&self) -> ApplicationResponseView {
        ApplicationResponseView {
            deltas: self.deltas.deep_view(),
        }
    }
}

impl View for ApplicationResponse {
    type V = ApplicationResponseView;

    open spec fn view(&self) -> ApplicationResponseView {
        self.deep_view()
    }
}

impl Value for ApplicationResponse {
    fn dup(&self) -> (r: Self) {
        ApplicationResponse {
            deltas: self.deltas.dup(),
        }
    }
}

impl Clone for ApplicationResponse {
    fn clone(&self) -> (r: Self)
        ensures
            r@ == self@,
    {
        self.dup()
    }
}

/// The class that a number on the wire stands for.
pub open spec fn node_class_of(code: i32) -> Option<NodeClass> {
    if code == 0 {
        Some(NodeClass::Object)
    } else if code == 1 {
        Some(NodeClass::Event)
    } else if code == 2 {
        Some(NodeClass::Material)
    } else if code == 3 {
        Some(NodeClass::Property)
    } else {
        None
    }
}

/// The kind of delta that a number on the wire stands for.
pub open spec fn delta_type_of(code: i32) -> Option<DeltaType> {
    if code == 0 {
        Some(DeltaType::Addition)
    } else if code == 1 {
        Some(DeltaType::Removal)
    } else {
        None
    }
}

/// The node that a message gives, if the number of its class stands for one.
pub open spec fn decode_node(n: InstanceNodeView) -> Option<NodeView> {
    match node_class_of(n.node_class) {
        None => None,
        Some(c) => Some(
            NodeView {
                query_node_name: None,
                instance_node_name: Some(n.instance_node_id),
                node_type: Some(n.node_type),
                node_class: c,
                value_bytes: match n.value {
                    Some(v) => Some(v.b),
                    None => None,
                },
            },
        ),
    }
}

/// The message for a node, if the node has an instance name and a type.
pub open spec fn encode_node(n: NodeView) -> Option<InstanceNodeView> {
    if n.instance_node_name is Some && n.node_type is Some {
        Some(
            InstanceNodeView {
                instance_node_id: n.instance_node_name->0,
                node_type: n.node_type->0,
                node_class: n.node_class.index() as i32,
                value: match n.value_bytes {
                    Some(b) => Some(OptionalBytesView { b }),
                    None => None,
                },
            },
        )
    } else {
        None
    }
}

/// The delta that a message gives, if it has both nodes and the numbers of
/// their classes and of its kind stand for something.
pub open spec fn decode_delta(m: DeltaMessageView) -> Option<DeltaView> {
    if m.src is Some && m.trg is Some && decode_node(m.src->0) is Some && decode_node(m.trg->0)
        is Some && delta_type_of(m.delta_type) is Some {
        Some(
            DeltaView {
                src: decode_node(m.src->0)->0,
                trg: decode_node(m.trg->0)->0,
                edge_type: m.edge_type,
                timestamp: m.timestamp,
                delta_type: delta_type_of(m.delta_type)->0,
            },
        )
    } else {
        None
    }
}

/// The message for a delta, if there is one for each of its nodes.
pub open spec fn encode_delta(d: DeltaView) -> Option<DeltaMessageView> {
    if encode_node(d.src) is Some && encode_node(d.trg) is Some {
        Some(
            DeltaMessageView {
                src: encode_node(d.src),
                trg: encode_node(d.trg),
                edge_type: d.edge_type,
                timestamp: d.timestamp,
                delta_type: d.delta_type.index() as i32,
            },
        )
    } else {
        None
    }
}

/// The deltas that a list of messages gives, if each gives one.
pub open spec fn decode_deltas(ms: Seq<DeltaMessageView>) -> Option<Seq<DeltaView>>
    decreases ms.len(),
{
    if ms.len() == 0 {
        Some(Seq::empty())
    } else if decode_deltas(ms.drop_last()) is Some && decode_delta(ms.last()) is Some {
        Some(decode_deltas(ms.drop_last())->0.push(decode_delta(ms.last())->0))
    } else {
        None
    }
}

/// The messages for a list of deltas, if there is one for each.
pub open spec fn encode_deltas(ds: Seq<DeltaView>) -> Option<Seq<DeltaMessageView>>
    decreases ds.len(),
{
    if ds.len() == 0 {
        Some(Seq::empty())
    } else if encode_deltas(ds.drop_last()) is Some && encode_delta(ds.last()) is Some {
        Some(encode_deltas(ds.drop_last())->0.push(encode_delta(ds.last())->0))
    } else {
        None
    }
}

pub open spec fn decode_event(m: EventMessageView) -> EventView {
    EventView {
        event_id: m.event_id,
        timestamp: m.timestamp,
        node_id: m.instance_node_id,
        payload: m.payload,
    }
}

pub open spec fn encode_event(e: EventView) -> EventMessageView {
    EventMessageView {
        event_id: e.event_id,
        instance_node_id: e.node_id,
        timestamp: e.timestamp,
        payload: e.payload,
    }
}

/// The update that a message gives. The deltas of a package become a set:
/// they are put in order, and one that is listed twice counts once.
pub open spec fn decode_update(m: UpdateMessageView) -> Option<UpdateView> {
    match m {
        UpdateMessageView::Stop => Some(UpdateView::Stop),
        UpdateMessageView::Event(e) => Some(UpdateView::Event(decode_event(e))),
        UpdateMessageView::Deltas(ds) => match decode_deltas(ds.deltas) {
            None => None,
            Some(l) => Some(
                UpdateView::Deltas(
                    DeltasView {
                        deltas_id: ds.deltas_id,
                        origin_id: ds.origin_id,
                        origin_timestamp: ds.origin_timestamp,
                        deltas: sorted_deltas(l.to_set()),
                    },
                ),
            ),
        },
        UpdateMessageView::Retractions(rs) => Some(
            UpdateView::Retractions(
                RetractionsView {
                    retraction_id: rs.retraction_id,
                    timestamp: rs.origin_timestamp,
                    deltas_ids: rs.delta_ids,
                },
            ),
        ),
    }
}

/// The message for an update.
pub open spec fn encode_update(u: UpdateView) -> Option<UpdateMessageView> {
    match u {
        UpdateView::Stop => Some(UpdateMessageView::Stop),
        UpdateView::Event(e) => Some(UpdateMessageView::Event(encode_event(e))),
        UpdateView::Deltas(ds) => match encode_deltas(ds.deltas) {
            None => None,
            Some(l) => Some(
                UpdateMessageView::Deltas(
                    DeltasMessageView {
                        deltas_id: ds.deltas_id,
                        origin_id: ds.origin_id,
                        origin_timestamp: ds.origin_timestamp,
                        deltas: l,
                    },
                ),
            ),
        },
        UpdateView::Retractions(rs) => Some(
            UpdateMessageView::Retractions(
                RetractionsMessageView {
                    retraction_id: rs.retraction_id,
                    origin_timestamp: rs.timestamp,
                    delta_ids: rs.deltas_ids,
                },
            ),
        ),
    }
}

/// The update that a request carries.
pub open spec fn decode_request(r: ProcessUpdateRequestView) -> Option<UpdateView> {
    match r.update {
        None => None,
        Some(m) => decode_update(m),
    }
}

/// The request that carries an update.
pub open spec fn encode_request(u: UpdateView) -> Option<ProcessUpdateRequestView> {
    match encode_update(u) {
        None => None,
        Some(m) => Some(ProcessUpdateRequestView { update: Some(m) }),
    }
}

/// The node that a message gives.
pub fn from_instance_node(instance_node: InstanceNode) -> (r: Option<Node>)
    ensures
        r.deep_view() == decode_node(instance_node@),
{
    let node_class = match NodeClass::from_code(instance_node.node_class) {
        Some(c) => c,
        None => {
            return None;
        },
    };
    Some(
        Node {
            query_node_name: None,
            instance_node_name: Some(instance_node.instance_node_id),
            node_type: Some(instance_node.node_type),
            node_class,
            value_bytes: from_optional_bytes(instance_node.value),
        },
    )
}

fn from_optional_bytes(optional_bytes_opt: Option<OptionalBytes>) -> (r: Option<Vec<u8>>)
    ensures
        r.deep_view() == (match optional_bytes_opt.deep_view() {
            Some(v) => Some(v.b),
            None => None,
        }),
{
    match optional_bytes_opt {
        Some(optional_bytes) => Some(optional_bytes.b),
        None => None,
    }
}

/// The message for a node.
pub fn to_instance_node(node: &Node) -> (r: Option<InstanceNode>)
    ensures
        r.deep_view() == encode_node(node@),
{
    let value = match &node.value_bytes {
        Some(value) => Some(OptionalBytes { b: value.dup() }),
        None => None,
    };
    match (&node.instance_node_name, &node.node_type) {
        (Some(name), Some(node_type)) => Some(
            InstanceNode {
                instance_node_id: name.dup(),
                node_type: node_type.dup(),
                node_class: node.node_class.code(),
                value,
            },
        ),
        _ => None,
    }
}

fn from_proto_delta(proto_delta: DeltaMessage) -> (r: Option<Delta>)
    ensures
        r.deep_view() == decode_delta(proto_delta@),
{
    let src = match proto_delta.src {
        Some(n) => match from_instance_node(n) {
            Some(x) => x,
            None => {
                return None;
            },
        },
        None => {
            return None;
        },
    };
    let trg = match proto_delta.trg {
        Some(n) => match from_instance_node(n) {
            Some(x) => x,
            None => {
                return None;
            },
        },
        None => {
            return None;
        },
    };
    let delta_type = match DeltaType::from_code(proto_delta.delta_type) {
        Some(t) => t,
        None => {
            return None;
        },
    };
    Some(
        Delta {
            src,
            trg,
            edge_type: proto_delta.edge_type,
            timestamp: proto_delta.timestamp,
            delta_type,
        },
    )
}

fn to_proto_delta(delta: &Delta) -> (r: Option<DeltaMessage>)
    ensures
        r.deep_view() == encode_delta(delta@),
{
    let src = match to_instance_node(&delta.src) {
        Some(n) => n,
        None => {
            return None;
        },
    };
    let trg = match to_instance_node(&delta.trg) {
        Some(n) => n,
        None => {
            return None;
        },
    };
    Some(
        DeltaMessage {
            src: Some(src),
            trg: Some(trg),
            edge_type: delta.edge_type.dup(),
            timestamp: delta.timestamp,
            delta_type: delta.delta_type.code(),
        },
    )
}

fn from_proto_delta_vec(deltas: Vec<DeltaMessage>) -> (r: Option<Vec<Delta>>)
    ensures
        r.deep_view() == decode_deltas(deltas.deep_view()),
{
    let ghost ms = deltas.deep_view();
    let mut out: Vec<Delta> = Vec::new();
    let mut i: usize = 0;
    assert(ms.take(0) =~= Seq::<DeltaMessageView>::empty());
    assert(out.deep_view() =~= Seq::<DeltaView>::empty());
    while i < deltas.len()
        invariant
            i <= deltas.len(),
            ms == deltas.deep_view(),
            decode_deltas(ms.take(i as int)) == Some(out.deep_view()),
        decreases deltas.len() - i,
    {
        proof {
            let cur = ms.take(i + 1);
            assert(cur.drop_last() =~= ms.take(i as int));
            assert(cur.last() == ms[i as int]);
        }
        match from_proto_delta(deltas[i].dup()) {
            Some(d) => {
                let ghost prev = out.deep_view();
                let ghost dv = d@;
                out.push(d);
                assert(out.deep_view() =~= prev.push(dv));
            },
            None => {
                proof {
                    lemma_decode_prefix(ms, i + 1);
                }
                return None;
            },
        }
        i = i + 1;
    }
    assert(ms.take(i as int) =~= ms);
    Some(out)
}

/// Where a beginning of a list of messages gives no deltas, neither does
/// the list.
proof fn lemma_decode_prefix(ms: Seq<DeltaMessageView>, n: int)
    requires
        0 <= n <= ms.len(),
        decode_deltas(ms.take(n)) is None,
    ensures
        decode_deltas(ms) is None,
    decreases ms.len() - n,
{
    if n < ms.len() {
        let cur = ms.take(n + 1);
        assert(cur.drop_last() =~= ms.take(n));
        lemma_decode_prefix(ms, n + 1);
    } else {
        assert(ms.take(n) =~= ms);
    }
}

proof fn lemma_encode_prefix(ds: Seq<DeltaView>, n: int)
    requires
        0 <= n <= ds.len(),
        encode_deltas(ds.take(n)) is None,
    ensures
        encode_deltas(ds) is None,
    decreases ds.len() - n,
{
    if n < ds.len() {
        let cur = ds.take(n + 1);
        assert(cur.drop_last() =~= ds.take(n));
        lemma_encode_prefix(ds, n + 1);
    } else {
        assert(ds.take(n) =~= ds);
    }
}

/// The deltas that the answer of the application gives.
pub fn delta_vec_from_response(application_response: ApplicationResponse) -> (r: Option<Vec<Delta>>)
    ensures
        r.deep_view() == decode_deltas(application_response@.deltas),
{
    from_proto_delta_vec(application_response.deltas)
}

fn from_proto_event(proto_event: EventMessage) -> (r: Event)
    ensures
        r@ == decode_event(proto_event@),
{
    Event {
        event_id: proto_event.event_id,
        timestamp: proto_event.timestamp,
        node_id: proto_event.instance_node_id,
        payload: proto_event.payload,
    }
}

fn to_proto_event(event: &Event) -> (r: EventMessage)
    ensures
        r@ == encode_event(event@),
{
    EventMessage {
        event_id: event.event_id.dup(),
        instance_node_id: event.node_id.dup(),
        timestamp: event.timestamp,
        payload: event.payload.dup(),
    }
}

fn from_proto_deltas(ds: DeltasMessage) -> (r: Option<Deltas>)
    ensures
        (match r {
            Some(d) => Some(UpdateView::Deltas(d@)),
            None => None,
        }) == decode_update(UpdateMessageView::Deltas(ds@)),
{
    let ghost dv = ds@;
    match from_proto_delta_vec(ds.deltas) {
        None => None,
        Some(list) => {
            let ghost l = list.deep_view();
            let deltas = OrderedSet::from_vec(list);
            proof {
                lemma_sorted_deltas(deltas@);
            }
            Some(
                Deltas {
                    deltas_id: ds.deltas_id,
                    origin_id: ds.origin_id,
                    origin_timestamp: ds.origin_timestamp,
                    deltas,
                },
            )
        },
    }
}

fn to_proto_deltas(ds: &Deltas) -> (r: Option<DeltasMessage>)
    ensures
        (match r {
            Some(m) => Some(UpdateMessageView::Deltas(m@)),
            None => None,
        }) == encode_update(UpdateView::Deltas(ds@)),
{
    let ghost dv = ds@.deltas;
    let mut out: Vec<DeltaMessage> = Vec::new();
    let mut i: usize = 0;
    assert(dv.take(0) =~= Seq::<DeltaView>::empty());
    assert(out.deep_view() =~= Seq::<DeltaMessageView>::empty());
    while i < ds.deltas.len()
        invariant
            i <= dv.len(),
            dv == ds.deltas@,
            encode_deltas(dv.take(i as int)) == Some(out.deep_view()),
        decreases dv.len() - i,
    {
        proof {
            let cur = dv.take(i + 1);
            assert(cur.drop_last() =~= dv.take(i as int));
            assert(cur.last() == dv[i as int]);
        }
        match to_proto_delta(ds.deltas.at(i)) {
            Some(m) => {
                let ghost prev = out.deep_view();
                let ghost mv = m@;
                out.push(m);
                assert(out.deep_view() =~= prev.push(mv));
            },
            None => {
                proof {
                    lemma_encode_prefix(dv, i + 1);
                }
                return None;
            },
        }
        i = i + 1;
    }
    assert(dv.take(i as int) =~= dv);
    Some(
        DeltasMessage {
            deltas_id: ds.deltas_id.dup(),
            origin_id: ds.origin_id.dup(),
            origin_timestamp: ds.origin_timestamp,
            deltas: out,
        },
    )
}

fn from_proto_retractions(rs: RetractionsMessage) -> (r: Retractions)
    ensures
        Some(UpdateView::Retractions(r@)) == decode_update(UpdateMessageView::Retractions(rs@)),
{
    Retractions {
        retraction_id: rs.retraction_id,
        timestamp: rs.origin_timestamp,
        deltas_ids: rs.delta_ids,
    }
}

fn to_proto_retractions(rs: &Retractions) -> (r: RetractionsMessage)
    ensures
        Some(UpdateMessageView::Retractions(r@)) == encode_update(UpdateView::Retractions(rs@)),
{
    RetractionsMessage {
        retraction_id: rs.retraction_id.dup(),
        origin_timestamp: rs.timestamp,
        delta_ids: rs.deltas_ids.dup(),
    }
}

/// The update that a request carries; none where the request is empty or
/// one of its deltas is malformed.
pub fn update_from_request(request: &ProcessUpdateRequest) -> (r: Option<Update>)
    ensures
        r.deep_view() == decode_request(request@),
{
    match &request.update {
        None => None,
        Some(UpdateMessage::Stop) => Some(Update::Stop),
        Some(UpdateMessage::Event(e)) => Some(Update::Event(from_proto_event(e.dup()))),
        Some(UpdateMessage::Deltas(ds)) => match from_proto_deltas(ds.dup()) {
            Some(d) => Some(Update::Deltas(d)),
            None => None,
        },
        Some(UpdateMessage::Retractions(rs)) => Some(
            Update::Retractions(from_proto_retractions(rs.dup())),
        ),
    }
}

fn to_proto_update(update: &Update) -> (r: Option<UpdateMessage>)
    ensures
        r.deep_view() == encode_update(update@),
{
    match update {
        Update::Stop => Some(UpdateMessage::Stop),
        Update::Event(e) => Some(UpdateMessage::Event(to_proto_event(e))),
        Update::Deltas(ds) => match to_proto_deltas(ds) {
            Some(m) => Some(UpdateMessage::Deltas(m)),
            None => None,
        },
        Update::Retractions(rs) => Some(UpdateMessage::Retractions(to_proto_retractions(rs))),
    }
}

/// The request that carries an update; none where a node of one of its
/// deltas lacks its instance name or its type.
pub fn request_from_update(update: &Update) -> (r: Option<ProcessUpdateRequest>)
    ensures
        r.deep_view() == encode_request(update@),
{
    match to_proto_update(update) {
        Some(m) => Some(ProcessUpdateRequest { update: Some(m) }),
        None => None,
    }
}

proof fn lemma_node_round_trip(n: InstanceNodeView)
    requires
        decode_node(n) is Some,
    ensures
        encode_node(decode_node(n)->0) == Some(n),
{
}

proof fn lemma_delta_round_trip(m: DeltaMessageView)
    requires
        decode_delta(m) is Some,
    ensures
        encode_delta(decode_delta(m)->0) == Some(m),
{
    lemma_node_round_trip(m.src->0);
    lemma_node_round_trip(m.trg->0);
}

proof fn lemma_deltas_round_trip(ms: Seq<DeltaMessageView>)
    requires
        decode_deltas(ms) is Some,
    ensures
        encode_deltas(decode_deltas(ms)->0) == Some(ms),
    decreases ms.len(),
{
    if ms.len() == 0 {
        assert(ms =~= Seq::<DeltaMessageView>::empty());
    } else {
        lemma_deltas_round_trip(ms.drop_last());
        lemma_delta_round_trip(ms.last());
        let l = decode_deltas(ms)->0;
        let head = decode_deltas(ms.drop_last())->0;
        assert(l.drop_last() =~= head);
        assert(ms =~= ms.drop_last().push(ms.last()));
    }
}

/// On the wire, an update that a message gives has that message: decoding
/// and then encoding gives the message back. A package of deltas has to list
/// its deltas in increasing order, each once, for it is decoded to a set.
pub proof fn lemma_wire_round_trip(m: UpdateMessageView)
    requires
        decode_update(m) is Some,
        m is Deltas ==> strictly_sorted::<Delta>(decode_deltas(m->Deltas_0.deltas)->0),
    ensures
        encode_update(decode_update(m)->0) == Some(m),
{
    match m {
        UpdateMessageView::Deltas(ds) => {
            let l = decode_deltas(ds.deltas)->0;
            lemma_sorted_deltas(l);
            lemma_deltas_round_trip(ds.deltas);
        },
        _ => {},
    }
}

pub open spec fn encode_optional_string(s: Option<Seq<char>>) -> Option<OptionalStringView> {
    match s {
        Some(x) => Some(OptionalStringView { s: x }),
        None => None,
    }
}

/// The message for a node of a query pattern, if the node has a query-side
/// name.
pub open spec fn encode_query_node(n: NodeView) -> Option<QueryNodeView> {
    if n.query_node_name is Some {
        Some(
            QueryNodeView {
                query_node_name: n.query_node_name->0,
                instance_node_id: encode_optional_string(n.instance_node_name),
                node_type: encode_optional_string(n.node_type),
                node_class: n.node_class.index() as i32,
            },
        )
    } else {
        None
    }
}

/// The message for an edge of a query pattern, if there is one for each of
/// its nodes.
pub open spec fn encode_query_edge(e: EdgeView) -> Option<QueryEdgeView> {
    if encode_query_node(e.src) is Some && encode_query_node(e.trg) is Some {
        Some(
            QueryEdgeView {
                src: encode_query_node(e.src),
                trg: encode_query_node(e.trg),
                edge_type: e.edge_type,
            },
        )
    } else {
        None
    }
}

/// The message for an edge of the instance graph, if there is one for each
/// of its nodes and the edge has a beginning.
pub open spec fn encode_instance_edge(e: EdgeView) -> Option<InstanceEdgeView> {
    if encode_node(e.src) is Some && encode_node(e.trg) is Some && e.from_timestamp is Some {
        Some(
            InstanceEdgeView {
                src: encode_node(e.src),
                trg: encode_node(e.trg),
                from_timestamp: e.from_timestamp->0,
                edge_type: e.edge_type,
            },
        )
    } else {
        None
    }
}

/// The tuples for the first `n` entries of a match: one for each query edge
/// that the match maps to a graph edge.
pub open spec fn encode_tuples(s: MatchEntries, n: int) -> Option<Seq<MatchTupleView>>
    decreases n,
{
    if n <= 0 {
        Some(Seq::empty())
    } else if encode_tuples(s, n - 1) is None {
        None
    } else if s[n - 1].1 is None {
        encode_tuples(s, n - 1)
    } else if encode_query_edge(s[n - 1].0) is Some && encode_instance_edge(s[n - 1].1->0) is Some {
        Some(
            encode_tuples(s, n - 1)->0.push(
                MatchTupleView {
                    src: encode_query_edge(s[n - 1].0),
                    trg: encode_instance_edge(s[n - 1].1->0),
                },
            ),
        )
    } else {
        None
    }
}

/// The message for a match.
pub open spec fn encode_match(s: MatchEntries) -> Option<MatchView> {
    match encode_tuples(s, s.len() as int) {
        Some(tuples) => Some(MatchView { tuples }),
        None => None,
    }
}

/// The messages for the matches of a group, if there is one for each.
pub open spec fn encode_matches(s: Seq<MatchEntries>) -> Option<Seq<MatchView>>
    decreases s.len(),
{
    if s.len() == 0 {
        Some(Seq::empty())
    } else if encode_matches(s.drop_last()) is Some && encode_match(s.last()) is Some {
        Some(encode_matches(s.drop_last())->0.push(encode_match(s.last())->0))
    } else {
        None
    }
}

proof fn lemma_encode_matches_prefix(s: Seq<MatchEntries>, n: int)
    requires
        0 <= n <= s.len(),
        encode_matches(s.take(n)) is None,
    ensures
        encode_matches(s) is None,
    decreases s.len() - n,
{
    if n < s.len() {
        let cur = s.take(n + 1);
        assert(cur.drop_last() =~= s.take(n));
        lemma_encode_matches_prefix(s, n + 1);
    } else {
        assert(s.take(n) =~= s);
    }
}

/// The messages for the edges of a query pattern, if there is one for each.
pub open spec fn encode_query_graph(s: Seq<EdgeView>) -> Option<Seq<QueryEdgeView>>
    decreases s.len(),
{
    if s.len() == 0 {
        Some(Seq::empty())
    } else if encode_query_graph(s.drop_last()) is Some && encode_query_edge(s.last()) is Some {
        Some(encode_query_graph(s.drop_last())->0.push(encode_query_edge(s.last())->0))
    } else {
        None
    }
}

proof fn lemma_encode_query_graph_prefix(s: Seq<EdgeView>, n: int)
    requires
        0 <= n <= s.len(),
        encode_query_graph(s.take(n)) is None,
    ensures
        encode_query_graph(s) is None,
    decreases s.len() - n,
{
    if n < s.len() {
        let cur = s.take(n + 1);
        assert(cur.drop_last() =~= s.take(n));
        lemma_encode_query_graph_prefix(s, n + 1);
    } else {
        assert(s.take(n) =~= s);
    }
}

/// The request to the application for a grouped match of a query and an
/// event.
pub open spec fn encode_application_request(
    query_name: Seq<char>,
    application_name: Seq<char>,
    grouped_match: Seq<MatchEntries>,
    query_graph: Seq<EdgeView>,
    event: EventView,
) -> Option<ApplicationRequestView> {
    if encode_matches(grouped_match) is Some && encode_query_graph(query_graph) is Some {
        Some(
            ApplicationRequestView {
                query_name,
                application_name,
                matches: encode_matches(grouped_match)->0,
                query_graph: encode_query_graph(query_graph)->0,
                event: Some(encode_event(event)),
            },
        )
    } else {
        None
    }
}

fn to_optional_string(s: &Option<String>) -> (r: Option<OptionalString>)
    ensures
        r.deep_view() == encode_optional_string(s.deep_view()),
{
    match s {
        Some(x) => Some(OptionalString { s: x.dup() }),
        None => None,
    }
}

fn to_query_node(node: &Node) -> (r: Option<QueryNode>)
    ensures
        r.deep_view() == encode_query_node(node@),
{
    match &node.query_node_name {
        Some(name) => Some(
            QueryNode {
                query_node_name: name.dup(),
                instance_node_id: to_optional_string(&node.instance_node_name),
                node_type: to_optional_string(&node.node_type),
                node_class: node.node_class.code(),
            },
        ),
        None => None,
    }
}

fn to_query_edge(edge: &Edge) -> (r: Option<QueryEdge>)
    ensures
        r.deep_view() == encode_query_edge(edge@),
{
    let src = match to_query_node(&edge.src) {
        Some(n) => n,
        None => {
            return None;
        },
    };
    let trg = match to_query_node(&edge.trg) {
        Some(n) => n,
        None => {
            return None;
        },
    };
    Some(QueryEdge { src: Some(src), trg: Some(trg), edge_type: edge.edge_type.dup() })
}

fn to_instance_edge(edge: &Edge) -> (r: Option<InstanceEdge>)
    ensures
        r.deep_view() == encode_instance_edge(edge@),
{
    let src = match to_instance_node(&edge.src) {
        Some(n) => n,
        None => {
            return None;
        },
    };
    let trg = match to_instance_node(&edge.trg) {
        Some(n) => n,
        None => {
            return None;
        },
    };
    match edge.from_timestamp {
        Some(from_timestamp) => Some(
            InstanceEdge {
                src: Some(src),
                trg: Some(trg),
                from_timestamp,
                edge_type: edge.edge_type.dup(),
            },
        ),
        None => None,
    }
}

proof fn lemma_encode_tuples_prefix(s: MatchEntries, n: int, m: int)
    requires
        0 <= n <= m,
        encode_tuples(s, n) is None,
    ensures
        encode_tuples(s, m) is None,
    decreases m - n,
{
    if n < m {
        lemma_encode_tuples_prefix(s, n + 1, m);
    }
}

fn to_query_match(m: &QueryMatch) -> (r: Option<Match>)
    ensures
        r.deep_view() == encode_match(m@),
{
    let ghost s = m@;
    let mut tuples: Vec<MatchTuple> = Vec::new();
    let mut i: usize = 0;
    assert(tuples.deep_view() =~= Seq::<MatchTupleView>::empty());
    while i < m.homomorphism.len()
        invariant
            i <= s.len(),
            s == m@,
            encode_tuples(s, i as int) == Some(tuples.deep_view()),
        decreases s.len() - i,
    {
        let src_edge = m.homomorphism.key_at(i);
        match m.homomorphism.value_at(i) {
            Some(trg_edge) => {
                let src = to_query_edge(src_edge);
                let trg = to_instance_edge(trg_edge);
                match (src, trg) {
                    (Some(a), Some(b)) => {
                        let ghost prev = tuples.deep_view();
                        let ghost tv = MatchTupleView { src: Some(a@), trg: Some(b@) };
                        tuples.push(MatchTuple { src: Some(a), trg: Some(b) });
                        assert(tuples.deep_view() =~= prev.push(tv));
                    },
                    _ => {
                        proof {
                            lemma_encode_tuples_prefix(s, i + 1, s.len() as int);
                        }
                        return None;
                    },
                }
            },
            None => {},
        }
        i = i + 1;
    }
    Some(Match { tuples })
}

/// The messages for the matches of a group.
fn to_query_matches(v: &Vec<QueryMatch>) -> (r: Option<Vec<Match>>)
    ensures
        r.deep_view() == encode_matches(v.deep_view()),
{
    let ghost s = v.deep_view();
    let mut out: Vec<Match> = Vec::new();
    let mut i: usize = 0;
    assert(s.take(0) =~= Seq::<MatchEntries>::empty());
    assert(out.deep_view() =~= Seq::<MatchView>::empty());
    while i < v.len()
        invariant
            i <= s.len(),
            s == v.deep_view(),
            encode_matches(s.take(i as int)) == Some(out.deep_view()),
        decreases s.len() - i,
    {
        proof {
            let cur = s.take(i + 1);
            assert(cur.drop_last() =~= s.take(i as int));
            assert(cur.last() == s[i as int]);
        }
        match to_query_match(&v[i]) {
            Some(m) => {
                let ghost prev = out.deep_view();
                let ghost mv = m@;
                out.push(m);
                assert(out.deep_view() =~= prev.push(mv));
            },
            None => {
                proof {
                    lemma_encode_matches_prefix(s, i + 1);
                }
                return None;
            },
        }
        i = i + 1;
    }
    assert(s.take(i as int) =~= s);
    Some(out)
}

/// The messages for the edges of a query pattern.
fn to_query_graph(v: &Vec<Edge>) -> (r: Option<Vec<QueryEdge>>)
    ensures
        r.deep_view() == encode_query_graph(v.deep_view()),
{
    let ghost s = v.deep_view();
    let mut out: Vec<QueryEdge> = Vec::new();
    let mut i: usize = 0;
    assert(s.take(0) =~= Seq::<EdgeView>::empty());
    assert(out.deep_view() =~= Seq::<QueryEdgeView>::empty());
    while i < v.len()
        invariant
            i <= s.len(),
            s == v.deep_view(),
            encode_query_graph(s.take(i as int)) == Some(out.deep_view()),
        decreases s.len() - i,
    {
        proof {
            let cur = s.take(i + 1);
            assert(cur.drop_last() =~= s.take(i as int));
            assert(cur.last() == s[i as int]);
        }
        match to_query_edge(&v[i]) {
            Some(m) => {
                let ghost prev = out.deep_view();
                let ghost mv = m@;
                out.push(m);
                assert(out.deep_view() =~= prev.push(mv));
            },
            None => {
                proof {
                    lemma_encode_query_graph_prefix(s, i + 1);
                }
                return None;
            },
        }
        i = i + 1;
    }
    assert(s.take(i as int) =~= s);
    Some(out)
}

/// The request to the application for a grouped match of a query and an
/// event; none where a node of the pattern lacks its query-side name, or an
/// edge of the graph its beginning or a node of it its instance name or its
/// type.
pub fn create_application_request(
    query_name: String,
    application_name: String,
    grouped_match: &GroupedQueryMatch,
    query_graph: &Graph,
    event: &Event,
) -> (r: Option<ApplicationRequest>)
    ensures
        r.deep_view() == encode_application_request(
            query_name@,
            application_name@,
            grouped_match@,
            query_graph@.edges,
            event@,
        ),
{
    let matches = match to_query_matches(&grouped_match.grouped_matches) {
        Some(m) => m,
        None => {
            return None;
        },
    };
    let graph = match to_query_graph(&query_graph.edges) {
        Some(g) => g,
        None => {
            return None;
        },
    };
    Some(
        ApplicationRequest {
            query_name,
            application_name,
            matches,
            query_graph: graph,
            event: Some(to_proto_event(event)),
        },
    )
}

} // verus!
