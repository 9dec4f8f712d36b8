//! The applications of the factory: what a crane, a stamp, a detector and a
//! conveyor make of an event at one of their nodes and of the matches of
//! their query, and the payloads that such events carry.

use crate::codec::{
    enc_str, index_at, lemma_text_round_trip, lemma_varint_round_trip, put_str, put_u64,
    read_index, read_text, text_at, varint,
};
use crate::graph::{DeltaType, NodeClass};
use crate::order::{same, Value};
use crate::text::{decimal, number_text};
use crate::wire::{
    ApplicationRequest, ApplicationRequestView, ApplicationResponse, ApplicationResponseView,
    DeltaMessage, DeltaMessageView, InstanceEdge, InstanceEdgeView, InstanceNode, InstanceNodeView,
    Match, MatchTuple, MatchTupleView, MatchView, OptionalBytes, OptionalBytesView, QueryEdge,
    QueryEdgeView, QueryNode, QueryNodeView,
};
use vstd::prelude::*;
use vstd::slice::slice_subrange;
use vstd::string::StringExecFns;
use vstd::utf8::encode_utf8;

verus! {

/// What a crane does.
#[derive(Debug, PartialEq, Eq, Structural, Clone, Copy)]
pub enum CraneEventType {
    PickUp,
    Drop,
}

/// The payload of an event at a crane: what the crane does, and the node
/// that it picks up from or drops onto.
#[derive(Debug, PartialEq, Eq)]
pub struct CraneEvent {
    pub instance_node_id: String,
    pub crane_event_type: CraneEventType,
}

/// What a crane event holds.
pub struct CraneEventView {
    pub instance_node_id: Seq<char>,
    pub crane_event_type: CraneEventType,
}

impl DeepView for CraneEvent {
    type V = CraneEventView;

    open spec fn deep_view(&self) -> CraneEventView {
        CraneEventView {
            instance_node_id: self.instance_node_id@,
            crane_event_type: self.crane_event_type,
        }
    }
}

impl View for CraneEvent {
    type V = CraneEventView;

    open spec fn view(&self) -> CraneEventView {
        self.deep_view()
    }
}

impl Value for CraneEvent {
    fn dup(&self) -> (r: Self) {
        CraneEvent {
            instance_node_id: self.instance_node_id.dup(),
            crane_event_type: self.crane_event_type,
        }
    }
}

impl Clone for CraneEvent {
    fn clone(&self) -> (r: Self)
        ensures
            r@ == self@,
    {
        self.dup()
    }
}

/// The payload of an event at a conveyor: it holds nothing.
#[derive(Debug, PartialEq, Eq, Structural, Clone, Copy)]
pub struct ConveyorEvent {}

/// What a barrel is made of.
#[derive(Debug, PartialEq, Eq, Structural, Clone, Copy)]
pub enum BarrelMaterialType {
    Metal,
    Plastic,
}

impl DeepView for BarrelMaterialType {
    type V = BarrelMaterialType;

    open spec fn deep_view(&self) -> BarrelMaterialType {
        *self
    }
}

impl Value for BarrelMaterialType {
    fn dup(&self) -> (r: Self) {
        *self
    }
}

/// The payload of an event at a detector: what the barrel before it is made
/// of.
#[derive(Debug, PartialEq, Eq, Structural, Clone, Copy)]
pub struct DetectorEvent {
    pub barrel_material_type: BarrelMaterialType,
}

/// The payload of an event at a stamp: what is stamped onto the barrel.
#[derive(Debug, PartialEq, Eq)]
pub struct StampEvent {
    pub stamp_data: String,
}

/// What a stamp event holds.
pub struct StampEventView {
    pub stamp_data: Seq<char>,
}

impl DeepView for StampEvent {
    type V = StampEventView;

    open spec fn deep_view(&self) -> StampEventView {
        StampEventView { stamp_data: self.stamp_data@ }
    }
}

impl View for StampEvent {
    type V = StampEventView;

    open spec fn view(&self) -> StampEventView {
        self.deep_view()
    }
}

impl Value for StampEvent {
    fn dup(&self) -> (r: Self) {
        StampEvent { stamp_data: self.stamp_data.dup() }
    }
}

impl Clone for StampEvent {
    fn clone(&self) -> (r: Self)
        ensures
            r@ == self@,
    {
        self.dup()
    }
}

/// The bytes after the first `n`.
pub open spec fn rest(b: Seq<u8>, n: nat) -> Seq<u8> {
    b.subrange(n as int, b.len() as int)
}

impl CraneEventType {
    /// The number of the variant in a payload.
    pub open spec fn index(self) -> u64 {
        match self {
            CraneEventType::PickUp => 0,
            CraneEventType::Drop => 1,
        }
    }

    /// The variant that a number in a payload stands for.
    pub open spec fn of_index(i: nat) -> Option<CraneEventType> {
        if i == 0 {
            Some(CraneEventType::PickUp)
        } else if i == 1 {
            Some(CraneEventType::Drop)
        } else {
            None
        }
    }
}

impl BarrelMaterialType {
    /// The number of the variant in a payload.
    pub open spec fn index(self) -> u64 {
        match self {
            BarrelMaterialType::Metal => 0,
            BarrelMaterialType::Plastic => 1,
        }
    }

    /// The variant that a number in a payload stands for.
    pub open spec fn of_index(i: nat) -> Option<BarrelMaterialType> {
        if i == 0 {
            Some(BarrelMaterialType::Metal)
        } else if i == 1 {
            Some(BarrelMaterialType::Plastic)
        } else {
            None
        }
    }

    /// The material that stands at the front of the bytes.
    pub open spec fn at(b: Seq<u8>) -> Option<BarrelMaterialType> {
        match index_at(b) {
            None => None,
            Some((i, _)) => BarrelMaterialType::of_index(i),
        }
    }

    /// The material as bytes: the number of its variant.
    pub fn encode(&self) -> (r: Vec<u8>)
        ensures
            r@ == varint(self.index()),
    {
        let mut out: Vec<u8> = Vec::new();
        let index: u64 = match self {
            BarrelMaterialType::Metal => 0,
            BarrelMaterialType::Plastic => 1,
        };
        put_u64(&mut out, index);
        assert(out@ =~= varint(self.index()));
        out
    }

    /// Reads a material off the front of the bytes; what follows it is not
    /// looked at.
    pub fn decode(bytes: &[u8]) -> (r: Option<BarrelMaterialType>)
        ensures
            r == BarrelMaterialType::at(bytes@),
    {
        match read_index(bytes) {
            None => None,
            Some((i, _)) => if i == 0 {
                Some(BarrelMaterialType::Metal)
            } else if i == 1 {
                Some(BarrelMaterialType::Plastic)
            } else {
                None
            },
        }
    }
}

impl CraneEvent {
    /// The payload of a crane event: the node's name, then the number of
    /// what the crane does.
    pub open spec fn encoding(e: CraneEventView) -> Seq<u8> {
        enc_str(e.instance_node_id) + varint(e.crane_event_type.index())
    }

    /// The crane event that stands at the front of the bytes.
    pub open spec fn at(b: Seq<u8>) -> Option<CraneEventView> {
        match text_at(b) {
            None => None,
            Some((id, n)) => match index_at(rest(b, n)) {
                None => None,
                Some((i, _)) => match CraneEventType::of_index(i) {
                    None => None,
                    Some(t) => Some(CraneEventView { instance_node_id: id, crane_event_type: t }),
                },
            },
        }
    }

    /// The event as a payload.
    pub fn encode(&self) -> (r: Vec<u8>)
        ensures
            r@ == CraneEvent::encoding(self@),
    {
        let mut out: Vec<u8> = Vec::new();
        put_str(&mut out, &self.instance_node_id);
        let index: u64 = match self.crane_event_type {
            CraneEventType::PickUp => 0,
            CraneEventType::Drop => 1,
        };
        put_u64(&mut out, index);
        assert(out@ =~= CraneEvent::encoding(self@));
        out
    }

    /// Reads a crane event off the front of a payload; what follows it is
    /// not looked at.
    pub fn decode(bytes: &[u8]) -> (r: Option<CraneEvent>)
        ensures
            r.deep_view() == CraneEvent::at(bytes@),
    {
        match read_text(bytes) {
            None => None,
            Some((id, n)) => {
                let tail = slice_subrange(bytes, n, bytes.len());
                match read_index(tail) {
                    None => None,
                    Some((i, _)) => if i == 0 {
                        Some(CraneEvent { instance_node_id: id, crane_event_type: CraneEventType::PickUp })
                    } else if i == 1 {
                        Some(CraneEvent { instance_node_id: id, crane_event_type: CraneEventType::Drop })
                    } else {
                        None
                    },
                }
            },
        }
    }
}

/// A crane event that was written as a payload is read back as it was,
/// whatever follows it.
pub proof fn lemma_crane_event_round_trip(e: CraneEventView, tail: Seq<u8>)
    requires
        encode_utf8(e.instance_node_id).len() <= u64::MAX,
    ensures
        CraneEvent::at(CraneEvent::encoding(e) + tail) == Some(e),
{
    let index = varint(e.crane_event_type.index());
    let b = CraneEvent::encoding(e) + tail;
    assert(b =~= enc_str(e.instance_node_id) + (index + tail));
    lemma_text_round_trip(e.instance_node_id, index + tail);
    let n = enc_str(e.instance_node_id).len();
    assert(rest(b, n) =~= index + tail);
    lemma_varint_round_trip(e.crane_event_type.index(), 252, tail);
}

/// A material that was written as bytes is read back as it was, whatever
/// follows it.
pub proof fn lemma_material_round_trip(t: BarrelMaterialType, tail: Seq<u8>)
    ensures
        BarrelMaterialType::at(varint(t.index()) + tail) == Some(t),
{
    lemma_varint_round_trip(t.index(), 252, tail);
}

/// A stamp event that was written as a payload is read back as it was,
/// whatever follows it.
pub proof fn lemma_stamp_event_round_trip(e: StampEventView, tail: Seq<u8>)
    requires
        encode_utf8(e.stamp_data).len() <= u64::MAX,
    ensures
        StampEvent::at(enc_str(e.stamp_data) + tail) == Some(e),
{
    lemma_text_round_trip(e.stamp_data, tail);
}

impl ConveyorEvent {
    /// The event as a payload: no bytes.
    pub fn encode(&self) -> (r: Vec<u8>)
        ensures
            r@ == Seq::<u8>::empty(),
    {
        Vec::new()
    }

    /// Reads a conveyor event off a payload: any bytes hold one.
    pub fn decode(bytes: &[u8]) -> (r: Option<ConveyorEvent>)
        ensures
            r == Some(ConveyorEvent {  }),
    {
        Some(ConveyorEvent {  })
    }
}

impl DetectorEvent {
    /// The event as a payload: the material.
    pub fn encode(&self) -> (r: Vec<u8>)
        ensures
            r@ == varint(self.barrel_material_type.index()),
    {
        self.barrel_material_type.encode()
    }

    /// Reads a detector event off the front of a payload.
    pub fn decode(bytes: &[u8]) -> (r: Option<DetectorEvent>)
        ensures
            r == match BarrelMaterialType::at(bytes@) {
                None => None,
                Some(t) => Some(DetectorEvent { barrel_material_type: t }),
            },
    {
        match BarrelMaterialType::decode(bytes) {
            None => None,
            Some(t) => Some(DetectorEvent { barrel_material_type: t }),
        }
    }
}

impl StampEvent {
    /// The stamp event that stands at the front of the bytes.
    pub open spec fn at(b: Seq<u8>) -> Option<StampEventView> {
        match text_at(b) {
            None => None,
            Some((data, _)) => Some(StampEventView { stamp_data: data }),
        }
    }

    /// The event as a payload: what is stamped, as a string.
    pub fn encode(&self) -> (r: Vec<u8>)
        ensures
            r@ == enc_str(self.stamp_data@),
    {
        let mut out: Vec<u8> = Vec::new();
        put_str(&mut out, &self.stamp_data);
        assert(out@ =~= enc_str(self.stamp_data@));
        out
    }

    /// Reads a stamp event off the front of a payload.
    pub fn decode(bytes: &[u8]) -> (r: Option<StampEvent>)
        ensures
            r.deep_view() == StampEvent::at(bytes@),
    {
        match read_text(bytes) {
            None => None,
            Some((data, _)) => Some(StampEvent { stamp_data: data }),
        }
    }
}

/// What looking through a request for one of its parts gives: the request
/// lacks something that had to be read on the way, or the part is not
/// there, or it is.
#[derive(Debug, PartialEq, Eq)]
pub enum Search<T> {
    Broken,
    Nothing,
    Found(T),
}

impl<T: DeepView> DeepView for Search<T> {
    type V = Search<T::V>;

    open spec fn deep_view(&self) -> Search<T::V> {
        match self {
            Search::Broken => Search::Broken,
            Search::Nothing => Search::Nothing,
            Search::Found(x) => Search::Found(x.deep_view()),
        }
    }
}

/// The answer without deltas.
pub open spec fn no_deltas() -> ApplicationResponseView {
    ApplicationResponseView { deltas: Seq::empty() }
}

/// The answer without deltas.
pub fn empty_response() -> (r: ApplicationResponse)
    ensures
        r@ == no_deltas(),
{
    let r = ApplicationResponse { deltas: Vec::new() };
    assert(r@.deltas =~= Seq::empty());
    r
}

/// The instance node that a matched query node stands for; none where the
/// query node lacks its instance or its type.
pub open spec fn instance_of(n: QueryNodeView) -> Option<InstanceNodeView> {
    match (n.instance_node_id, n.node_type) {
        (Some(id), Some(t)) => Some(
            InstanceNodeView {
                instance_node_id: id.s,
                node_type: t.s,
                node_class: n.node_class,
                value: None,
            },
        ),
        _ => None,
    }
}

/// The instance node that a matched query node stands for.
pub fn as_instance_node(query_node: &QueryNode) -> (r: Option<InstanceNode>)
    ensures
        r.deep_view() == instance_of(query_node@),
{
    match (&query_node.instance_node_id, &query_node.node_type) {
        (Some(id), Some(t)) => Some(
            InstanceNode {
                instance_node_id: id.s.dup(),
                node_type: t.s.dup(),
                node_class: query_node.node_class,
                value: None,
            },
        ),
        _ => None,
    }
}

/// The tuples of the first `n` matches, one match after the other.
pub open spec fn tuples_of(ms: Seq<MatchView>, n: int) -> Seq<MatchTupleView>
    decreases n,
{
    if n <= 0 {
        Seq::empty()
    } else {
        tuples_of(ms, n - 1) + ms[n - 1].tuples
    }
}

/// The tuples of all matches.
pub open spec fn all_tuples_of(ms: Seq<MatchView>) -> Seq<MatchTupleView> {
    tuples_of(ms, ms.len() as int)
}

fn all_tuples(matches: &Vec<Match>) -> (r: Vec<MatchTuple>)
    ensures
        r.deep_view() == all_tuples_of(matches.deep_view()),
{
    let mut out: Vec<MatchTuple> = Vec::new();
    let mut i: usize = 0;
    assert(out.deep_view() =~= tuples_of(matches.deep_view(), 0));
    while i < matches.len()
        invariant
            i <= matches.len(),
            out.deep_view() == tuples_of(matches.deep_view(), i as int),
        decreases matches.len() - i,
    {
        let ghost before = out.deep_view();
        let tuples = &matches[i].tuples;
        let mut j: usize = 0;
        assert(out.deep_view() =~= before + tuples.deep_view().take(0));
        while j < tuples.len()
            invariant
                j <= tuples.len(),
                out.deep_view() == before + tuples.deep_view().take(j as int),
            decreases tuples.len() - j,
        {
            let ghost prior = out.deep_view();
            let t = tuples[j].dup();
            let ghost tv = t.deep_view();
            out.push(t);
            assert(out.deep_view() =~= prior.push(tv));
            assert(prior.push(tv) =~= before + tuples.deep_view().take(j + 1));
            j += 1;
        }
        assert(tuples.deep_view().take(j as int) =~= tuples.deep_view());
        assert(matches.deep_view()[i as int].tuples == tuples.deep_view());
        i += 1;
    }
    out
}

/// The source of the first edge of the pattern, from the `i`th on, whose
/// source is of the type. Every edge up to that one has to have a source
/// with a type.
pub open spec fn source_of_type(g: Seq<QueryEdgeView>, t: Seq<char>, i: int) -> Search<
    QueryNodeView,
>
    decreases g.len() - i,
{
    if i < 0 || i >= g.len() {
        Search::Nothing
    } else {
        match g[i].src {
            None => Search::Broken,
            Some(n) => match n.node_type {
                None => Search::Broken,
                Some(ty) => if ty.s == t {
                    Search::Found(n)
                } else {
                    source_of_type(g, t, i + 1)
                },
            },
        }
    }
}

/// The target of the first edge of the pattern, from the `i`th on, whose
/// target stands for the instance. Every edge up to that one has to have a
/// target with an instance.
pub open spec fn target_of_instance(g: Seq<QueryEdgeView>, id: Seq<char>, i: int) -> Search<
    QueryNodeView,
>
    decreases g.len() - i,
{
    if i < 0 || i >= g.len() {
        Search::Nothing
    } else {
        match g[i].trg {
            None => Search::Broken,
            Some(n) => match n.instance_node_id {
                None => Search::Broken,
                Some(name) => if name.s == id {
                    Search::Found(n)
                } else {
                    target_of_instance(g, id, i + 1)
                },
            },
        }
    }
}

fn find_source_of_type(query_graph: &Vec<QueryEdge>, node_type: &str) -> (r: Search<QueryNode>)
    ensures
        r.deep_view() == source_of_type(query_graph.deep_view(), node_type@, 0),
{
    let wanted = node_type.to_owned();
    let ghost g = query_graph.deep_view();
    let mut i: usize = 0;
    while i < query_graph.len()
        invariant
            i <= query_graph.len(),
            g == query_graph.deep_view(),
            wanted@ == node_type@,
            source_of_type(g, node_type@, 0) == source_of_type(g, node_type@, i as int),
        decreases query_graph.len() - i,
    {
        assert(g[i as int] == query_graph[i as int].deep_view());
        match &query_graph[i].src {
            None => {
                return Search::Broken;
            },
            Some(n) => match &n.node_type {
                None => {
                    return Search::Broken;
                },
                Some(ty) => {
                    if same(&ty.s, &wanted) {
                        return Search::Found(n.dup());
                    }
                },
            },
        }
        i += 1;
    }
    Search::Nothing
}

fn find_target_of_instance(query_graph: &Vec<QueryEdge>, id: &String) -> (r: Search<QueryNode>)
    ensures
        r.deep_view() == target_of_instance(query_graph.deep_view(), id@, 0),
{
    let ghost g = query_graph.deep_view();
    let mut i: usize = 0;
    while i < query_graph.len()
        invariant
            i <= query_graph.len(),
            g == query_graph.deep_view(),
            target_of_instance(g, id@, 0) == target_of_instance(g, id@, i as int),
        decreases query_graph.len() - i,
    {
        assert(g[i as int] == query_graph[i as int].deep_view());
        match &query_graph[i].trg {
            None => {
                return Search::Broken;
            },
            Some(n) => match &n.instance_node_id {
                None => {
                    return Search::Broken;
                },
                Some(name) => {
                    if same(&name.s, id) {
                        return Search::Found(n.dup());
                    }
                },
            },
        }
        i += 1;
    }
    Search::Nothing
}

/// Whether a node is the one looked for: by its type, or by its name.
pub open spec fn wanted(n: InstanceNodeView, by_type: bool, key: Seq<char>) -> bool {
    if by_type {
        n.node_type == key
    } else {
        n.instance_node_id == key
    }
}

/// The later of the edge found so far and another: the other only where
/// it begins strictly later, or nothing was found yet.
pub open spec fn later(best: Option<InstanceEdgeView>, e: InstanceEdgeView) -> Option<
    InstanceEdgeView,
> {
    match best {
        None => Some(e),
        Some(b) => if b.from_timestamp < e.from_timestamp {
            Some(e)
        } else {
            Some(b)
        },
    }
}

/// Among the images of the tuples from the `i`th on whose target is the node
/// looked for, and `best`, the one that begins last; of several that begin
/// together, the first. Every tuple has to have an image with a target.
pub open spec fn latest_at(
    tuples: Seq<MatchTupleView>,
    by_type: bool,
    key: Seq<char>,
    best: Option<InstanceEdgeView>,
    i: int,
) -> Search<InstanceEdgeView>
    decreases tuples.len() - i,
{
    if i < 0 || i >= tuples.len() {
        match best {
            None => Search::Nothing,
            Some(e) => Search::Found(e),
        }
    } else {
        match tuples[i].trg {
            None => Search::Broken,
            Some(e) => match e.trg {
                None => Search::Broken,
                Some(n) => latest_at(
                    tuples,
                    by_type,
                    key,
                    if wanted(n, by_type, key) {
                        later(best, e)
                    } else {
                        best
                    },
                    i + 1,
                ),
            },
        }
    }
}

fn find_latest_at(tuples: &Vec<MatchTuple>, by_type: bool, key: &String) -> (r: Search<
    InstanceEdge,
>)
    ensures
        r.deep_view() == latest_at(tuples.deep_view(), by_type, key@, None, 0),
{
    let ghost tv = tuples.deep_view();
    let mut best: Option<InstanceEdge> = None;
    let mut i: usize = 0;
    while i < tuples.len()
        invariant
            i <= tuples.len(),
            tv == tuples.deep_view(),
            latest_at(tv, by_type, key@, None, 0) == latest_at(
                tv,
                by_type,
                key@,
                best.deep_view(),
                i as int,
            ),
        decreases tuples.len() - i,
    {
        assert(tv[i as int] == tuples[i as int].deep_view());
        match &tuples[i].trg {
            None => {
                return Search::Broken;
            },
            Some(e) => match &e.trg {
                None => {
                    return Search::Broken;
                },
                Some(n) => {
                    let hit = if by_type {
                        same(&n.node_type, key)
                    } else {
                        same(&n.instance_node_id, key)
                    };
                    if hit {
                        let replace = match &best {
                            None => true,
                            Some(b) => b.from_timestamp < e.from_timestamp,
                        };
                        if replace {
                            best = Some(e.dup());
                        }
                    }
                },
            },
        }
        i += 1;
    }
    match best {
        None => Search::Nothing,
        Some(e) => Search::Found(e),
    }
}

/// The two deltas that move what an edge holds to another node: the edge
/// ends at the timestamp, and one like it to the other node begins right
/// after.
pub open spec fn moved(
    e: InstanceEdgeView,
    edge_type: Seq<char>,
    to: InstanceNodeView,
    timestamp: u64,
) -> Seq<DeltaMessageView> {
    seq![
        DeltaMessageView {
            src: e.src,
            trg: e.trg,
            edge_type,
            timestamp,
            delta_type: DeltaType::Removal.index() as i32,
        },
        DeltaMessageView {
            src: e.src,
            trg: Some(to),
            edge_type,
            timestamp: (timestamp + 1) as u64,
            delta_type: DeltaType::Addition.index() as i32,
        },
    ]
}

/// The answer that moves what the edge holds to the node that the query
/// node stands for; none where the query node stands for no instance, or
/// no timestamp comes after the given one.
pub open spec fn move_to(
    e: InstanceEdgeView,
    edge_type: Seq<char>,
    to: QueryNodeView,
    timestamp: u64,
) -> Option<ApplicationResponseView> {
    match instance_of(to) {
        None => None,
        Some(node) => if timestamp == u64::MAX {
            None
        } else {
            Some(ApplicationResponseView { deltas: moved(e, edge_type, node, timestamp) })
        },
    }
}

fn move_edge(e: &InstanceEdge, edge_type: &String, to: &QueryNode, timestamp: u64) -> (r: Option<
    ApplicationResponse,
>)
    ensures
        r.deep_view() == move_to(e@, edge_type@, to@, timestamp),
{
    match as_instance_node(to) {
        None => None,
        Some(node) => {
            if timestamp == u64::MAX {
                return None;
            }
            let removed = DeltaMessage {
                src: e.src.dup(),
                trg: e.trg.dup(),
                edge_type: edge_type.dup(),
                timestamp,
                delta_type: DeltaType::Removal.code(),
            };
            let added = DeltaMessage {
                src: e.src.dup(),
                trg: Some(node),
                edge_type: edge_type.dup(),
                timestamp: timestamp + 1,
                delta_type: DeltaType::Addition.code(),
            };
            let ghost rv = removed@;
            let ghost av = added@;
            let mut deltas: Vec<DeltaMessage> = Vec::new();
            deltas.push(removed);
            deltas.push(added);
            assert(deltas.deep_view() =~= seq![rv, av]);
            assert(seq![rv, av] =~= moved(e@, edge_type@, instance_of(to@)->0, timestamp));
            Some(ApplicationResponse { deltas })
        },
    }
}

/// What a crane answers to a pick-up: the barrel that came last to the node
/// of the event leaves it and is at the crane right after. Without a crane
/// in the pattern, or a barrel at the node, there is nothing to answer.
pub open spec fn pick_up_response(
    timestamp: u64,
    e: CraneEventView,
    matches: Seq<MatchView>,
    query_graph: Seq<QueryEdgeView>,
) -> Option<ApplicationResponseView> {
    match source_of_type(query_graph, "Crane"@, 0) {
        Search::Broken => None,
        Search::Nothing => Some(no_deltas()),
        Search::Found(crane) => match latest_at(
            all_tuples_of(matches),
            false,
            e.instance_node_id,
            None,
            0,
        ) {
            Search::Broken => None,
            Search::Nothing => Some(no_deltas()),
            Search::Found(edge) => move_to(edge, edge.edge_type, crane, timestamp),
        },
    }
}

/// What a crane answers to a drop: the barrel that came last to the crane
/// leaves it and is at the node of the event right after. Without that node
/// in the pattern, or a barrel at the crane, there is nothing to answer.
pub open spec fn drop_response(
    timestamp: u64,
    e: CraneEventView,
    matches: Seq<MatchView>,
    query_graph: Seq<QueryEdgeView>,
) -> Option<ApplicationResponseView> {
    match target_of_instance(query_graph, e.instance_node_id, 0) {
        Search::Broken => None,
        Search::Nothing => Some(no_deltas()),
        Search::Found(object) => match latest_at(all_tuples_of(matches), true, "Crane"@, None, 0) {
            Search::Broken => None,
            Search::Nothing => Some(no_deltas()),
            Search::Found(edge) => move_to(edge, edge.edge_type, object, timestamp),
        },
    }
}

/// What a crane answers to an event.
pub open spec fn crane_event_response(
    timestamp: u64,
    e: CraneEventView,
    matches: Seq<MatchView>,
    query_graph: Seq<QueryEdgeView>,
) -> Option<ApplicationResponseView> {
    match e.crane_event_type {
        CraneEventType::PickUp => pick_up_response(timestamp, e, matches, query_graph),
        CraneEventType::Drop => drop_response(timestamp, e, matches, query_graph),
    }
}

/// What a crane answers to a request: nothing where the request carries no
/// event, else what it answers to the crane event in the payload. None
/// where the payload holds no crane event or the request lacks a part that
/// the answer depends on.
pub open spec fn crane_response(request: ApplicationRequestView) -> Option<
    ApplicationResponseView,
> {
    match request.event {
        None => Some(no_deltas()),
        Some(event) => match CraneEvent::at(event.payload) {
            None => None,
            Some(e) => crane_event_response(
                event.timestamp,
                e,
                request.matches,
                request.query_graph,
            ),
        },
    }
}

/// The application of a crane.
pub struct CraneApplication {}

impl CraneApplication {
    pub fn new() -> (r: CraneApplication) {
        CraneApplication {  }
    }

    /// Answers a request.
    pub fn crane_function(&self, request: &ApplicationRequest) -> (r: Option<
        ApplicationResponse,
    >)
        ensures
            r.deep_view() == crane_response(request@),
    {
        match &request.event {
            None => Some(empty_response()),
            Some(event) => {
                assert(event.payload@ =~= event@.payload);
                match CraneEvent::decode(event.payload.as_slice()) {
                    None => None,
                    Some(crane_event) => CraneApplication::process_crane_event(
                        event.timestamp,
                        crane_event,
                        &request.matches,
                        &request.query_graph,
                    ),
                }
            },
        }
    }

    /// Answers a crane event.
    pub fn process_crane_event(
        timestamp: u64,
        crane_event: CraneEvent,
        matches: &Vec<Match>,
        query_graph: &Vec<QueryEdge>,
    ) -> (r: Option<ApplicationResponse>)
        ensures
            r.deep_view() == crane_event_response(
                timestamp,
                crane_event@,
                matches.deep_view(),
                query_graph.deep_view(),
            ),
    {
        match crane_event.crane_event_type {
            CraneEventType::PickUp => CraneApplication::process_pick_up_event(
                timestamp,
                crane_event,
                matches,
                query_graph,
            ),
            CraneEventType::Drop => CraneApplication::process_drop_event(
                timestamp,
                crane_event,
                matches,
                query_graph,
            ),
        }
    }

    /// Answers a pick-up.
    pub fn process_pick_up_event(
        timestamp: u64,
        crane_event: CraneEvent,
        matches: &Vec<Match>,
        query_graph: &Vec<QueryEdge>,
    ) -> (r: Option<ApplicationResponse>)
        ensures
            r.deep_view() == pick_up_response(
                timestamp,
                crane_event@,
                matches.deep_view(),
                query_graph.deep_view(),
            ),
    {
        proof {
            reveal_strlit("Crane");
        }
        match find_source_of_type(query_graph, "Crane") {
            Search::Broken => None,
            Search::Nothing => Some(empty_response()),
            Search::Found(crane) => {
                let tuples = all_tuples(matches);
                match find_latest_at(&tuples, false, &crane_event.instance_node_id) {
                    Search::Broken => None,
                    Search::Nothing => Some(empty_response()),
                    Search::Found(edge) => move_edge(&edge, &edge.edge_type, &crane, timestamp),
                }
            },
        }
    }

    /// Answers a drop.
    pub fn process_drop_event(
        timestamp: u64,
        crane_event: CraneEvent,
        matches: &Vec<Match>,
        query_graph: &Vec<QueryEdge>,
    ) -> (r: Option<ApplicationResponse>)
        ensures
            r.deep_view() == drop_response(
                timestamp,
                crane_event@,
                matches.deep_view(),
                query_graph.deep_view(),
            ),
    {
        match find_target_of_instance(query_graph, &crane_event.instance_node_id) {
            Search::Broken => None,
            Search::Nothing => Some(empty_response()),
            Search::Found(object) => {
                let tuples = all_tuples(matches);
                let crane = "Crane".to_owned();
                match find_latest_at(&tuples, true, &crane) {
                    Search::Broken => None,
                    Search::Nothing => Some(empty_response()),
                    Search::Found(edge) => move_edge(&edge, &edge.edge_type, &object, timestamp),
                }
            },
        }
    }
}

/// The image of the last tuple, from the `i`th on, whose query edge is of
/// the type, or `found` where there is none. Every tuple has to have a
/// query edge.
pub open spec fn image_with_type(
    tuples: Seq<MatchTupleView>,
    edge_type: Seq<char>,
    found: Option<InstanceEdgeView>,
    i: int,
) -> Search<InstanceEdgeView>
    decreases tuples.len() - i,
{
    if i < 0 || i >= tuples.len() {
        match found {
            None => Search::Nothing,
            Some(e) => Search::Found(e),
        }
    } else {
        match tuples[i].src {
            None => Search::Broken,
            Some(q) => image_with_type(
                tuples,
                edge_type,
                if q.edge_type == edge_type {
                    tuples[i].trg
                } else {
                    found
                },
                i + 1,
            ),
        }
    }
}

fn find_image_with_type(tuples: &Vec<MatchTuple>, edge_type: &str) -> (r: Search<InstanceEdge>)
    ensures
        r.deep_view() == image_with_type(tuples.deep_view(), edge_type@, None, 0),
{
    let wanted = edge_type.to_owned();
    let ghost tv = tuples.deep_view();
    let mut found: Option<InstanceEdge> = None;
    let mut i: usize = 0;
    while i < tuples.len()
        invariant
            i <= tuples.len(),
            tv == tuples.deep_view(),
            wanted@ == edge_type@,
            image_with_type(tv, edge_type@, None, 0) == image_with_type(
                tv,
                edge_type@,
                found.deep_view(),
                i as int,
            ),
        decreases tuples.len() - i,
    {
        assert(tv[i as int] == tuples[i as int].deep_view());
        match &tuples[i].src {
            None => {
                return Search::Broken;
            },
            Some(q) => {
                if same(&q.edge_type, &wanted) {
                    found = tuples[i].trg.dup();
                }
            },
        }
        i += 1;
    }
    match found {
        None => Search::Nothing,
        Some(e) => Search::Found(e),
    }
}

/// The target of the last edge of the pattern, from the `i`th on, whose
/// target has the name, or `found` where there is none. Every edge has to
/// have a target.
pub open spec fn target_named(
    g: Seq<QueryEdgeView>,
    name: Seq<char>,
    found: Option<QueryNodeView>,
    i: int,
) -> Search<QueryNodeView>
    decreases g.len() - i,
{
    if i < 0 || i >= g.len() {
        match found {
            None => Search::Nothing,
            Some(n) => Search::Found(n),
        }
    } else {
        match g[i].trg {
            None => Search::Broken,
            Some(n) => target_named(
                g,
                name,
                if n.query_node_name == name {
                    Some(n)
                } else {
                    found
                },
                i + 1,
            ),
        }
    }
}

fn find_target_named(query_graph: &Vec<QueryEdge>, name: &str) -> (r: Search<QueryNode>)
    ensures
        r.deep_view() == target_named(query_graph.deep_view(), name@, None, 0),
{
    let wanted = name.to_owned();
    let ghost g = query_graph.deep_view();
    let mut found: Option<QueryNode> = None;
    let mut i: usize = 0;
    while i < query_graph.len()
        invariant
            i <= query_graph.len(),
            g == query_graph.deep_view(),
            wanted@ == name@,
            target_named(g, name@, None, 0) == target_named(g, name@, found.deep_view(), i as int),
        decreases query_graph.len() - i,
    {
        assert(g[i as int] == query_graph[i as int].deep_view());
        match &query_graph[i].trg {
            None => {
                return Search::Broken;
            },
            Some(n) => {
                if same(&n.query_node_name, &wanted) {
                    found = Some(n.dup());
                }
            },
        }
        i += 1;
    }
    match found {
        None => Search::Nothing,
        Some(n) => Search::Found(n),
    }
}

/// The material that the value of an edge's target stands for.
pub open spec fn material_at(e: InstanceEdgeView) -> Option<BarrelMaterialType> {
    match e.trg {
        None => None,
        Some(n) => match n.value {
            None => None,
            Some(v) => BarrelMaterialType::at(v.b),
        },
    }
}

/// What a conveyor answers to an event, given the one match of a barrel on
/// it with the barrel's material: the barrel leaves the conveyor and is on
/// the ramp for its material right after. The pattern names the ramp for
/// metal `m` and the one for plastic `p`. None where the request is not of
/// that shape.
pub open spec fn conveyor_event_response(
    timestamp: u64,
    matches: Seq<MatchView>,
    query_graph: Seq<QueryEdgeView>,
) -> Option<ApplicationResponseView> {
    if matches.len() != 1 || matches[0].tuples.len() != 2 {
        None
    } else {
        match (
            image_with_type(matches[0].tuples, "At"@, None, 0),
            image_with_type(matches[0].tuples, "HasMaterialType"@, None, 0),
            target_named(query_graph, "m"@, None, 0),
            target_named(query_graph, "p"@, None, 0),
        ) {
            (
                Search::Found(at),
                Search::Found(has_type),
                Search::Found(metal),
                Search::Found(plastic),
            ) => match material_at(has_type) {
                None => None,
                Some(BarrelMaterialType::Metal) => move_to(at, "At"@, metal, timestamp),
                Some(BarrelMaterialType::Plastic) => move_to(at, "At"@, plastic, timestamp),
            },
            _ => None,
        }
    }
}

/// What a conveyor answers to a request: nothing where the request carries
/// no event, else what it answers to the event.
pub open spec fn conveyor_response(request: ApplicationRequestView) -> Option<
    ApplicationResponseView,
> {
    match request.event {
        None => Some(no_deltas()),
        Some(event) => conveyor_event_response(
            event.timestamp,
            request.matches,
            request.query_graph,
        ),
    }
}

fn read_material(e: &InstanceEdge) -> (r: Option<BarrelMaterialType>)
    ensures
        r == material_at(e@),
{
    match &e.trg {
        None => None,
        Some(n) => match &n.value {
            None => None,
            Some(v) => {
                assert(v.b@ =~= v@.b);
                BarrelMaterialType::decode(v.b.as_slice())
            },
        },
    }
}

/// The application of a conveyor.
pub struct ConveyorApplication {}

impl ConveyorApplication {
    pub fn new() -> (r: ConveyorApplication) {
        ConveyorApplication {  }
    }

    /// Answers a request.
    pub fn conveyor_function(&self, request: &ApplicationRequest) -> (r: Option<
        ApplicationResponse,
    >)
        ensures
            r.deep_view() == conveyor_response(request@),
    {
        match &request.event {
            None => Some(empty_response()),
            Some(event) => self.process_conveyor_event(
                event.timestamp,
                ConveyorEvent {  },
                &request.matches,
                &request.query_graph,
            ),
        }
    }

    /// Answers a conveyor event.
    pub fn process_conveyor_event(
        &self,
        timestamp: u64,
        _conveyor_event: ConveyorEvent,
        matches: &Vec<Match>,
        query_graph: &Vec<QueryEdge>,
    ) -> (r: Option<ApplicationResponse>)
        ensures
            r.deep_view() == conveyor_event_response(
                timestamp,
                matches.deep_view(),
                query_graph.deep_view(),
            ),
    {
        proof {
            reveal_strlit("At");
            reveal_strlit("HasMaterialType");
            reveal_strlit("m");
            reveal_strlit("p");
        }
        if matches.len() != 1 {
            return None;
        }
        let tuples = &matches[0].tuples;
        assert(matches.deep_view()[0].tuples == tuples.deep_view());
        if tuples.len() != 2 {
            return None;
        }
        let barrel_at_conveyor = find_image_with_type(tuples, "At");
        let barrel_has_type = find_image_with_type(tuples, "HasMaterialType");
        let metal_ramp = find_target_named(query_graph, "m");
        let plastic_ramp = find_target_named(query_graph, "p");
        match (barrel_at_conveyor, barrel_has_type, metal_ramp, plastic_ramp) {
            (
                Search::Found(at),
                Search::Found(has_type),
                Search::Found(metal),
                Search::Found(plastic),
            ) => {
                let edge_type = "At".to_owned();
                match read_material(&has_type) {
                    None => None,
                    Some(BarrelMaterialType::Metal) => move_edge(&at, &edge_type, &metal, timestamp),
                    Some(BarrelMaterialType::Plastic) => move_edge(
                        &at,
                        &edge_type,
                        &plastic,
                        timestamp,
                    ),
                }
            },
            _ => None,
        }
    }
}

/// The node that says what a barrel is made of: a property named after the
/// barrel, with the material as its value.
pub open spec fn material_type_node(
    barrel: Seq<char>,
    material: BarrelMaterialType,
) -> InstanceNodeView {
    InstanceNodeView {
        instance_node_id: barrel + "_barrel_type"@,
        node_type: "BarrelMaterialType"@,
        node_class: NodeClass::Property.index() as i32,
        value: Some(OptionalBytesView { b: varint(material.index()) }),
    }
}

/// The node that says what a barrel is made of.
pub fn create_material_type_node(
    barrel_node_id: String,
    barrel_material_type: BarrelMaterialType,
) -> (r: InstanceNode)
    ensures
        r@ == material_type_node(barrel_node_id@, barrel_material_type),
{
    let mut name = barrel_node_id;
    name.append("_barrel_type");
    let r = InstanceNode {
        instance_node_id: name,
        node_type: "BarrelMaterialType".to_owned(),
        node_class: NodeClass::Property.code(),
        value: Some(OptionalBytes { b: barrel_material_type.encode() }),
    };
    assert(r@.value->0.b =~= varint(barrel_material_type.index()));
    r
}

/// What a detector answers to an event, given the one match of the barrel
/// before it: right after the event the barrel has the material that the
/// detector saw. None where the request is not of that shape.
pub open spec fn detector_event_response(
    timestamp: u64,
    e: DetectorEvent,
    matches: Seq<MatchView>,
) -> Option<ApplicationResponseView> {
    if matches.len() != 1 || matches[0].tuples.len() != 1 || timestamp == u64::MAX {
        None
    } else {
        match matches[0].tuples[0].trg {
            None => None,
            Some(edge) => match edge.src {
                None => None,
                Some(barrel) => Some(
                    ApplicationResponseView {
                        deltas: seq![
                            DeltaMessageView {
                                src: Some(barrel),
                                trg: Some(
                                    material_type_node(
                                        barrel.instance_node_id,
                                        e.barrel_material_type,
                                    ),
                                ),
                                edge_type: "HasMaterialType"@,
                                timestamp: (timestamp + 1) as u64,
                                delta_type: DeltaType::Addition.index() as i32,
                            },
                        ],
                    },
                ),
            },
        }
    }
}

/// What a detector answers to a request: nothing where the request carries
/// no event, else what it answers to the detector event in the payload.
pub open spec fn detector_response(request: ApplicationRequestView) -> Option<
    ApplicationResponseView,
> {
    match request.event {
        None => Some(no_deltas()),
        Some(event) => match BarrelMaterialType::at(event.payload) {
            None => None,
            Some(t) => detector_event_response(
                event.timestamp,
                DetectorEvent { barrel_material_type: t },
                request.matches,
            ),
        },
    }
}

/// The application of a detector.
pub struct DetectorApplication {}

impl DetectorApplication {
    pub fn new() -> (r: DetectorApplication) {
        DetectorApplication {  }
    }

    /// Answers a request.
    pub fn detector_function(&self, request: &ApplicationRequest) -> (r: Option<
        ApplicationResponse,
    >)
        ensures
            r.deep_view() == detector_response(request@),
    {
        match &request.event {
            None => Some(empty_response()),
            Some(event) => {
                assert(event.payload@ =~= event@.payload);
                match DetectorEvent::decode(event.payload.as_slice()) {
                    None => None,
                    Some(detector_event) => self.process_detector_event(
                        event.timestamp,
                        detector_event,
                        &request.matches,
                        &request.query_graph,
                    ),
                }
            },
        }
    }

    /// Answers a detector event.
    pub fn process_detector_event(
        &self,
        timestamp: u64,
        detector_event: DetectorEvent,
        matches: &Vec<Match>,
        _query_graph: &Vec<QueryEdge>,
    ) -> (r: Option<ApplicationResponse>)
        ensures
            r.deep_view() == detector_event_response(
                timestamp,
                detector_event,
                matches.deep_view(),
            ),
    {
        if matches.len() != 1 {
            return None;
        }
        let tuples = &matches[0].tuples;
        assert(matches.deep_view()[0].tuples == tuples.deep_view());
        if tuples.len() != 1 || timestamp == u64::MAX {
            return None;
        }
        assert(tuples.deep_view()[0] == tuples[0].deep_view());
        match &tuples[0].trg {
            None => None,
            Some(edge) => match &edge.src {
                None => None,
                Some(barrel) => {
                    let node = create_material_type_node(
                        barrel.instance_node_id.dup(),
                        detector_event.barrel_material_type,
                    );
                    let delta = DeltaMessage {
                        src: Some(barrel.dup()),
                        trg: Some(node),
                        edge_type: "HasMaterialType".to_owned(),
                        timestamp: timestamp + 1,
                        delta_type: DeltaType::Addition.code(),
                    };
                    let ghost dv = delta@;
                    let mut deltas: Vec<DeltaMessage> = Vec::new();
                    deltas.push(delta);
                    assert(deltas.deep_view() =~= seq![dv]);
                    Some(ApplicationResponse { deltas })
                },
            },
        }
    }
}

/// The node of a stamp on a barrel: a property named after the barrel and
/// the time of the stamp, with what was stamped as its value.
pub open spec fn stamp_node(barrel: Seq<char>, timestamp: u64, payload: Seq<u8>) -> InstanceNodeView {
    InstanceNodeView {
        instance_node_id: barrel + "_Stamp_"@ + decimal(timestamp as nat),
        node_type: "StampData"@,
        node_class: NodeClass::Property.index() as i32,
        value: Some(OptionalBytesView { b: payload }),
    }
}

/// The node of a stamp on a barrel.
pub fn create_stamp_node(instance_node_id: String, timestamp: u64, payload: Vec<u8>) -> (r:
    InstanceNode)
    ensures
        r@ == stamp_node(instance_node_id@, timestamp, payload@),
{
    let mut name = instance_node_id;
    name.append("_Stamp_");
    name.append(number_text(timestamp).as_str());
    let r = InstanceNode {
        instance_node_id: name,
        node_type: "StampData".to_owned(),
        node_class: NodeClass::Property.code(),
        value: Some(OptionalBytes { b: payload }),
    };
    assert(r@.value->0.b =~= payload@);
    r
}

/// The image that came last to the stamp among the tuples from the `i`th
/// on whose query edge says where something is, and `best`; of several that
/// came together, the first. Every tuple up to the end, or up to one that
/// says where something is and has no image, has to have a query edge; at
/// such a tuple the search ends with nothing.
pub open spec fn latest_placed(
    tuples: Seq<MatchTupleView>,
    best: Option<InstanceEdgeView>,
    i: int,
) -> Search<InstanceEdgeView>
    decreases tuples.len() - i,
{
    if i < 0 || i >= tuples.len() {
        match best {
            None => Search::Nothing,
            Some(e) => Search::Found(e),
        }
    } else {
        match tuples[i].src {
            None => Search::Broken,
            Some(q) => if q.edge_type == "At"@ {
                match tuples[i].trg {
                    None => Search::Nothing,
                    Some(e) => latest_placed(tuples, later(best, e), i + 1),
                }
            } else {
                latest_placed(tuples, best, i + 1)
            },
        }
    }
}

fn find_latest_placed(tuples: &Vec<MatchTuple>) -> (r: Search<InstanceEdge>)
    ensures
        r.deep_view() == latest_placed(tuples.deep_view(), None, 0),
{
    let at = "At".to_owned();
    let ghost tv = tuples.deep_view();
    let mut best: Option<InstanceEdge> = None;
    let mut i: usize = 0;
    while i < tuples.len()
        invariant
            i <= tuples.len(),
            tv == tuples.deep_view(),
            at@ == "At"@,
            latest_placed(tv, None, 0) == latest_placed(tv, best.deep_view(), i as int),
        decreases tuples.len() - i,
    {
        assert(tv[i as int] == tuples[i as int].deep_view());
        match &tuples[i].src {
            None => {
                return Search::Broken;
            },
            Some(q) => {
                if same(&q.edge_type, &at) {
                    match &tuples[i].trg {
                        None => {
                            return Search::Nothing;
                        },
                        Some(e) => {
                            let replace = match &best {
                                None => true,
                                Some(b) => b.from_timestamp < e.from_timestamp,
                            };
                            if replace {
                                best = Some(e.dup());
                            }
                        },
                    }
                }
            },
        }
        i += 1;
    }
    match best {
        None => Search::Nothing,
        Some(e) => Search::Found(e),
    }
}

/// What a stamp answers to an event: the barrel that came last to the stamp
/// has, from the event on, a stamp node with what was stamped. There is
/// nothing to answer where nothing is at the stamp, or what is there is no
/// barrel. None where a tuple lacks its query edge.
pub open spec fn stamp_event_response(
    timestamp: u64,
    e: StampEventView,
    matches: Seq<MatchView>,
) -> Option<ApplicationResponseView> {
    match latest_placed(all_tuples_of(matches), None, 0) {
        Search::Broken => None,
        Search::Nothing => Some(no_deltas()),
        Search::Found(edge) => match edge.src {
            None => Some(no_deltas()),
            Some(barrel) => if barrel.node_type != "Barrel"@ {
                Some(no_deltas())
            } else {
                Some(
                    ApplicationResponseView {
                        deltas: seq![
                            DeltaMessageView {
                                src: Some(barrel),
                                trg: Some(
                                    stamp_node(
                                        barrel.instance_node_id,
                                        timestamp,
                                        enc_str(e.stamp_data),
                                    ),
                                ),
                                edge_type: "HasStampData"@,
                                timestamp,
                                delta_type: DeltaType::Addition.index() as i32,
                            },
                        ],
                    },
                )
            },
        },
    }
}

/// What a stamp answers to a request: nothing where the request carries no
/// event, else what it answers to the stamp event in the payload.
pub open spec fn stamp_response(request: ApplicationRequestView) -> Option<
    ApplicationResponseView,
> {
    match request.event {
        None => Some(no_deltas()),
        Some(event) => match StampEvent::at(event.payload) {
            None => None,
            Some(e) => stamp_event_response(event.timestamp, e, request.matches),
        },
    }
}

/// The application of a stamp.
pub struct StampApplication {}

impl StampApplication {
    pub fn new() -> (r: StampApplication) {
        StampApplication {  }
    }

    /// Answers a request.
    pub fn stamp_function(&self, request: &ApplicationRequest) -> (r: Option<ApplicationResponse>)
        ensures
            r.deep_view() == stamp_response(request@),
    {
        match &request.event {
            None => Some(empty_response()),
            Some(event) => {
                assert(event.payload@ =~= event@.payload);
                match StampEvent::decode(event.payload.as_slice()) {
                    None => None,
                    Some(stamp_event) => self.process_stamp_event(
                        event.timestamp,
                        stamp_event,
                        &request.matches,
                        &request.query_graph,
                    ),
                }
            },
        }
    }

    /// Answers a stamp event.
    pub fn process_stamp_event(
        &self,
        timestamp: u64,
        stamp_event: StampEvent,
        matches: &Vec<Match>,
        _query: &Vec<QueryEdge>,
    ) -> (r: Option<ApplicationResponse>)
        ensures
            r.deep_view() == stamp_event_response(timestamp, stamp_event@, matches.deep_view()),
    {
        let tuples = all_tuples(matches);
        match find_latest_placed(&tuples) {
            Search::Broken => None,
            Search::Nothing => Some(empty_response()),
            Search::Found(edge) => match &edge.src {
                None => Some(empty_response()),
                Some(barrel) => {
                    let wanted = "Barrel".to_owned();
                    if !same(&barrel.node_type, &wanted) {
                        return Some(empty_response());
                    }
                    let payload = stamp_event.encode();
                    let node = create_stamp_node(barrel.instance_node_id.dup(), timestamp, payload);
                    let delta = DeltaMessage {
                        src: Some(barrel.dup()),
                        trg: Some(node),
                        edge_type: "HasStampData".to_owned(),
                        timestamp,
                        delta_type: DeltaType::Addition.code(),
                    };
                    let ghost dv = delta@;
                    let mut deltas: Vec<DeltaMessage> = Vec::new();
                    deltas.push(delta);
                    assert(deltas.deep_view() =~= seq![dv]);
                    Some(ApplicationResponse { deltas })
                },
            },
        }
    }
}

/// What the applications of the factory make of a request.
#[derive(Debug, PartialEq, Eq)]
pub enum Answer {
    /// The answer of the application that the request names.
    Response(ApplicationResponse),
    /// The request lacks a part that the answer depends on.
    Malformed,
    /// The request names no application of the factory.
    UnknownApplication,
}

/// What the applications of the factory make of a request, as a model.
pub enum AnswerView {
    Response(ApplicationResponseView),
    Malformed,
    UnknownApplication,
}

impl DeepView for Answer {
    type V = AnswerView;

    open spec fn deep_view(&self) -> AnswerView {
        match self {
            Answer::Response(r) => AnswerView::Response(r@),
            Answer::Malformed => AnswerView::Malformed,
            Answer::UnknownApplication => AnswerView::UnknownApplication,
        }
    }
}

/// An answer, or the lack of one where the request was malformed.
pub open spec fn answered(r: Option<ApplicationResponseView>) -> AnswerView {
    match r {
        Some(response) => AnswerView::Response(response),
        None => AnswerView::Malformed,
    }
}

/// What the applications of the factory make of a request: the
/// application is chosen by its name.
pub open spec fn answer_of(request: ApplicationRequestView) -> AnswerView {
    if request.application_name == "pickdrop"@ {
        answered(crane_response(request))
    } else if request.application_name == "stamp"@ {
        answered(stamp_response(request))
    } else if request.application_name == "conveyor"@ {
        answered(conveyor_response(request))
    } else if request.application_name == "detector"@ {
        answered(detector_response(request))
    } else {
        AnswerView::UnknownApplication
    }
}

fn answer_from(r: Option<ApplicationResponse>) -> (a: Answer)
    ensures
        a.deep_view() == answered(r.deep_view()),
{
    match r {
        Some(response) => Answer::Response(response),
        None => Answer::Malformed,
    }
}

/// Answers a request with the application that it names.
pub fn answer(request: &ApplicationRequest) -> (a: Answer)
    ensures
        a.deep_view() == answer_of(request@),
{
    let name = &request.application_name;
    if same(name, &"pickdrop".to_owned()) {
        answer_from(CraneApplication::new().crane_function(request))
    } else if same(name, &"stamp".to_owned()) {
        answer_from(StampApplication::new().stamp_function(request))
    } else if same(name, &"conveyor".to_owned()) {
        answer_from(ConveyorApplication::new().conveyor_function(request))
    } else if same(name, &"detector".to_owned()) {
        answer_from(DetectorApplication::new().detector_function(request))
    } else {
        Answer::UnknownApplication
    }
}

} // verus!
