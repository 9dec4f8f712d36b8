//! What happens on the floor of a factory, as the updates that the
//! components of the factory get to see: barrels that are pushed onto
//! platforms, picked up and dropped by cranes, stamped, sorted by conveyors
//! and taken off ramps.

use crate::applications::{
    BarrelMaterialType, CraneEvent, CraneEventType, CraneEventView, StampEvent,
};
use crate::codec::{enc_str, varint};
use crate::event::{Deltas, DeltasView, Event, EventView, Update, UpdateView};
use crate::graph::{
    edge_without_query_names, Delta, DeltaType, DeltaView, Edge, EdgeView, Node, NodeClass,
    NodeView,
};
use crate::order::{same, Sortable, Value};
use crate::ordered::{
    index_of_key, lemma_entry_at, lemma_sorted_unique, strictly_sorted, OrderedMap, OrderedSet,
};
use crate::query::{Query, QueryView};
use crate::text::{decimal, number_text};
use crate::router::{fresh_id, fresh_ids};
use vstd::prelude::*;
use vstd::string::StringExecFns;

verus! {

#[verifier::external_type_specification]
#[verifier::external_body]
pub struct ExChaCha8Rng(rand_chacha::ChaCha8Rng);

/// An update with the topic that it goes to.
#[derive(Debug, PartialEq, Eq)]
pub struct TopicNameAndUpdate {
    pub topic_name: String,
    pub update: Update,
}

/// What an update with its topic holds.
pub struct TopicNameAndUpdateView {
    pub topic_name: Seq<char>,
    pub update: UpdateView,
}

impl DeepView for TopicNameAndUpdate {
    type V = TopicNameAndUpdateView;

    open spec fn deep_view(&self) -> TopicNameAndUpdateView {
        TopicNameAndUpdateView { topic_name: self.topic_name@, update: self.update@ }
    }
}

impl View for TopicNameAndUpdate {
    type V = TopicNameAndUpdateView;

    open spec fn view(&self) -> TopicNameAndUpdateView {
        self.deep_view()
    }
}

impl Value for TopicNameAndUpdate {
    fn dup(&self) -> (r: Self) {
        TopicNameAndUpdate { topic_name: self.topic_name.dup(), update: self.update.dup() }
    }
}

impl Clone for TopicNameAndUpdate {
    fn clone(&self) -> (r: Self)
        ensures
            r@ == self@,
    {
        self.dup()
    }
}

impl TopicNameAndUpdate {
    pub fn new(topic_name: String, update: Update) -> (r: TopicNameAndUpdate)
        ensures
            r@ == (TopicNameAndUpdateView { topic_name: topic_name@, update: update@ }),
    {
        TopicNameAndUpdate { topic_name, update }
    }
}

/// A package of its own for one delta: the package is its own origin, at
/// the time of the delta.
pub open spec fn single_delta(
    id: Seq<char>,
    src: NodeView,
    trg: NodeView,
    edge_type: Seq<char>,
    timestamp: u64,
    delta_type: DeltaType,
) -> UpdateView {
    UpdateView::Deltas(
        DeltasView {
            deltas_id: id,
            origin_id: id,
            origin_timestamp: timestamp,
            deltas: seq![DeltaView { src, trg, edge_type, timestamp, delta_type }],
        },
    )
}

/// A package of its own for one delta, under the given id.
pub fn single_delta_update(
    id: String,
    src: Node,
    trg: Node,
    edge_type: &str,
    timestamp: u64,
    delta_type: DeltaType,
) -> (r: Update)
    ensures
        r@ == single_delta(id@, src@, trg@, edge_type@, timestamp, delta_type),
{
    let delta = Delta { src, trg, edge_type: edge_type.to_owned(), timestamp, delta_type };
    let ghost dv = delta@;
    let mut list: Vec<Delta> = Vec::new();
    list.push(delta);
    assert(list.deep_view() =~= seq![dv]);
    let deltas = OrderedSet::from_vec(list);
    proof {
        assert(strictly_sorted::<Delta>(seq![dv]));
        lemma_sorted_unique::<Delta>(deltas@, seq![dv]);
    }
    Update::Deltas(
        Deltas { deltas_id: id.dup(), origin_id: id, origin_timestamp: timestamp, deltas },
    )
}

/// A package of its own for one delta, under a fresh id.
pub fn create_single_delta_update(
    src: Node,
    trg: Node,
    edge_type: &str,
    timestamp: u64,
    delta_type: DeltaType,
) -> (r: Update)
    ensures
        r@ is Deltas,
        r@ == single_delta(
            r@->Deltas_0.deltas_id,
            src@,
            trg@,
            edge_type@,
            timestamp,
            delta_type,
        ),
{
    single_delta_update(fresh_id(), src, trg, edge_type, timestamp, delta_type)
}

/// An update for each topic of a list, and before them one for the central
/// store where that is in use.
pub open spec fn to_topics(
    update: UpdateView,
    topic_names: Seq<Seq<char>>,
    use_central: bool,
) -> Seq<TopicNameAndUpdateView> {
    (if use_central {
        seq![TopicNameAndUpdateView { topic_name: "central"@, update }]
    } else {
        Seq::empty()
    }) + Seq::new(
        topic_names.len(),
        |i: int| TopicNameAndUpdateView { topic_name: topic_names[i], update },
    )
}

/// An update for each topic of a list, and before them one for the central
/// store where that is in use.
pub fn send_to_topics(update: &Update, topic_names: &Vec<String>, use_central: bool) -> (r: Vec<
    TopicNameAndUpdate,
>)
    ensures
        r.deep_view() == to_topics(update@, topic_names.deep_view(), use_central),
{
    let mut out: Vec<TopicNameAndUpdate> = Vec::new();
    if use_central {
        let first = TopicNameAndUpdate::new("central".to_owned(), update.dup());
        let ghost fv = first@;
        out.push(first);
        assert(out.deep_view() =~= seq![fv]);
    } else {
        assert(out.deep_view() =~= Seq::<TopicNameAndUpdateView>::empty());
    }
    let ghost head = out.deep_view();
    let ghost names = topic_names.deep_view();
    let mut i: usize = 0;
    assert(out.deep_view() =~= head + Seq::new(
        0,
        |k: int| TopicNameAndUpdateView { topic_name: names[k], update: update@ },
    ));
    while i < topic_names.len()
        invariant
            i <= topic_names.len(),
            names == topic_names.deep_view(),
            out.deep_view() == head + Seq::new(
                i as nat,
                |k: int| TopicNameAndUpdateView { topic_name: names[k], update: update@ },
            ),
        decreases topic_names.len() - i,
    {
        let ghost before = out.deep_view();
        let next = TopicNameAndUpdate::new(topic_names[i].dup(), update.dup());
        let ghost nv = next@;
        out.push(next);
        assert(out.deep_view() =~= before.push(nv));
        assert(names[i as int] == topic_names[i as int]@);
        assert(before.push(nv) =~= head + Seq::new(
            (i + 1) as nat,
            |k: int| TopicNameAndUpdateView { topic_name: names[k], update: update@ },
        ));
        i += 1;
    }
    out
}

/// An event at a node, for a topic.
pub open spec fn event_for(
    topic: Seq<char>,
    id: Seq<char>,
    timestamp: u64,
    node_id: Seq<char>,
    payload: Seq<u8>,
) -> TopicNameAndUpdateView {
    TopicNameAndUpdateView {
        topic_name: topic,
        update: UpdateView::Event(EventView { event_id: id, timestamp, node_id, payload }),
    }
}

/// An event at a node, for a topic.
pub fn create_event(topic: String, id: String, timestamp: u64, node_id: String, payload: Vec<u8>) -> (r:
    TopicNameAndUpdate)
    ensures
        r@ == event_for(topic@, id@, timestamp, node_id@, payload@),
{
    assert(payload.deep_view() =~= payload@);
    TopicNameAndUpdate::new(
        topic,
        Update::Event(Event { event_id: id, timestamp, node_id, payload }),
    )
}

/// The barrel of a given name.
pub open spec fn barrel_named(id: Seq<char>) -> NodeView {
    NodeView {
        query_node_name: None,
        instance_node_name: Some("MyBarrel-"@ + id),
        node_type: Some("Barrel"@),
        node_class: NodeClass::Material,
        value_bytes: None,
    }
}

/// The barrel of a given name.
pub fn barrel_with_id(id: &String) -> (r: Node)
    ensures
        r@ == barrel_named(id@),
{
    let mut name = "MyBarrel-".to_owned();
    name.append(id.as_str());
    Node::material_instance_node(name.as_str(), "Barrel")
}

/// A barrel under a fresh name.
pub fn new_barrel() -> (r: Node)
    ensures
        r@.instance_node_name is Some,
        r@.node_type == Some("Barrel"@),
        r@.node_class == NodeClass::Material,
{
    let id = fresh_id();
    barrel_with_id(&id)
}

/// That a barrel is at a place from a time on, or no longer.
pub open spec fn at_place(barrel: NodeView, place: NodeView, timestamp: u64, t: DeltaType) -> DeltaView {
    DeltaView { src: barrel, trg: place, edge_type: "At"@, timestamp, delta_type: t }
}

/// That a barrel is at a place from a time on, or no longer.
pub fn at_delta(barrel: &Node, place: &Node, timestamp: u64, t: DeltaType) -> (r: Delta)
    ensures
        r@ == at_place(barrel@, place@, timestamp, t),
{
    Delta {
        src: barrel.dup(),
        trg: place.dup(),
        edge_type: "At".to_owned(),
        timestamp,
        delta_type: t,
    }
}

/// The edges of the patterns of the first `n` queries, one pattern after the
/// other.
pub open spec fn pattern_edges(queries: Seq<QueryView>, n: int) -> Seq<EdgeView>
    decreases n,
{
    if n <= 0 {
        Seq::empty()
    } else {
        pattern_edges(queries, n - 1) + queries[n - 1].graph.edges
    }
}

/// The edges of the patterns of all the queries.
pub open spec fn all_pattern_edges(queries: Seq<QueryView>) -> Seq<EdgeView> {
    pattern_edges(queries, queries.len() as int)
}

/// The edges of the patterns of all the queries.
pub fn edges_of_queries(queries: &Vec<Query>) -> (r: Vec<Edge>)
    ensures
        r.deep_view() == all_pattern_edges(queries.deep_view()),
{
    let mut out: Vec<Edge> = Vec::new();
    let mut i: usize = 0;
    assert(out.deep_view() =~= pattern_edges(queries.deep_view(), 0));
    while i < queries.len()
        invariant
            i <= queries.len(),
            out.deep_view() == pattern_edges(queries.deep_view(), i as int),
        decreases queries.len() - i,
    {
        let ghost before = out.deep_view();
        let edges = &queries[i].graph.edges;
        let mut j: usize = 0;
        assert(out.deep_view() =~= before + edges.deep_view().take(0));
        while j < edges.len()
            invariant
                j <= edges.len(),
                out.deep_view() == before + edges.deep_view().take(j as int),
            decreases edges.len() - j,
        {
            let ghost prior = out.deep_view();
            let e = edges[j].dup();
            let ghost ev = e.deep_view();
            out.push(e);
            assert(out.deep_view() =~= prior.push(ev));
            assert(prior.push(ev) =~= before + edges.deep_view().take(j + 1));
            j += 1;
        }
        assert(edges.deep_view().take(j as int) =~= edges.deep_view());
        assert(queries.deep_view()[i as int].graph.edges == edges.deep_view());
        i += 1;
    }
    out
}

/// What the patterns of a factory's queries tell of its nodes.
#[derive(Debug, PartialEq, Eq, Structural, Clone, Copy)]
pub enum Link {
    /// The object at a position of a crane.
    ObjectOfPosition,
    /// The crane that an event of picking up or dropping belongs to.
    CraneOfPickdrop,
    /// The stamp assembly of a stamp.
    AssemblyOfStamp,
    /// The detector of a platform.
    DetectorOfPlatform,
    /// The ramp that a conveyor sends metal to.
    MetalRampOfConveyor,
    /// The ramp that a conveyor sends plastic to.
    PlasticRampOfConveyor,
    /// The conveyor that a conveyor event belongs to.
    ConveyorOfEvent,
}

impl Link {
    /// Whether an edge of a pattern tells the link of its ends.
    pub open spec fn shown_by(self, e: EdgeView) -> bool {
        match self {
            Link::ObjectOfPosition => e.edge_type == "HasObject"@,
            Link::CraneOfPickdrop => e.src.node_type == Some("Crane"@) && e.edge_type
                == "HasEvent"@,
            Link::AssemblyOfStamp => e.src.node_type == Some("StampAssembly"@) && e.trg.node_type
                == Some("Stamp"@),
            Link::DetectorOfPlatform => e.src.node_type == Some("Platform"@) && e.edge_type
                == "HasEvent"@,
            Link::MetalRampOfConveyor => e.edge_type == "HasMetalRamp"@,
            Link::PlasticRampOfConveyor => e.edge_type == "HasPlasticRamp"@,
            Link::ConveyorOfEvent => e.src.node_type == Some("Conveyor"@) && e.trg.node_type
                == Some("ConveyorEvent"@),
        }
    }

    /// Whether the link leads from the target of an edge to its source.
    pub open spec fn backwards(self) -> bool {
        self == Link::CraneOfPickdrop || self == Link::AssemblyOfStamp || self
            == Link::ConveyorOfEvent
    }

    /// The node that the link leads from, as the instance that the pattern
    /// names.
    pub open spec fn from(self, e: EdgeView) -> NodeView {
        if self.backwards() {
            edge_without_query_names(e).trg
        } else {
            edge_without_query_names(e).src
        }
    }

    /// The node that the link leads to.
    pub open spec fn to(self, e: EdgeView) -> NodeView {
        if self.backwards() {
            edge_without_query_names(e).src
        } else {
            edge_without_query_names(e).trg
        }
    }

    /// What the edges tell of the link: each node that an edge leads from,
    /// with the node that the last such edge leads to.
    pub open spec fn among(self, edges: Seq<EdgeView>) -> Map<NodeView, NodeView>
        decreases edges.len(),
    {
        if edges.len() == 0 {
            Map::empty()
        } else if self.shown_by(edges.last()) {
            self.among(edges.drop_last()).insert(self.from(edges.last()), self.to(edges.last()))
        } else {
            self.among(edges.drop_last())
        }
    }

    fn is_shown_by(self, e: &Edge) -> (r: bool)
        ensures
            r == self.shown_by(e@),
    {
        proof {
            reveal_strlit("HasObject");
            reveal_strlit("HasEvent");
            reveal_strlit("HasMetalRamp");
            reveal_strlit("HasPlasticRamp");
        }
        match self {
            Link::ObjectOfPosition => same(&e.edge_type, &"HasObject".to_owned()),
            Link::CraneOfPickdrop => has_type(&e.src, "Crane") && same(
                &e.edge_type,
                &"HasEvent".to_owned(),
            ),
            Link::AssemblyOfStamp => has_type(&e.src, "StampAssembly") && has_type(
                &e.trg,
                "Stamp",
            ),
            Link::DetectorOfPlatform => has_type(&e.src, "Platform") && same(
                &e.edge_type,
                &"HasEvent".to_owned(),
            ),
            Link::MetalRampOfConveyor => same(&e.edge_type, &"HasMetalRamp".to_owned()),
            Link::PlasticRampOfConveyor => same(&e.edge_type, &"HasPlasticRamp".to_owned()),
            Link::ConveyorOfEvent => has_type(&e.src, "Conveyor") && has_type(
                &e.trg,
                "ConveyorEvent",
            ),
        }
    }

    /// What the patterns of the queries tell of the link.
    pub fn of_queries(self, queries: &Vec<Query>) -> (r: OrderedMap<Node, Node>)
        ensures
            r.map() == self.among(all_pattern_edges(queries.deep_view())),
    {
        let edges = edges_of_queries(queries);
        let ghost ev = edges.deep_view();
        let mut out: OrderedMap<Node, Node> = OrderedMap::new();
        let mut i: usize = 0;
        assert(out.map() =~= self.among(ev.take(0)));
        while i < edges.len()
            invariant
                i <= edges.len(),
                ev == edges.deep_view(),
                out.map() == self.among(ev.take(i as int)),
            decreases edges.len() - i,
        {
            proof {
                let cur = ev.take(i + 1);
                assert(cur.drop_last() =~= ev.take(i as int));
                assert(cur.last() == edges[i as int]@);
            }
            if self.is_shown_by(&edges[i]) {
                let mut e = edges[i].dup();
                e.forget_query_node_name();
                let backwards = match self {
                    Link::CraneOfPickdrop => true,
                    Link::AssemblyOfStamp => true,
                    Link::ConveyorOfEvent => true,
                    _ => false,
                };
                if backwards {
                    out.insert(e.trg, e.src);
                } else {
                    out.insert(e.src, e.trg);
                }
            }
            i += 1;
        }
        assert(ev.take(i as int) =~= ev);
        out
    }
}

/// Whether a node is of a type.
pub fn has_type(n: &Node, node_type: &str) -> (r: bool)
    ensures
        r == (n@.node_type == Some(node_type@)),
{
    match &n.node_type {
        None => false,
        Some(t) => same(t, &node_type.to_owned()),
    }
}

/// The objects around each crane, in the order of the edges that lead from
/// the crane to its positions. A position without an object adds nothing.
pub open spec fn surroundings(edges: Seq<EdgeView>, objects: Map<NodeView, NodeView>) -> Map<
    NodeView,
    Seq<NodeView>,
>
    decreases edges.len(),
{
    if edges.len() == 0 {
        Map::empty()
    } else {
        let before = surroundings(edges.drop_last(), objects);
        let e = edge_without_query_names(edges.last());
        if e.edge_type == "HasObjectAtPosition"@ && objects.contains_key(e.trg) {
            before.insert(
                e.src,
                if before.contains_key(e.src) {
                    before[e.src].push(objects[e.trg])
                } else {
                    seq![objects[e.trg]]
                },
            )
        } else {
            before
        }
    }
}

/// The objects around each crane.
pub fn create_objects_surrounding_crane_map(queries: &Vec<Query>) -> (r: OrderedMap<
    Node,
    Vec<Node>,
>)
    ensures
        r.map() == surroundings(
            all_pattern_edges(queries.deep_view()),
            Link::ObjectOfPosition.among(all_pattern_edges(queries.deep_view())),
        ),
{
    let has_object_map = Link::ObjectOfPosition.of_queries(queries);
    let edges = edges_of_queries(queries);
    let ghost ev = edges.deep_view();
    let ghost objects = has_object_map.map();
    let wanted = "HasObjectAtPosition".to_owned();
    let mut out: OrderedMap<Node, Vec<Node>> = OrderedMap::new();
    let mut i: usize = 0;
    assert(out.map() =~= surroundings(ev.take(0), objects));
    while i < edges.len()
        invariant
            i <= edges.len(),
            ev == edges.deep_view(),
            objects == has_object_map.map(),
            wanted@ == "HasObjectAtPosition"@,
            out.map() == surroundings(ev.take(i as int), objects),
        decreases edges.len() - i,
    {
        proof {
            let cur = ev.take(i + 1);
            assert(cur.drop_last() =~= ev.take(i as int));
            assert(cur.last() == edges[i as int]@);
        }
        if same(&edges[i].edge_type, &wanted) {
            let mut e = edges[i].dup();
            e.forget_query_node_name();
            match has_object_map.get(&e.trg) {
                None => {},
                Some(object) => {
                    let mut around: Vec<Node> = match out.get(&e.src) {
                        None => Vec::new(),
                        Some(list) => list.dup(),
                    };
                    let ghost prior = around.deep_view();
                    let o = object.dup();
                    let ghost ov = o@;
                    around.push(o);
                    assert(around.deep_view() =~= prior.push(ov));
                    assert(prior.push(ov) =~= if out.map().contains_key(e.src@) {
                        out.map()[e.src@].push(ov)
                    } else {
                        seq![ov]
                    });
                    out.insert(e.src, around);
                },
            }
        }
        i += 1;
    }
    assert(ev.take(i as int) =~= ev);
    out
}

/// Whether a query names the instance of a node: at a node where its events
/// arrive, or at an end of an edge of its pattern.
pub open spec fn names_instance(q: QueryView, c: NodeView) -> bool {
    ||| exists|i: int|
        0 <= i < q.input_nodes.len() && (#[trigger] q.input_nodes[i]).instance_node_name
            == c.instance_node_name
    ||| exists|j: int|
        0 <= j < q.graph.edges.len() && ((#[trigger] q.graph.edges[j]).src.instance_node_name
            == c.instance_node_name || q.graph.edges[j].trg.instance_node_name
            == c.instance_node_name)
}

/// Whether one of the first `n` queries has the name and names the instance
/// of the node.
pub open spec fn named_by(queries: Seq<QueryView>, c: NodeView, name: Seq<char>, n: int) -> bool {
    exists|k: int| 0 <= k < n && k < queries.len() && (#[trigger] queries[k]).name == name
        && names_instance(queries[k], c)
}

/// Whether the topics of a node are those of the queries that name its
/// instance, each once, in increasing order.
pub open spec fn is_topics_of(topics: Seq<Seq<char>>, queries: Seq<QueryView>, c: NodeView) -> bool {
    &&& strictly_sorted::<String>(topics)
    &&& forall|name: Seq<char>| #[trigger]
        topics.contains(name) <==> named_by(queries, c, name, queries.len() as int)
}

fn query_names_instance(q: &Query, c: &Node) -> (r: bool)
    ensures
        r == names_instance(q@, c@),
{
    let mut i: usize = 0;
    while i < q.input_nodes.len()
        invariant
            i <= q@.input_nodes.len(),
            forall|k: int|
                0 <= k < i ==> (#[trigger] q@.input_nodes[k]).instance_node_name
                    != c@.instance_node_name,
        decreases q@.input_nodes.len() - i,
    {
        if same(&q.input_nodes.at(i).instance_node_name, &c.instance_node_name) {
            return true;
        }
        i += 1;
    }
    let mut j: usize = 0;
    while j < q.graph.edges.len()
        invariant
            j <= q.graph.edges.len(),
            forall|k: int|
                0 <= k < q@.input_nodes.len() ==> (#[trigger] q@.input_nodes[k]).instance_node_name
                    != c@.instance_node_name,
            forall|k: int|
                0 <= k < j ==> (#[trigger] q@.graph.edges[k]).src.instance_node_name
                    != c@.instance_node_name && q@.graph.edges[k].trg.instance_node_name
                    != c@.instance_node_name,
        decreases q.graph.edges.len() - j,
    {
        assert(q@.graph.edges[j as int] == q.graph.edges[j as int]@);
        if same(&q.graph.edges[j].src.instance_node_name, &c.instance_node_name) || same(
            &q.graph.edges[j].trg.instance_node_name,
            &c.instance_node_name,
        ) {
            return true;
        }
        j += 1;
    }
    false
}

/// The topics of a node: the names of the queries that name its instance.
pub fn topics_of(c: &Node, queries: &Vec<Query>) -> (r: Vec<String>)
    ensures
        is_topics_of(r.deep_view(), queries.deep_view(), c@),
{
    let ghost qs = queries.deep_view();
    let mut names: OrderedSet<String> = OrderedSet::new();
    let mut k: usize = 0;
    while k < queries.len()
        invariant
            k <= queries.len(),
            qs == queries.deep_view(),
            forall|name: Seq<char>| #[trigger]
                names@.contains(name) <==> named_by(qs, c@, name, k as int),
        decreases queries.len() - k,
    {
        let ghost before = names@;
        assert(qs[k as int] == queries[k as int]@);
        if query_names_instance(&queries[k], c) {
            names.insert(queries[k].name.dup());
            assert forall|name: Seq<char>| #[trigger]
                names@.contains(name) <==> named_by(qs, c@, name, k + 1) by {
                assert(names@.to_set().contains(name) == names@.contains(name));
                assert(before.to_set().contains(name) == before.contains(name));
                if named_by(qs, c@, name, k + 1) {
                    let w = choose|w: int|
                        0 <= w < k + 1 && w < qs.len() && (#[trigger] qs[w]).name == name
                            && names_instance(qs[w], c@);
                    if w < k {
                        assert(named_by(qs, c@, name, k as int));
                    }
                }
                if before.contains(name) {
                    assert(named_by(qs, c@, name, k as int));
                    let w = choose|w: int|
                        0 <= w < k && w < qs.len() && (#[trigger] qs[w]).name == name
                            && names_instance(qs[w], c@);
                    assert(named_by(qs, c@, name, k + 1));
                }
                if name == qs[k as int].name {
                    assert(named_by(qs, c@, name, k + 1));
                }
            }
        } else {
            assert forall|name: Seq<char>| #[trigger]
                names@.contains(name) <==> named_by(qs, c@, name, k + 1) by {
                if named_by(qs, c@, name, k + 1) {
                    let w = choose|w: int|
                        0 <= w < k + 1 && w < qs.len() && (#[trigger] qs[w]).name == name
                            && names_instance(qs[w], c@);
                    assert(w < k);
                    assert(named_by(qs, c@, name, k as int));
                }
                if names@.contains(name) {
                    assert(named_by(qs, c@, name, k as int));
                    let w = choose|w: int|
                        0 <= w < k && w < qs.len() && (#[trigger] qs[w]).name == name
                            && names_instance(qs[w], c@);
                    assert(named_by(qs, c@, name, k + 1));
                }
            }
        }
        k += 1;
    }
    names.to_vec()
}

/// Whether a map gives each node of a list, and no other, the topics of
/// the queries that name its instance.
pub open spec fn is_topic_names_map(
    m: Map<NodeView, Seq<Seq<char>>>,
    at_candidates: Seq<NodeView>,
    queries: Seq<QueryView>,
) -> bool {
    &&& forall|c: NodeView| #[trigger] m.contains_key(c) <==> at_candidates.contains(c)
    &&& forall|c: NodeView| #[trigger] m.contains_key(c) ==> is_topics_of(m[c], queries, c)
}

/// The topics of each node of a list.
pub fn create_topic_names_map(at_candidates: &Vec<Node>, queries: &Vec<Query>) -> (r: OrderedMap<
    Node,
    Vec<String>,
>)
    ensures
        is_topic_names_map(r.map(), at_candidates.deep_view(), queries.deep_view()),
{
    let ghost cs = at_candidates.deep_view();
    let ghost qs = queries.deep_view();
    let mut out: OrderedMap<Node, Vec<String>> = OrderedMap::new();
    let mut i: usize = 0;
    assert(out.map() =~= Map::<NodeView, Seq<Seq<char>>>::empty());
    while i < at_candidates.len()
        invariant
            i <= at_candidates.len(),
            cs == at_candidates.deep_view(),
            qs == queries.deep_view(),
            is_topic_names_map(out.map(), cs.take(i as int), qs),
        decreases at_candidates.len() - i,
    {
        let ghost before = out.map();
        let c = at_candidates[i].dup();
        let topics = topics_of(&c, queries);
        let ghost tv = topics.deep_view();
        out.insert(c, topics);
        proof {
            let cv = cs[i as int];
            let cur = cs.take(i + 1);
            assert(cur.drop_last() =~= cs.take(i as int));
            assert(cur =~= cs.take(i as int).push(cv));
            assert forall|x: NodeView| #[trigger] out.map().contains_key(x) <==> cur.contains(
                x,
            ) by {
                if cur.contains(x) {
                    let w = choose|w: int| 0 <= w < cur.len() && cur[w] == x;
                    if w < i {
                        assert(cs.take(i as int)[w] == x);
                        assert(cs.take(i as int).contains(x));
                    }
                }
                if before.contains_key(x) {
                    assert(cs.take(i as int).contains(x));
                    let w = choose|w: int| 0 <= w < i && cs.take(i as int)[w] == x;
                    assert(cur[w] == x);
                }
                if x == cv {
                    assert(cur[i as int] == x);
                }
            }
        }
        i += 1;
    }
    assert(cs.take(i as int) =~= cs);
    out
}

/// The floor of a factory: where its barrels are, and what of the factory
/// the patterns of its queries tell.
pub struct Floor {
    pub current_timestamp: u64,
    /// The barrel at each place, if one is there.
    pub state: OrderedMap<Node, Option<Node>>,
    /// The nodes at which something may happen.
    pub at_candidates: Vec<Node>,
    pub topic_names_map: OrderedMap<Node, Vec<String>>,
    pub stamp_assembly_of_map: OrderedMap<Node, Node>,
    pub objects_surrounding_crane_map: OrderedMap<Node, Vec<Node>>,
    pub pickdrop_belongs_to_crane_map: OrderedMap<Node, Node>,
    pub conveyor_of_conveyor_event: OrderedMap<Node, Node>,
    pub plastic_ramp_of_conveyor: OrderedMap<Node, Node>,
    pub metal_ramp_of_conveyor: OrderedMap<Node, Node>,
    /// What each barrel on the floor is made of.
    pub barrel_material_type: OrderedMap<Node, BarrelMaterialType>,
    pub detector_of_platform: OrderedMap<Node, Node>,
    pub use_central: bool,
    /// Whether the factory detects what its barrels are made of and sorts
    /// them on conveyors.
    pub sorts_barrels: bool,
}

/// What a floor holds.
pub struct FloorView {
    pub current_timestamp: u64,
    pub state: Map<NodeView, Option<NodeView>>,
    pub at_candidates: Seq<NodeView>,
    pub topic_names_map: Map<NodeView, Seq<Seq<char>>>,
    pub stamp_assembly_of_map: Map<NodeView, NodeView>,
    pub objects_surrounding_crane_map: Map<NodeView, Seq<NodeView>>,
    pub pickdrop_belongs_to_crane_map: Map<NodeView, NodeView>,
    pub conveyor_of_conveyor_event: Map<NodeView, NodeView>,
    pub plastic_ramp_of_conveyor: Map<NodeView, NodeView>,
    pub metal_ramp_of_conveyor: Map<NodeView, NodeView>,
    pub barrel_material_type: Map<NodeView, BarrelMaterialType>,
    pub detector_of_platform: Map<NodeView, NodeView>,
    pub use_central: bool,
    pub sorts_barrels: bool,
}

impl View for Floor {
    type V = FloorView;

    open spec fn view(&self) -> FloorView {
        FloorView {
            current_timestamp: self.current_timestamp,
            state: self.state.map(),
            at_candidates: self.at_candidates.deep_view(),
            topic_names_map: self.topic_names_map.map(),
            stamp_assembly_of_map: self.stamp_assembly_of_map.map(),
            objects_surrounding_crane_map: self.objects_surrounding_crane_map.map(),
            pickdrop_belongs_to_crane_map: self.pickdrop_belongs_to_crane_map.map(),
            conveyor_of_conveyor_event: self.conveyor_of_conveyor_event.map(),
            plastic_ramp_of_conveyor: self.plastic_ramp_of_conveyor.map(),
            metal_ramp_of_conveyor: self.metal_ramp_of_conveyor.map(),
            barrel_material_type: self.barrel_material_type.map(),
            detector_of_platform: self.detector_of_platform.map(),
            use_central: self.use_central,
            sorts_barrels: self.sorts_barrels,
        }
    }
}

/// What happened on a floor: the floor afterwards, the deltas that the
/// components should infer, and the updates that tell them of it.
pub struct Message {
    pub floor: FloorView,
    pub deltas: Seq<DeltaView>,
    pub updates: Seq<TopicNameAndUpdateView>,
}

/// The node that says what a barrel is made of.
pub open spec fn material_property(barrel: Seq<char>, material: BarrelMaterialType) -> NodeView {
    NodeView {
        query_node_name: None,
        instance_node_name: Some(barrel + "_barrel_type"@),
        node_type: Some("BarrelMaterialType"@),
        node_class: NodeClass::Property,
        value_bytes: Some(varint(material.index())),
    }
}

/// The node of a stamp on a barrel.
pub open spec fn stamp_property(barrel: Seq<char>, timestamp: u64, payload: Seq<u8>) -> NodeView {
    NodeView {
        query_node_name: None,
        instance_node_name: Some(barrel + "_Stamp_"@ + decimal(timestamp as nat)),
        node_type: Some("StampData"@),
        node_class: NodeClass::Property,
        value_bytes: Some(payload),
    }
}

/// The material of the barrel that is pushed at a time: metal at even
/// times, plastic at odd ones.
pub open spec fn material_at_time(timestamp: u64) -> BarrelMaterialType {
    if timestamp % 2 == 0 {
        BarrelMaterialType::Metal
    } else {
        BarrelMaterialType::Plastic
    }
}

impl FloorView {
    /// The first topic of a node.
    pub open spec fn topic(self, n: NodeView) -> Option<Seq<char>> {
        if self.topic_names_map.contains_key(n) && self.topic_names_map[n].len() > 0 {
            Some(self.topic_names_map[n][0])
        } else {
            None
        }
    }

    /// The floor with a place filled or emptied.
    pub open spec fn put(self, place: NodeView, barrel: Option<NodeView>) -> FloorView {
        FloorView { state: self.state.insert(place, barrel), ..self }
    }

    /// A new barrel is pushed onto an empty platform. Where the factory
    /// sorts its barrels, the detector of the platform sees what the barrel
    /// is made of.
    pub open spec fn pushed(self, c: NodeView, ids: Seq<Seq<char>>) -> Option<Message> {
        let ts = self.current_timestamp;
        let barrel = barrel_named(ids[0]);
        if !self.topic_names_map.contains_key(c) || !self.state.contains_key(c)
            || self.state[c] is Some {
            None
        } else if !self.sorts_barrels {
            Some(
                Message {
                    floor: self.put(c, Some(barrel)),
                    deltas: seq![at_place(barrel, c, ts, DeltaType::Addition)],
                    updates: to_topics(
                        single_delta(ids[1], barrel, c, "At"@, ts, DeltaType::Addition),
                        self.topic_names_map[c],
                        self.use_central,
                    ),
                },
            )
        } else if !self.detector_of_platform.contains_key(c) {
            None
        } else {
            let detector = self.detector_of_platform[c];
            let material = material_at_time(ts);
            match (self.topic(detector), detector.instance_node_name) {
                (Some(topic), Some(name)) => Some(
                    Message {
                        floor: FloorView {
                            barrel_material_type: self.barrel_material_type.insert(
                                barrel,
                                material,
                            ),
                            ..self.put(c, Some(barrel))
                        },
                        deltas: seq![
                            at_place(barrel, c, ts, DeltaType::Addition),
                            DeltaView {
                                src: barrel,
                                trg: material_property("MyBarrel-"@ + ids[0], material),
                                edge_type: "HasMaterialType"@,
                                timestamp: (ts + 1) as u64,
                                delta_type: DeltaType::Addition,
                            },
                        ],
                        updates: to_topics(
                            single_delta(ids[1], barrel, c, "At"@, ts, DeltaType::Addition),
                            self.topic_names_map[c],
                            self.use_central,
                        ).push(event_for(topic, ids[2], ts, name, varint(material.index()))),
                    },
                ),
                _ => None,
            }
        }
    }

    /// The type of the places where barrels may still be dropped when the
    /// factory is stopping.
    pub open spec fn last_stop(self) -> Seq<char> {
        if self.sorts_barrels {
            "Conveyor"@
        } else {
            "Ramp"@
        }
    }

    /// A crane picks a barrel up from one of the objects around it, or
    /// drops the barrel that it holds onto one: `s` chooses the object. A
    /// factory that is stopping picks nothing up from a ramp, and drops
    /// only where barrels leave the cranes.
    pub open spec fn lifted(self, c: NodeView, stopping: bool, s: u64, id: Seq<char>) -> Option<
        Message,
    > {
        let ts = self.current_timestamp;
        if !self.pickdrop_belongs_to_crane_map.contains_key(c) {
            None
        } else {
            let crane = self.pickdrop_belongs_to_crane_map[c];
            if !self.objects_surrounding_crane_map.contains_key(crane)
                || self.objects_surrounding_crane_map[crane].len() == 0 {
                None
            } else {
                let around = self.objects_surrounding_crane_map[crane];
                let o = around[s as int % around.len() as int];
                if !self.state.contains_key(c) || !self.state.contains_key(o) || (stopping
                    && o.node_type is None) {
                    None
                } else {
                    match (self.topic(c), c.instance_node_name, o.instance_node_name) {
                        (Some(topic), Some(name), Some(object)) => match self.state[c] {
                            None => if (!stopping || o.node_type != Some("Ramp"@))
                                && self.state[o] is Some {
                                let barrel = self.state[o]->0;
                                Some(
                                    Message {
                                        floor: self.put(c, Some(barrel)).put(o, None),
                                        deltas: seq![
                                            at_place(barrel, o, ts, DeltaType::Removal),
                                            at_place(
                                                barrel,
                                                crane,
                                                (ts + 1) as u64,
                                                DeltaType::Addition,
                                            ),
                                        ],
                                        updates: seq![
                                            event_for(
                                                topic,
                                                id,
                                                ts,
                                                name,
                                                CraneEvent::encoding(
                                                    CraneEventView {
                                                        instance_node_id: object,
                                                        crane_event_type: CraneEventType::PickUp,
                                                    },
                                                ),
                                            ),
                                        ],
                                    },
                                )
                            } else {
                                None
                            },
                            Some(barrel) => if (!stopping || o.node_type == Some(
                                self.last_stop(),
                            )) && self.state[o] is None {
                                Some(
                                    Message {
                                        floor: self.put(c, None).put(o, Some(barrel)),
                                        deltas: seq![
                                            at_place(barrel, crane, ts, DeltaType::Removal),
                                            at_place(
                                                barrel,
                                                o,
                                                (ts + 1) as u64,
                                                DeltaType::Addition,
                                            ),
                                        ],
                                        updates: seq![
                                            event_for(
                                                topic,
                                                id,
                                                ts,
                                                name,
                                                CraneEvent::encoding(
                                                    CraneEventView {
                                                        instance_node_id: object,
                                                        crane_event_type: CraneEventType::Drop,
                                                    },
                                                ),
                                            ),
                                        ],
                                    },
                                )
                            } else {
                                None
                            },
                        },
                        _ => None,
                    }
                }
            }
        }
    }

    /// A stamp marks the barrel at its assembly, right after the time of
    /// the floor: `ids` gives what is stamped, and the id of the event.
    pub open spec fn stamped(self, c: NodeView, ids: Seq<Seq<char>>) -> Option<Message> {
        let ts = self.current_timestamp;
        if !self.stamp_assembly_of_map.contains_key(c) {
            None
        } else {
            let assembly = self.stamp_assembly_of_map[c];
            if !self.state.contains_key(assembly) {
                None
            } else {
                match (self.state[assembly], self.topic(c), c.instance_node_name) {
                    (Some(barrel), Some(topic), Some(name)) => match barrel.instance_node_name {
                        None => None,
                        Some(barrel_name) => Some(
                            Message {
                                floor: self,
                                deltas: seq![
                                    DeltaView {
                                        src: barrel,
                                        trg: stamp_property(
                                            barrel_name,
                                            (ts + 1) as u64,
                                            enc_str(ids[0]),
                                        ),
                                        edge_type: "HasStampData"@,
                                        timestamp: (ts + 1) as u64,
                                        delta_type: DeltaType::Addition,
                                    },
                                ],
                                updates: seq![
                                    event_for(
                                        topic,
                                        ids[1],
                                        (ts + 1) as u64,
                                        name,
                                        enc_str(ids[0]),
                                    ),
                                ],
                            },
                        ),
                    },
                    _ => None,
                }
            }
        }
    }

    /// The ramp that a conveyor sends a barrel to.
    pub open spec fn ramp_for(self, conveyor: NodeView, barrel: NodeView) -> Option<NodeView> {
        if !self.plastic_ramp_of_conveyor.contains_key(conveyor)
            || !self.metal_ramp_of_conveyor.contains_key(conveyor)
            || !self.barrel_material_type.contains_key(barrel) {
            None
        } else if self.barrel_material_type[barrel] == BarrelMaterialType::Metal {
            Some(self.metal_ramp_of_conveyor[conveyor])
        } else {
            Some(self.plastic_ramp_of_conveyor[conveyor])
        }
    }

    /// A conveyor sends the barrel on it to the ramp for its material, if
    /// that ramp is empty.
    pub open spec fn conveyed(self, c: NodeView, id: Seq<char>) -> Option<Message> {
        let ts = self.current_timestamp;
        if !self.conveyor_of_conveyor_event.contains_key(c) {
            None
        } else {
            let conveyor = self.conveyor_of_conveyor_event[c];
            if !self.state.contains_key(conveyor) {
                None
            } else {
                match (self.state[conveyor], self.topic(c), c.instance_node_name) {
                    (Some(barrel), Some(topic), Some(name)) => match self.ramp_for(
                        conveyor,
                        barrel,
                    ) {
                        None => None,
                        Some(ramp) => if !self.state.contains_key(ramp)
                            || self.state[ramp] is Some {
                            None
                        } else {
                            Some(
                                Message {
                                    floor: self.put(conveyor, None).put(ramp, Some(barrel)),
                                    deltas: seq![
                                        at_place(barrel, conveyor, ts, DeltaType::Removal),
                                        at_place(
                                            barrel,
                                            ramp,
                                            (ts + 1) as u64,
                                            DeltaType::Addition,
                                        ),
                                    ],
                                    updates: seq![event_for(topic, id, ts, name, Seq::empty())],
                                },
                            )
                        },
                    },
                    _ => None,
                }
            }
        }
    }

    /// The barrel on a ramp leaves the factory.
    pub open spec fn taken(self, c: NodeView, id: Seq<char>) -> Option<Message> {
        let ts = self.current_timestamp;
        if !self.topic_names_map.contains_key(c) || !self.state.contains_key(c) {
            None
        } else {
            match self.state[c] {
                None => None,
                Some(barrel) => Some(
                    Message {
                        floor: FloorView {
                            barrel_material_type: if self.sorts_barrels {
                                self.barrel_material_type.remove(barrel)
                            } else {
                                self.barrel_material_type
                            },
                            ..self.put(c, None)
                        },
                        deltas: seq![at_place(barrel, c, ts, DeltaType::Removal)],
                        updates: to_topics(
                            single_delta(id, barrel, c, "At"@, ts, DeltaType::Removal),
                            self.topic_names_map[c],
                            self.use_central,
                        ),
                    },
                ),
            }
        }
    }

    /// The node that a number chooses among those at which something may
    /// happen.
    pub open spec fn candidate(self, r: u64) -> NodeView {
        self.at_candidates[r as int % self.at_candidates.len() as int]
    }

    /// What happens at the node that `r` chooses, if anything can happen
    /// there: a platform gets a barrel, a crane picks one up or drops it, a
    /// stamp marks one, a conveyor sorts one, or one leaves by a ramp. A
    /// factory that is stopping gets no new barrels and stamps none.
    /// Nothing happens where the floor does not know what it would need.
    pub open spec fn happened(self, stopping: bool, r: u64, s: u64, ids: Seq<Seq<char>>) -> Option<
        Message,
    > {
        if self.at_candidates.len() == 0 || self.current_timestamp > u64::MAX - 3 {
            None
        } else {
            let c = self.candidate(r);
            if !self.topic_names_map.contains_key(c) {
                None
            } else if !stopping && c.node_type == Some("Platform"@) {
                self.pushed(c, ids)
            } else if c.node_type == Some("PickDrop"@) {
                self.lifted(c, stopping, s, ids[0])
            } else if !stopping && c.node_type == Some("Stamp"@) {
                self.stamped(c, ids)
            } else if self.sorts_barrels && c.node_type == Some("ConveyorEvent"@) {
                self.conveyed(c, ids[0])
            } else if c.node_type == Some("Ramp"@) {
                self.taken(c, ids[0])
            } else {
                None
            }
        }
    }

    /// What an attempt gives: what happened, three ticks later.
    pub open spec fn attempted(self, stopping: bool, r: u64, s: u64, ids: Seq<Seq<char>>) -> Option<
        Message,
    > {
        match self.happened(stopping, r, s, ids) {
            None => None,
            Some(m) => Some(
                Message {
                    floor: FloorView {
                        current_timestamp: (self.current_timestamp + 3) as u64,
                        ..m.floor
                    },
                    ..m
                },
            ),
        }
    }

    /// Whether no barrel is left on the floor.
    pub open spec fn finished(self) -> bool {
        forall|n: NodeView| #[trigger] self.state.contains_key(n) ==> self.state[n] is None
    }
}

/// Whether what an attempt gave is what was to happen: the message with
/// the floor as it is now, or nothing and the floor as it was.
pub open spec fn is_outcome(
    want: Option<Message>,
    before: FloorView,
    after: FloorView,
    got: Option<(Vec<Delta>, Vec<TopicNameAndUpdate>)>,
) -> bool {
    match got {
        None => want is None && after == before,
        Some((deltas, updates)) => want == Some(
            Message { floor: after, deltas: deltas.deep_view(), updates: updates.deep_view() },
        ),
    }
}

/// What an attempt hands out: the deltas that the components should infer,
/// and the updates that tell them of what happened.
pub type Told = (Vec<Delta>, Vec<TopicNameAndUpdate>);

fn name_of(n: &Node) -> (r: Option<String>)
    ensures
        r.deep_view() == n@.instance_node_name,
{
    match &n.instance_node_name {
        None => None,
        Some(name) => Some(name.dup()),
    }
}

fn two_deltas(first: Delta, second: Delta) -> (r: Vec<Delta>)
    ensures
        r.deep_view() == seq![first@, second@],
{
    let ghost a = first@;
    let ghost b = second@;
    let mut deltas: Vec<Delta> = Vec::new();
    deltas.push(first);
    deltas.push(second);
    assert(deltas.deep_view() =~= seq![a, b]);
    deltas
}

fn one_delta(first: Delta) -> (r: Vec<Delta>)
    ensures
        r.deep_view() == seq![first@],
{
    let ghost a = first@;
    let mut deltas: Vec<Delta> = Vec::new();
    deltas.push(first);
    assert(deltas.deep_view() =~= seq![a]);
    deltas
}

fn one_update(first: TopicNameAndUpdate) -> (r: Vec<TopicNameAndUpdate>)
    ensures
        r.deep_view() == seq![first@],
{
    let ghost a = first@;
    let mut updates: Vec<TopicNameAndUpdate> = Vec::new();
    updates.push(first);
    assert(updates.deep_view() =~= seq![a]);
    updates
}

impl Floor {
    fn first_topic(&self, n: &Node) -> (r: Option<String>)
        ensures
            r.deep_view() == self@.topic(n@),
    {
        match self.topic_names_map.get(n) {
            None => None,
            Some(names) => if names.len() > 0 {
                Some(names[0].dup())
            } else {
                None
            },
        }
    }

    /// What is at a place, if the floor knows the place.
    fn at(&self, place: &Node) -> (r: Option<Option<Node>>)
        ensures
            r is Some == self@.state.contains_key(place@),
            r is Some ==> r->0.deep_view() == self@.state[place@],
    {
        match self.state.get(place) {
            None => None,
            Some(slot) => Some(slot.dup()),
        }
    }

    fn push(&mut self, c: &Node, ids: &Vec<String>) -> (r: Option<Told>)
        requires
            ids.len() >= 3,
            old(self).current_timestamp <= u64::MAX - 3,
        ensures
            is_outcome(old(self)@.pushed(c@, ids.deep_view()), old(self)@, final(self)@, r),
    {
        let ts = self.current_timestamp;
        let topic_names = match self.topic_names_map.get(c) {
            None => {
                return None;
            },
            Some(names) => names.dup(),
        };
        match self.at(c) {
            None => {
                return None;
            },
            Some(Some(_)) => {
                return None;
            },
            Some(None) => {},
        }
        let barrel = barrel_with_id(&ids[0]);
        let update = single_delta_update(
            ids[1].dup(),
            barrel.dup(),
            c.dup(),
            "At",
            ts,
            DeltaType::Addition,
        );
        let mut updates = send_to_topics(&update, &topic_names, self.use_central);
        let pushed = at_delta(&barrel, c, ts, DeltaType::Addition);
        if !self.sorts_barrels {
            self.state.insert(c.dup(), Some(barrel));
            return Some((one_delta(pushed), updates));
        }
        let detector = match self.detector_of_platform.get(c) {
            None => {
                return None;
            },
            Some(d) => d.dup(),
        };
        let topic = match self.first_topic(&detector) {
            None => {
                return None;
            },
            Some(t) => t,
        };
        let name = match name_of(&detector) {
            None => {
                return None;
            },
            Some(n) => n,
        };
        let material = if ts % 2 == 0 {
            BarrelMaterialType::Metal
        } else {
            BarrelMaterialType::Plastic
        };
        let mut property = "MyBarrel-".to_owned();
        property.append(ids[0].as_str());
        property.append("_barrel_type");
        let seen = Delta {
            src: barrel.dup(),
            trg: Node::property_instance_node(
                property.as_str(),
                "BarrelMaterialType",
                material.encode(),
            ),
            edge_type: "HasMaterialType".to_owned(),
            timestamp: ts + 1,
            delta_type: DeltaType::Addition,
        };
        let event = create_event(topic, ids[2].dup(), ts, name, material.encode());
        let ghost before = updates.deep_view();
        let ghost ev = event@;
        updates.push(event);
        assert(updates.deep_view() =~= before.push(ev));
        self.state.insert(c.dup(), Some(barrel.dup()));
        self.barrel_material_type.insert(barrel, material);
        Some((two_deltas(pushed, seen), updates))
    }

    fn lift(&mut self, c: &Node, stopping: bool, s: u64, id: &String) -> (r: Option<Told>)
        requires
            old(self).current_timestamp <= u64::MAX - 3,
        ensures
            is_outcome(old(self)@.lifted(c@, stopping, s, id@), old(self)@, final(self)@, r),
    {
        let ts = self.current_timestamp;
        let crane = match self.pickdrop_belongs_to_crane_map.get(c) {
            None => {
                return None;
            },
            Some(n) => n.dup(),
        };
        let o = match self.objects_surrounding_crane_map.get(&crane) {
            None => {
                return None;
            },
            Some(around) => {
                if around.len() == 0 {
                    return None;
                }
                let n: u64 = around.len() as u64;
                around[(s % n) as usize].dup()
            },
        };
        let held = match self.at(c) {
            None => {
                return None;
            },
            Some(slot) => slot,
        };
        let there = match self.at(&o) {
            None => {
                return None;
            },
            Some(slot) => slot,
        };
        if stopping && o.node_type.is_none() {
            return None;
        }
        let topic = match self.first_topic(c) {
            None => {
                return None;
            },
            Some(t) => t,
        };
        let name = match name_of(c) {
            None => {
                return None;
            },
            Some(n) => n,
        };
        let object = match name_of(&o) {
            None => {
                return None;
            },
            Some(n) => n,
        };
        match held {
            None => {
                if stopping && has_type(&o, "Ramp") {
                    return None;
                }
                match there {
                    None => None,
                    Some(barrel) => {
                        let deltas = two_deltas(
                            at_delta(&barrel, &o, ts, DeltaType::Removal),
                            at_delta(&barrel, &crane, ts + 1, DeltaType::Addition),
                        );
                        let payload = CraneEvent {
                            instance_node_id: object,
                            crane_event_type: CraneEventType::PickUp,
                        }.encode();
                        let updates = one_update(create_event(topic, id.dup(), ts, name, payload));
                        self.state.insert(c.dup(), Some(barrel));
                        self.state.insert(o, None);
                        Some((deltas, updates))
                    },
                }
            },
            Some(barrel) => {
                let last_stop = if self.sorts_barrels {
                    "Conveyor"
                } else {
                    "Ramp"
                };
                if stopping && !has_type(&o, last_stop) {
                    return None;
                }
                if there.is_some() {
                    return None;
                }
                let deltas = two_deltas(
                    at_delta(&barrel, &crane, ts, DeltaType::Removal),
                    at_delta(&barrel, &o, ts + 1, DeltaType::Addition),
                );
                let payload = CraneEvent {
                    instance_node_id: object,
                    crane_event_type: CraneEventType::Drop,
                }.encode();
                let updates = one_update(create_event(topic, id.dup(), ts, name, payload));
                self.state.insert(c.dup(), None);
                self.state.insert(o, Some(barrel));
                Some((deltas, updates))
            },
        }
    }

    fn stamp(&self, c: &Node, ids: &Vec<String>) -> (r: Option<Told>)
        requires
            ids.len() >= 3,
            self.current_timestamp <= u64::MAX - 3,
        ensures
            is_outcome(self@.stamped(c@, ids.deep_view()), self@, self@, r),
    {
        let ts = self.current_timestamp;
        let assembly = match self.stamp_assembly_of_map.get(c) {
            None => {
                return None;
            },
            Some(n) => n.dup(),
        };
        let barrel = match self.at(&assembly) {
            None => {
                return None;
            },
            Some(None) => {
                return None;
            },
            Some(Some(b)) => b,
        };
        let topic = match self.first_topic(c) {
            None => {
                return None;
            },
            Some(t) => t,
        };
        let name = match name_of(c) {
            None => {
                return None;
            },
            Some(n) => n,
        };
        let mut property = match name_of(&barrel) {
            None => {
                return None;
            },
            Some(n) => n,
        };
        let payload = StampEvent { stamp_data: ids[0].dup() }.encode();
        property.append("_Stamp_");
        property.append(number_text(ts + 1).as_str());
        let bytes = payload.dup();
        assert(bytes@ =~= bytes.deep_view());
        assert(payload@ =~= payload.deep_view());
        let stamped = Delta {
            src: barrel,
            trg: Node::property_instance_node(property.as_str(), "StampData", bytes),
            edge_type: "HasStampData".to_owned(),
            timestamp: ts + 1,
            delta_type: DeltaType::Addition,
        };
        let event = create_event(topic, ids[1].dup(), ts + 1, name, payload);
        Some((one_delta(stamped), one_update(event)))
    }

    fn ramp_of(&self, conveyor: &Node, barrel: &Node) -> (r: Option<Node>)
        ensures
            r.deep_view() == self@.ramp_for(conveyor@, barrel@),
    {
        let plastic = match self.plastic_ramp_of_conveyor.get(conveyor) {
            None => {
                return None;
            },
            Some(n) => n,
        };
        let metal = match self.metal_ramp_of_conveyor.get(conveyor) {
            None => {
                return None;
            },
            Some(n) => n,
        };
        match self.barrel_material_type.get(barrel) {
            None => None,
            Some(BarrelMaterialType::Metal) => Some(metal.dup()),
            Some(BarrelMaterialType::Plastic) => Some(plastic.dup()),
        }
    }

    fn convey(&mut self, c: &Node, id: &String) -> (r: Option<Told>)
        requires
            old(self).current_timestamp <= u64::MAX - 3,
        ensures
            is_outcome(old(self)@.conveyed(c@, id@), old(self)@, final(self)@, r),
    {
        let ts = self.current_timestamp;
        let conveyor = match self.conveyor_of_conveyor_event.get(c) {
            None => {
                return None;
            },
            Some(n) => n.dup(),
        };
        let barrel = match self.at(&conveyor) {
            None => {
                return None;
            },
            Some(None) => {
                return None;
            },
            Some(Some(b)) => b,
        };
        let topic = match self.first_topic(c) {
            None => {
                return None;
            },
            Some(t) => t,
        };
        let name = match name_of(c) {
            None => {
                return None;
            },
            Some(n) => n,
        };
        let ramp = match self.ramp_of(&conveyor, &barrel) {
            None => {
                return None;
            },
            Some(n) => n,
        };
        match self.at(&ramp) {
            None => {
                return None;
            },
            Some(Some(_)) => {
                return None;
            },
            Some(None) => {},
        }
        let deltas = two_deltas(
            at_delta(&barrel, &conveyor, ts, DeltaType::Removal),
            at_delta(&barrel, &ramp, ts + 1, DeltaType::Addition),
        );
        let updates = one_update(create_event(topic, id.dup(), ts, name, Vec::new()));
        self.state.insert(conveyor, None);
        self.state.insert(ramp, Some(barrel));
        Some((deltas, updates))
    }

    fn take(&mut self, c: &Node, id: &String) -> (r: Option<Told>)
        requires
            old(self).current_timestamp <= u64::MAX - 3,
        ensures
            is_outcome(old(self)@.taken(c@, id@), old(self)@, final(self)@, r),
    {
        let ts = self.current_timestamp;
        let topic_names = match self.topic_names_map.get(c) {
            None => {
                return None;
            },
            Some(names) => names.dup(),
        };
        let barrel = match self.at(c) {
            None => {
                return None;
            },
            Some(None) => {
                return None;
            },
            Some(Some(b)) => b,
        };
        let update = single_delta_update(
            id.dup(),
            barrel.dup(),
            c.dup(),
            "At",
            ts,
            DeltaType::Removal,
        );
        let updates = send_to_topics(&update, &topic_names, self.use_central);
        let deltas = one_delta(at_delta(&barrel, c, ts, DeltaType::Removal));
        if self.sorts_barrels {
            self.barrel_material_type.remove(&barrel);
        }
        self.state.insert(c.dup(), None);
        Some((deltas, updates))
    }

    /// Whether the node that `r` chooses is one at which a crane acts, so
    /// that a second number has to choose the object.
    pub fn draws_twice(&self, r: u64) -> (twice: bool)
        ensures
            twice == (self@.at_candidates.len() > 0 && self@.candidate(r).node_type == Some(
                "PickDrop"@,
            )),
    {
        if self.at_candidates.len() == 0 {
            return false;
        }
        let n: u64 = self.at_candidates.len() as u64;
        has_type(&self.at_candidates[(r % n) as usize], "PickDrop")
    }

    /// Lets something happen at the node that `r` chooses, if anything can
    /// happen there. `s` chooses among the objects around a crane; `ids`
    /// are three ids for what is made.
    pub fn attempt(&mut self, stopping: bool, r: u64, s: u64, ids: &Vec<String>) -> (told: Option<
        Told,
    >)
        requires
            ids.len() >= 3,
        ensures
            is_outcome(
                old(self)@.attempted(stopping, r, s, ids.deep_view()),
                old(self)@,
                final(self)@,
                told,
            ),
    {
        if self.at_candidates.len() == 0 || self.current_timestamp > u64::MAX - 3 {
            return None;
        }
        let n: u64 = self.at_candidates.len() as u64;
        let c = self.at_candidates[(r % n) as usize].dup();
        if !self.topic_names_map.contains_key(&c) {
            return None;
        }
        let told = if !stopping && has_type(&c, "Platform") {
            self.push(&c, ids)
        } else if has_type(&c, "PickDrop") {
            self.lift(&c, stopping, s, &ids[0])
        } else if !stopping && has_type(&c, "Stamp") {
            self.stamp(&c, ids)
        } else if self.sorts_barrels && has_type(&c, "ConveyorEvent") {
            self.convey(&c, &ids[0])
        } else if has_type(&c, "Ramp") {
            self.take(&c, &ids[0])
        } else {
            None
        };
        match told {
            None => None,
            Some(t) => {
                self.current_timestamp = self.current_timestamp + 3;
                Some(t)
            },
        }
    }

    /// Whether no barrel is left on the floor.
    pub fn is_finished(&self) -> (r: bool)
        ensures
            r == self@.finished(),
    {
        let mut i: usize = 0;
        while i < self.state.len()
            invariant
                i <= self.state@.len(),
                forall|k: int| 0 <= k < i ==> (#[trigger] self.state@[k]).1 is None,
            decreases self.state@.len() - i,
        {
            let slot = self.state.value_at(i);
            if slot.is_some() {
                proof {
                    lemma_entry_at::<Node, Option<NodeView>>(self.state@, i as int);
                    assert(self@.state.contains_key(self.state@[i as int].0));
                    assert(self@.state[self.state@[i as int].0] is Some);
                }
                return false;
            }
            i += 1;
        }
        proof {
            assert forall|n: NodeView| #[trigger] self@.state.contains_key(n) implies self@.state[n] is None by {
                let k = index_of_key(self.state@, n);
                assert(self.state@[k].0 == n);
            }
        }
        true
    }
}

/// A map with each node of a list bound to nothing.
pub open spec fn cleared(
    m: Map<NodeView, Option<NodeView>>,
    nodes: Seq<NodeView>,
) -> Map<NodeView, Option<NodeView>>
    decreases nodes.len(),
{
    if nodes.len() == 0 {
        m
    } else {
        cleared(m, nodes.drop_last()).insert(nodes.last(), None)
    }
}

fn clear_places(state: &mut OrderedMap<Node, Option<Node>>, nodes: &Vec<Node>)
    ensures
        final(state).map() == cleared(old(state).map(), nodes.deep_view()),
{
    let ghost start = state.map();
    let ghost ns = nodes.deep_view();
    let mut i: usize = 0;
    assert(ns.take(0) =~= Seq::<NodeView>::empty());
    while i < nodes.len()
        invariant
            i <= nodes.len(),
            ns == nodes.deep_view(),
            state.map() == cleared(start, ns.take(i as int)),
        decreases nodes.len() - i,
    {
        proof {
            let cur = ns.take(i + 1);
            assert(cur.drop_last() =~= ns.take(i as int));
            assert(cur.last() == nodes[i as int]@);
        }
        state.insert(nodes[i].dup(), None);
        i += 1;
    }
    assert(ns.take(i as int) =~= ns);
}

/// Adds the nodes of a list to another.
pub fn append_nodes(out: &mut Vec<Node>, more: &Vec<Node>)
    ensures
        final(out).deep_view() == old(out).deep_view() + more.deep_view(),
{
    let ghost start = out.deep_view();
    let ghost ms = more.deep_view();
    let mut i: usize = 0;
    assert(out.deep_view() =~= start + ms.take(0));
    while i < more.len()
        invariant
            i <= more.len(),
            ms == more.deep_view(),
            out.deep_view() == start + ms.take(i as int),
        decreases more.len() - i,
    {
        let ghost before = out.deep_view();
        let n = more[i].dup();
        let ghost nv = n@;
        out.push(n);
        assert(out.deep_view() =~= before.push(nv));
        assert(before.push(nv) =~= start + ms.take(i + 1));
        i += 1;
    }
    assert(ms.take(i as int) =~= ms);
}

/// Whether a floor is that of a factory before anything has happened:
/// no barrel is at any of the places, and the floor knows of the factory
/// what the patterns of the queries tell.
pub open spec fn is_fresh_floor(
    f: FloorView,
    at_candidates: Seq<NodeView>,
    other_places: Seq<NodeView>,
    queries: Seq<QueryView>,
    timestamp: u64,
    use_central: bool,
    sorts_barrels: bool,
) -> bool {
    let edges = all_pattern_edges(queries);
    let none = Map::<NodeView, NodeView>::empty();
    &&& f.current_timestamp == timestamp
    &&& f.state == cleared(cleared(Map::empty(), at_candidates), other_places)
    &&& f.at_candidates == at_candidates
    &&& is_topic_names_map(f.topic_names_map, at_candidates, queries)
    &&& f.stamp_assembly_of_map == Link::AssemblyOfStamp.among(edges)
    &&& f.objects_surrounding_crane_map == surroundings(
        edges,
        Link::ObjectOfPosition.among(edges),
    )
    &&& f.pickdrop_belongs_to_crane_map == Link::CraneOfPickdrop.among(edges)
    &&& f.conveyor_of_conveyor_event == if sorts_barrels {
        Link::ConveyorOfEvent.among(edges)
    } else {
        none
    }
    &&& f.plastic_ramp_of_conveyor == if sorts_barrels {
        Link::PlasticRampOfConveyor.among(edges)
    } else {
        none
    }
    &&& f.metal_ramp_of_conveyor == if sorts_barrels {
        Link::MetalRampOfConveyor.among(edges)
    } else {
        none
    }
    &&& f.detector_of_platform == if sorts_barrels {
        Link::DetectorOfPlatform.among(edges)
    } else {
        none
    }
    &&& f.barrel_material_type == Map::<NodeView, BarrelMaterialType>::empty()
    &&& f.use_central == use_central
    &&& f.sorts_barrels == sorts_barrels
}

fn no_links() -> (r: OrderedMap<Node, Node>)
    ensures
        r.map() == Map::<NodeView, NodeView>::empty(),
{
    let r: OrderedMap<Node, Node> = OrderedMap::new();
    assert(r.map() =~= Map::<NodeView, NodeView>::empty());
    r
}

impl Floor {
    /// The floor of a factory before anything has happened.
    pub fn new(
        at_candidates: Vec<Node>,
        other_places: &Vec<Node>,
        queries: &Vec<Query>,
        init_timestamp: u64,
        use_central: bool,
        sorts_barrels: bool,
    ) -> (r: Floor)
        ensures
            is_fresh_floor(
                r@,
                at_candidates.deep_view(),
                other_places.deep_view(),
                queries.deep_view(),
                init_timestamp,
                use_central,
                sorts_barrels,
            ),
    {
        let mut state: OrderedMap<Node, Option<Node>> = OrderedMap::new();
        assert(state.map() =~= Map::<NodeView, Option<NodeView>>::empty());
        clear_places(&mut state, &at_candidates);
        clear_places(&mut state, other_places);
        let barrel_material_type: OrderedMap<Node, BarrelMaterialType> = OrderedMap::new();
        assert(barrel_material_type.map() =~= Map::<NodeView, BarrelMaterialType>::empty());
        let topic_names_map = create_topic_names_map(&at_candidates, queries);
        Floor {
            current_timestamp: init_timestamp,
            state,
            topic_names_map,
            stamp_assembly_of_map: Link::AssemblyOfStamp.of_queries(queries),
            objects_surrounding_crane_map: create_objects_surrounding_crane_map(queries),
            pickdrop_belongs_to_crane_map: Link::CraneOfPickdrop.of_queries(queries),
            conveyor_of_conveyor_event: if sorts_barrels {
                Link::ConveyorOfEvent.of_queries(queries)
            } else {
                no_links()
            },
            plastic_ramp_of_conveyor: if sorts_barrels {
                Link::PlasticRampOfConveyor.of_queries(queries)
            } else {
                no_links()
            },
            metal_ramp_of_conveyor: if sorts_barrels {
                Link::MetalRampOfConveyor.of_queries(queries)
            } else {
                no_links()
            },
            barrel_material_type,
            detector_of_platform: if sorts_barrels {
                Link::DetectorOfPlatform.of_queries(queries)
            } else {
                no_links()
            },
            at_candidates,
            use_central,
            sorts_barrels,
        }
    }
}

/// `SeedableRng::seed_from_u64` for `ChaCha8Rng`: a generator of
/// pseudo-random numbers, begun from a seed.
#[verifier::external_body]
pub(crate) fn seeded_generator(seed: u64) -> (r: rand_chacha::ChaCha8Rng) {
    rand_chacha::rand_core::SeedableRng::seed_from_u64(seed)
}

/// `RngCore::next_u64` of `ChaCha8Rng`: the next number of the generator.
/// Nothing is promised of it.
#[verifier::external_body]
pub(crate) fn next_number(generator: &mut rand_chacha::ChaCha8Rng) -> (r: u64) {
    rand_chacha::rand_core::RngCore::next_u64(generator)
}

/// The seed of the generators of the simulated factories.
pub const SEED: u64 = 1234;

/// Whether an attempt on a floor, for some choice of node and object and
/// some three ids, made what was handed out and left the floor as it is
/// after.
pub open spec fn made(
    before: FloorView,
    stopping: bool,
    after: FloorView,
    deltas: Seq<DeltaView>,
    updates: Seq<TopicNameAndUpdateView>,
) -> bool {
    exists|r: u64, s: u64, ids: Seq<Seq<char>>|
        ids.len() == 3 && #[trigger] before.attempted(stopping, r, s, ids) == Some(
            Message { floor: after, deltas, updates },
        )
}

/// Whether some choice of node and object lets nothing happen on a floor.
pub open spec fn can_fail(before: FloorView, stopping: bool) -> bool {
    exists|r: u64, s: u64, ids: Seq<Seq<char>>|
        ids.len() == 3 && (#[trigger] before.attempted(stopping, r, s, ids)) is None
}

/// Whether what a number of attempts on a floor has handed out is what they
/// had to: without an attempt nothing is made. A message is what one of the
/// attempts made, and the floor is as that attempt left it. Where none is
/// made, the floor is as it was, and a choice of node was found at which
/// nothing can happen; so a floor on which something can happen whatever is
/// chosen yields a message at the first attempt.
pub open spec fn is_attempted(
    before: FloorView,
    stopping: bool,
    attempts: u64,
    after: FloorView,
    told: Option<Told>,
) -> bool {
    match told {
        None => after == before && (attempts > 0 ==> can_fail(before, stopping)),
        Some((deltas, updates)) => attempts > 0 && made(
            before,
            stopping,
            after,
            deltas.deep_view(),
            updates.deep_view(),
        ),
    }
}

/// Draws nodes until something happens at one of them, at most `attempts`
/// times, and hands out what happened. Each attempt draws a number for the
/// node, a second one for the object where the node is one of a crane, and
/// three fresh ids.
pub fn attempt_with(
    floor: &mut Floor,
    generator: &mut rand_chacha::ChaCha8Rng,
    stopping: bool,
    attempts: u64,
) -> (told: Option<Told>)
    ensures
        is_attempted(old(floor)@, stopping, attempts, final(floor)@, told),
{
    let mut left = attempts;
    while left > 0
        invariant
            floor@ == old(floor)@,
            left <= attempts,
            left < attempts ==> can_fail(old(floor)@, stopping),
        decreases left,
    {
        let r = next_number(generator);
        let s = if floor.draws_twice(r) {
            next_number(generator)
        } else {
            0
        };
        let ids = fresh_ids(3);
        assert(ids.deep_view().len() == 3);
        match floor.attempt(stopping, r, s, &ids) {
            Some(told) => {
                return Some(told);
            },
            None => {
                assert(old(floor)@.attempted(stopping, r, s, ids.deep_view()) is None);
            },
        }
        left -= 1;
    }
    None
}

/// A simulated factory that makes the messages of what happens in it.
pub trait MessageCreator {
    /// The floor of the factory.
    spec fn floor_view(&self) -> FloorView;

    /// Makes the message of the next thing that happens in the factory,
    /// trying at most `attempts` randomly chosen nodes. A factory that is
    /// stopping makes no new barrels.
    fn create_one_new_message(&mut self, stopping: bool, attempts: u64) -> (told: Option<Told>)
        ensures
            is_attempted(
                old(self).floor_view(),
                stopping,
                attempts,
                final(self).floor_view(),
                told,
            ),
    ;

    /// Whether no barrel is left in the factory.
    fn is_finished(&self) -> (r: bool)
        ensures
            r == self.floor_view().finished(),
    ;

    fn get_current_timestamp(&self) -> (r: u64)
        ensures
            r == self.floor_view().current_timestamp,
    ;
}

/// The messages of a simulated factory that runs for `n` messages and then
/// stops: once it is stopping, it goes on until no barrel is left. The
/// factory is given up where it makes no message within the attempts that
/// it is given for one, or after `most` messages. The result holds the
/// updates, how many messages were made, and whether the factory has
/// stopped with no barrel left.
pub fn create_n_messages<C: MessageCreator>(
    message_creator: &mut C,
    n: u32,
    attempts: u64,
    most: u64,
) -> (r: (Vec<TopicNameAndUpdate>, u64, bool))
    ensures
        r.1 <= most,
        r.2 == (n <= r.1 && final(message_creator).floor_view().finished()),
{
    let mut topics_and_updates: Vec<TopicNameAndUpdate> = Vec::new();
    let mut seq: u64 = 0;
    while seq < most
        invariant
            seq <= most,
        decreases most - seq,
    {
        let stopping = n as u64 <= seq;
        if stopping && message_creator.is_finished() {
            return (topics_and_updates, seq, true);
        }
        match message_creator.create_one_new_message(stopping, attempts) {
            None => {
                let finished = stopping && message_creator.is_finished();
                return (topics_and_updates, seq, finished);
            },
            Some((_, mut updates)) => {
                topics_and_updates.append(&mut updates);
            },
        }
        seq += 1;
    }
    let finished = n as u64 <= seq && message_creator.is_finished();
    (topics_and_updates, seq, finished)
}

} // verus!
