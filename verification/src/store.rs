//! The store of a component: the deltas it has accepted, the edges derived
//! from them with their indexes, the events it has seen, and what each event
//! has produced.

use crate::event::{Deltas, DeltasView, Event, EventView};
use crate::graph::{
    shape_of, Delta, DeltaType, DeltaView, Edge, EdgeView, NodeClass, NodeView,
};
use crate::intervals::within;
use crate::order::{same, Rank, Sortable, Value};
use crate::ordered::{
    add_to_set_at, as_map, has_key, index_of_key, keys_of, lemma_entry_at, lemma_insert_contains,
    lemma_sorted_unique, remove_from_set_at, set_at, strictly_sorted, value_of, OrderedMap,
    OrderedSet,
};
use vstd::prelude::*;

verus! {

/// The peer that a package of deltas was sent to, with the id of the package.
#[derive(Debug, PartialEq, Eq)]
pub struct TopicNameAndDeltasId {
    pub topic_name: String,
    pub deltas_id: String,
}

/// What a binding of a topic and a package holds.
pub struct TopicNameAndDeltasIdView {
    pub topic_name: Seq<char>,
    pub deltas_id: Seq<char>,
}

impl DeepView for TopicNameAndDeltasId {
    type V = TopicNameAndDeltasIdView;

    open spec fn deep_view(&self) -> TopicNameAndDeltasIdView {
        TopicNameAndDeltasIdView { topic_name: self.topic_name@, deltas_id: self.deltas_id@ }
    }
}

impl View for TopicNameAndDeltasId {
    type V = TopicNameAndDeltasIdView;

    open spec fn view(&self) -> TopicNameAndDeltasIdView {
        self.deep_view()
    }
}

impl Value for TopicNameAndDeltasId {
    fn dup(&self) -> (r: Self) {
        TopicNameAndDeltasId { topic_name: self.topic_name.dup(), deltas_id: self.deltas_id.dup() }
    }
}

impl Clone for TopicNameAndDeltasId {
    fn clone(&self) -> (r: Self)
        ensures
            r@ == self@,
    {
        self.dup()
    }
}

/// A delta with the package that it came in: two packages may hold the same
/// delta, and a retraction takes back only the one of its package.
#[derive(Debug, PartialEq, Eq)]
pub struct DeltaAndDeltasId {
    pub deltas_id: String,
    pub delta: Delta,
}

/// What a delta with its package holds.
pub struct DeltaAndDeltasIdView {
    pub deltas_id: Seq<char>,
    pub delta: DeltaView,
}

impl DeepView for DeltaAndDeltasId {
    type V = DeltaAndDeltasIdView;

    open spec fn deep_view(&self) -> DeltaAndDeltasIdView {
        DeltaAndDeltasIdView { deltas_id: self.deltas_id@, delta: self.delta@ }
    }
}

impl View for DeltaAndDeltasId {
    type V = DeltaAndDeltasIdView;

    open spec fn view(&self) -> DeltaAndDeltasIdView {
        self.deep_view()
    }
}

impl Value for DeltaAndDeltasId {
    fn dup(&self) -> (r: Self) {
        DeltaAndDeltasId { deltas_id: self.deltas_id.dup(), delta: self.delta.dup() }
    }
}

impl Clone for DeltaAndDeltasId {
    fn clone(&self) -> (r: Self)
        ensures
            r@ == self@,
    {
        self.dup()
    }
}

impl Sortable for DeltaAndDeltasId {
    /// Compared by the package first, then by the delta.
    open spec fn before(a: DeltaAndDeltasIdView, b: DeltaAndDeltasIdView) -> bool {
        <(String, Delta) as Sortable>::before((a.deltas_id, a.delta), (b.deltas_id, b.delta))
    }

    proof fn lemma_order(a: DeltaAndDeltasIdView, b: DeltaAndDeltasIdView, c: DeltaAndDeltasIdView) {
        <(String, Delta) as Sortable>::lemma_order(
            (a.deltas_id, a.delta),
            (b.deltas_id, b.delta),
            (c.deltas_id, c.delta),
        );
    }

    fn rank(&self, other: &Self) -> (r: Rank) {
        proof {
            Self::lemma_order(self@, other@, self@);
            Self::lemma_order(other@, self@, other@);
        }
        match self.deltas_id.rank(&other.deltas_id) {
            Rank::Less => Rank::Less,
            Rank::Greater => Rank::Greater,
            Rank::Equal => self.delta.rank(&other.delta),
        }
    }
}

/// The widths of the bins of the four levels of the interval grid.
pub open spec fn level_width(level: int) -> u64 {
    if level == 0 {
        10
    } else if level == 1 {
        100
    } else if level == 2 {
        1000
    } else {
        (u64::MAX / 2) as u64
    }
}

/// The level of the interval grid that holds an edge of a duration: the
/// smallest whose bins, taken twice, are at least as wide as the edge is
/// long; the last level where none is.
pub open spec fn level_of(duration: u64) -> int {
    if 2 * level_width(0) >= duration {
        0
    } else if 2 * level_width(1) >= duration {
        1
    } else if 2 * level_width(2) >= duration {
        2
    } else {
        3
    }
}

/// The event ids of the entries whose timestamp lies in a range, in the
/// order of the entries.
pub open spec fn ids_between(
    entries: Seq<(u64, Seq<Seq<char>>)>,
    from: u64,
    to: Option<u64>,
) -> Seq<Seq<char>>
    decreases entries.len(),
{
    if entries.len() == 0 {
        Seq::empty()
    } else {
        let rest = ids_between(entries.drop_last(), from, to);
        let last = entries.last();
        if from <= last.0 && (to is None || last.0 <= to->0) {
            rest + last.1
        } else {
            rest
        }
    }
}

/// The in-memory state of a component.
pub struct Store {
    deltas_by_deltas_id: OrderedMap<String, Deltas>,
    deltas_and_deltas_id_by_edge: OrderedMap<Edge, OrderedSet<DeltaAndDeltasId>>,
    retracted_deltas_ids: OrderedSet<String>,
    event_ids_by_timestamp: OrderedMap<u64, OrderedSet<String>>,
    events_by_event_id: OrderedMap<String, Event>,
    grid0: OrderedMap<u64, OrderedSet<Edge>>,
    grid1: OrderedMap<u64, OrderedSet<Edge>>,
    grid2: OrderedMap<u64, OrderedSet<Edge>>,
    grid3: OrderedMap<u64, OrderedSet<Edge>>,
    event_match_hash_and_output_hash: OrderedMap<String, OrderedMap<u64, Option<u64>>>,
    matches_hashes_deltas_ids: OrderedMap<(String, u64), Vec<TopicNameAndDeltasId>>,
    edges_by_node: OrderedMap<String, OrderedSet<Edge>>,
    open_edges: OrderedSet<Edge>,
    watermark: u64,
}

/// What a store holds. Every collection is given as the sequence of its
/// entries in increasing order.
pub struct StoreView {
    pub deltas_by_deltas_id: Seq<(Seq<char>, DeltasView)>,
    pub deltas_by_edge: Seq<(EdgeView, Seq<DeltaAndDeltasIdView>)>,
    pub retracted_deltas_ids: Seq<Seq<char>>,
    pub event_ids_by_timestamp: Seq<(u64, Seq<Seq<char>>)>,
    pub events_by_event_id: Seq<(Seq<char>, EventView)>,
    pub edge_grid: Seq<Seq<(u64, Seq<EdgeView>)>>,
    pub match_outputs: Seq<(Seq<char>, Seq<(u64, Option<u64>)>)>,
    pub bindings: Seq<((Seq<char>, u64), Seq<TopicNameAndDeltasIdView>)>,
    pub edges_by_node: Seq<(Seq<char>, Seq<EdgeView>)>,
    pub open_edges: Seq<EdgeView>,
    pub watermark: u64,
}

impl StoreView {
    /// The store that holds nothing.
    pub open spec fn empty() -> StoreView {
        StoreView {
            deltas_by_deltas_id: Seq::empty(),
            deltas_by_edge: Seq::empty(),
            retracted_deltas_ids: Seq::empty(),
            event_ids_by_timestamp: Seq::empty(),
            events_by_event_id: Seq::empty(),
            edge_grid: seq![Seq::empty(), Seq::empty(), Seq::empty(), Seq::empty()],
            match_outputs: Seq::empty(),
            bindings: Seq::empty(),
            edges_by_node: Seq::empty(),
            open_edges: Seq::empty(),
            watermark: 0,
        }
    }

    /// The packages of deltas by their id.
    pub open spec fn packages(self) -> Map<Seq<char>, DeltasView> {
        as_map(self.deltas_by_deltas_id)
    }

    /// The deltas that the store holds for an edge shape.
    pub open spec fn deltas_of(self, shape: EdgeView) -> Set<DeltaAndDeltasIdView> {
        set_at(self.deltas_by_edge, shape)
    }

    /// The ids that have been retracted.
    pub open spec fn retracted(self) -> Set<Seq<char>> {
        self.retracted_deltas_ids.to_set()
    }

    /// The ids of the events of a timestamp.
    pub open spec fn ids_at(self, timestamp: u64) -> Set<Seq<char>> {
        set_at(self.event_ids_by_timestamp, timestamp)
    }

    /// The events by their id.
    pub open spec fn events(self) -> Map<Seq<char>, EventView> {
        as_map(self.events_by_event_id)
    }

    /// The closed edges in a bin of a level of the interval grid.
    pub open spec fn bin(self, level: int, bin: u64) -> Set<EdgeView> {
        set_at(self.edge_grid[level], bin)
    }

    /// What each match of an event has given: the hash of its output, if it
    /// had any.
    pub open spec fn outputs(self) -> Map<Seq<char>, Seq<(u64, Option<u64>)>> {
        as_map(self.match_outputs)
    }

    /// The packages sent for a match of an event.
    pub open spec fn sent(self) -> Map<(Seq<char>, u64), Seq<TopicNameAndDeltasIdView>> {
        as_map(self.bindings)
    }

    /// The edges indexed under the name of a node.
    pub open spec fn edges_of_node(self, name: Seq<char>) -> Set<EdgeView> {
        set_at(self.edges_by_node, name)
    }

    /// The open edges between objects.
    pub open spec fn open(self) -> Set<EdgeView> {
        self.open_edges.to_set()
    }

    /// Whether every collection is in its canonical form: strictly
    /// increasing, so that nothing occurs twice, and a map strictly
    /// increasing by its keys; and so for the collections within a
    /// collection.
    pub open spec fn canonical(self) -> bool {
        &&& strictly_sorted::<String>(keys_of(self.deltas_by_deltas_id))
        &&& forall|i: int|
            0 <= i < self.deltas_by_deltas_id.len() ==> strictly_sorted::<Delta>(
                (#[trigger] self.deltas_by_deltas_id[i]).1.deltas,
            )
        &&& strictly_sorted::<Edge>(keys_of(self.deltas_by_edge))
        &&& forall|i: int|
            0 <= i < self.deltas_by_edge.len() ==> strictly_sorted::<DeltaAndDeltasId>(
                (#[trigger] self.deltas_by_edge[i]).1,
            )
        &&& strictly_sorted::<String>(self.retracted_deltas_ids)
        &&& strictly_sorted::<u64>(keys_of(self.event_ids_by_timestamp))
        &&& forall|i: int|
            0 <= i < self.event_ids_by_timestamp.len() ==> strictly_sorted::<String>(
                (#[trigger] self.event_ids_by_timestamp[i]).1,
            )
        &&& strictly_sorted::<String>(keys_of(self.events_by_event_id))
        &&& self.edge_grid.len() == 4
        &&& forall|l: int|
            0 <= l < 4 ==> strictly_sorted::<u64>(keys_of(#[trigger] self.edge_grid[l]))
        &&& forall|l: int, i: int|
            0 <= l < 4 && 0 <= i < self.edge_grid[l].len() ==> strictly_sorted::<Edge>(
                (#[trigger] self.edge_grid[l][i]).1,
            )
        &&& strictly_sorted::<String>(keys_of(self.match_outputs))
        &&& forall|i: int|
            0 <= i < self.match_outputs.len() ==> strictly_sorted::<u64>(
                keys_of((#[trigger] self.match_outputs[i]).1),
            )
        &&& strictly_sorted::<(String, u64)>(keys_of(self.bindings))
        &&& strictly_sorted::<String>(keys_of(self.edges_by_node))
        &&& forall|i: int|
            0 <= i < self.edges_by_node.len() ==> strictly_sorted::<Edge>(
                (#[trigger] self.edges_by_node[i]).1,
            )
        &&& strictly_sorted::<Edge>(self.open_edges)
    }
}

impl View for Store {
    type V = StoreView;

    closed spec fn view(&self) -> StoreView {
        StoreView {
            deltas_by_deltas_id: self.deltas_by_deltas_id@,
            deltas_by_edge: self.deltas_and_deltas_id_by_edge@,
            retracted_deltas_ids: self.retracted_deltas_ids@,
            event_ids_by_timestamp: self.event_ids_by_timestamp@,
            events_by_event_id: self.events_by_event_id@,
            edge_grid: seq![self.grid0@, self.grid1@, self.grid2@, self.grid3@],
            match_outputs: self.event_match_hash_and_output_hash@,
            bindings: self.matches_hashes_deltas_ids@,
            edges_by_node: self.edges_by_node@,
            open_edges: self.open_edges@,
            watermark: self.watermark,
        }
    }
}


proof fn lemma_sets_shown<K: Sortable, X: Sortable>(m: &OrderedMap<K, OrderedSet<X>>)
    ensures
        strictly_sorted::<K>(keys_of(m@)),
        forall|i: int| 0 <= i < m@.len() ==> strictly_sorted::<X>((#[trigger] m@[i]).1),
{
    m.lemma_keys_sorted();
    assert forall|i: int| 0 <= i < m@.len() implies strictly_sorted::<X>((#[trigger] m@[i]).1) by {
        m.lemma_value_shown(i);
        let v = choose|v: OrderedSet<X>| m@[i].1 == #[trigger] v.deep_view();
        v.lemma_sorted();
    }
}

impl Store {
    /// What a store shows of itself is in canonical form: every list of the
    /// model is strictly increasing, and every map by its keys. So a list
    /// of the model is fixed by what it holds.
    pub proof fn lemma_canonical(&self)
        ensures
            self@.canonical(),
    {
        let v = self@;
        self.deltas_by_deltas_id.lemma_keys_sorted();
        assert forall|i: int| 0 <= i < v.deltas_by_deltas_id.len() implies strictly_sorted::<Delta>(
            (#[trigger] v.deltas_by_deltas_id[i]).1.deltas,
        ) by {
            self.deltas_by_deltas_id.lemma_value_shown(i);
            let d = choose|d: Deltas| v.deltas_by_deltas_id[i].1 == #[trigger] d.deep_view();
            d.deltas.lemma_sorted();
        }
        lemma_sets_shown(&self.deltas_and_deltas_id_by_edge);
        self.retracted_deltas_ids.lemma_sorted();
        lemma_sets_shown(&self.event_ids_by_timestamp);
        self.events_by_event_id.lemma_keys_sorted();
        lemma_sets_shown(&self.grid0);
        lemma_sets_shown(&self.grid1);
        lemma_sets_shown(&self.grid2);
        lemma_sets_shown(&self.grid3);
        self.event_match_hash_and_output_hash.lemma_keys_sorted();
        assert forall|i: int| 0 <= i < v.match_outputs.len() implies strictly_sorted::<u64>(
            keys_of((#[trigger] v.match_outputs[i]).1),
        ) by {
            self.event_match_hash_and_output_hash.lemma_value_shown(i);
            let m = choose|m: OrderedMap<u64, Option<u64>>|
                v.match_outputs[i].1 == #[trigger] m.deep_view();
            m.lemma_keys_sorted();
        }
        self.matches_hashes_deltas_ids.lemma_keys_sorted();
        lemma_sets_shown(&self.edges_by_node);
        self.open_edges.lemma_sorted();
    }
}

/// Whether a store has recorded an event: under its id, and among the ids
/// of its time.
pub open spec fn event_added(b: StoreView, e: EventView, a: StoreView) -> bool {
    &&& a.events() == b.events().insert(e.event_id, e)
    &&& forall|t: u64| #[trigger]
        a.ids_at(t) == (if t == e.timestamp {
            b.ids_at(t).insert(e.event_id)
        } else {
            b.ids_at(t)
        })
    &&& as_map(a.event_ids_by_timestamp).dom() == as_map(b.event_ids_by_timestamp).dom().insert(
        e.timestamp,
    )
    &&& a == (StoreView {
        event_ids_by_timestamp: a.event_ids_by_timestamp,
        events_by_event_id: a.events_by_event_id,
        ..b
    })
}

impl Store {
    pub fn new() -> (r: Store)
        ensures
            r@ == StoreView::empty(),
    {
        Store {
            deltas_by_deltas_id: OrderedMap::new(),
            deltas_and_deltas_id_by_edge: OrderedMap::new(),
            retracted_deltas_ids: OrderedSet::new(),
            event_ids_by_timestamp: OrderedMap::new(),
            events_by_event_id: OrderedMap::new(),
            grid0: OrderedMap::new(),
            grid1: OrderedMap::new(),
            grid2: OrderedMap::new(),
            grid3: OrderedMap::new(),
            event_match_hash_and_output_hash: OrderedMap::new(),
            matches_hashes_deltas_ids: OrderedMap::new(),
            edges_by_node: OrderedMap::new(),
            open_edges: OrderedSet::new(),
            watermark: 0,
        }
    }

    /// Records an event under its id and its timestamp. Doing so again
    /// changes nothing.
    pub fn add_new_event(&mut self, event: &Event)
        ensures
            event_added(old(self)@, event@, final(self)@),
    {
        add_to_set_at(&mut self.event_ids_by_timestamp, event.timestamp, event.event_id.dup());
        self.events_by_event_id.insert(event.event_id.dup(), event.dup());
    }

    /// Remembers the packages that were sent for a match of an event.
    pub fn add_new_match_updates_binding(
        &mut self,
        event_id: &str,
        match_hash: &u64,
        topic_names_deltas_ids: Vec<TopicNameAndDeltasId>,
    )
        ensures
            final(self)@.sent() == old(self)@.sent().insert(
                (event_id@, *match_hash),
                topic_names_deltas_ids.deep_view(),
            ),
            final(self)@ == (StoreView { bindings: final(self)@.bindings, ..old(self)@ }),
    {
        self.matches_hashes_deltas_ids.insert(
            (event_id.to_owned(), *match_hash),
            topic_names_deltas_ids,
        );
    }

    /// Records what each match of an event has given.
    pub fn update_matches(
        &mut self,
        event_id: &str,
        updated_matches_hashes: OrderedMap<u64, Option<u64>>,
    )
        ensures
            final(self)@.outputs() == old(self)@.outputs().insert(
                event_id@,
                updated_matches_hashes@,
            ),
            final(self)@ == (StoreView { match_outputs: final(self)@.match_outputs, ..old(self)@ }),
    {
        self.event_match_hash_and_output_hash.insert(event_id.to_owned(), updated_matches_hashes);
    }

    /// The packages that were sent for a match of an event.
    pub fn get_deltas_ids_for_event_id_and_match_hash(
        &self,
        event_id: &str,
        match_hash: &u64,
    ) -> (r: Option<Vec<TopicNameAndDeltasId>>)
        ensures
            r is Some == self@.sent().contains_key((event_id@, *match_hash)),
            r is Some ==> r->0.deep_view() == self@.sent()[(event_id@, *match_hash)],
    {
        let key = (event_id.to_owned(), *match_hash);
        match self.matches_hashes_deltas_ids.get(&key) {
            Some(v) => Some(v.dup()),
            None => None,
        }
    }

    /// Takes out the packages that were sent for a match of an event.
    pub fn pop_deltas_ids_for_event_id_and_match_hash(
        &mut self,
        event_id: &str,
        match_hash: &u64,
    ) -> (r: Option<Vec<TopicNameAndDeltasId>>)
        ensures
            r is Some == old(self)@.sent().contains_key((event_id@, *match_hash)),
            r is Some ==> r->0.deep_view() == old(self)@.sent()[(event_id@, *match_hash)],
            final(self)@.sent() == old(self)@.sent().remove((event_id@, *match_hash)),
            final(self)@ == (StoreView { bindings: final(self)@.bindings, ..old(self)@ }),
    {
        let key = (event_id.to_owned(), *match_hash);
        self.matches_hashes_deltas_ids.remove(&key)
    }

    /// What each match of an event has given, by the hash of the match;
    /// nothing for an event that the store has no record of.
    pub fn get_event_output_hash_by_match_hash(&self, event_id: &str) -> (r: OrderedMap<
        u64,
        Option<u64>,
    >)
        ensures
            r@ == (if self@.outputs().contains_key(event_id@) {
                self@.outputs()[event_id@]
            } else {
                Seq::empty()
            }),
    {
        let key = event_id.to_owned();
        match self.event_match_hash_and_output_hash.get(&key) {
            None => OrderedMap::new(),
            Some(t) => t.dup(),
        }
    }

    /// Hands the packages that were sent for a match over to another match
    /// of the same event; says whether there were any.
    pub fn replace_old_match_with_equivalent_new_match(
        &mut self,
        event_id: &str,
        old_match_hash: &u64,
        new_match_hash: &u64,
    ) -> (found: bool)
        ensures
            found == old(self)@.sent().contains_key((event_id@, *old_match_hash)),
            found ==> final(self)@.sent() == old(self)@.sent().remove(
                (event_id@, *old_match_hash),
            ).insert((event_id@, *new_match_hash), old(self)@.sent()[(event_id@, *old_match_hash)]),
            !found ==> final(self)@.sent() == old(self)@.sent(),
            final(self)@ == (StoreView { bindings: final(self)@.bindings, ..old(self)@ }),
    {
        match self.pop_deltas_ids_for_event_id_and_match_hash(event_id, old_match_hash) {
            Some(bindings) => {
                self.add_new_match_updates_binding(event_id, new_match_hash, bindings);
                true
            },
            None => {
                assert(self@.sent() =~= old(self)@.sent());
                false
            },
        }
    }

    /// Remembers ids as retracted, for good.
    pub fn add_retractions(&mut self, retractions: &Vec<String>)
        ensures
            final(self)@.retracted() == old(self)@.retracted().union(
                retractions.deep_view().to_set(),
            ),
            final(self)@ == (StoreView {
                retracted_deltas_ids: final(self)@.retracted_deltas_ids,
                ..old(self)@
            }),
    {
        let ghost rv = retractions.deep_view();
        let mut i: usize = 0;
        proof {
            assert(rv.take(0).to_set() =~= Set::<Seq<char>>::empty());
            assert(self@.retracted().union(Set::<Seq<char>>::empty()) =~= self@.retracted());
        }
        while i < retractions.len()
            invariant
                i <= retractions.len(),
                rv == retractions.deep_view(),
                self@.retracted() == old(self)@.retracted().union(rv.take(i as int).to_set()),
                self@ == (StoreView {
                    retracted_deltas_ids: self@.retracted_deltas_ids,
                    ..old(self)@
                }),
            decreases retractions.len() - i,
        {
            self.retracted_deltas_ids.insert(retractions[i].dup());
            proof {
                let cur = rv.take(i + 1);
                assert(cur =~= rv.take(i as int).push(rv[i as int]));
                assert(cur.to_set() =~= rv.take(i as int).to_set().insert(rv[i as int])) by {
                    assert forall|x: Seq<char>| cur.to_set().contains(x) == rv.take(
                        i as int,
                    ).to_set().insert(rv[i as int]).contains(x) by {
                        crate::ordered::lemma_insert_contains(
                            rv.take(i as int),
                            i as int,
                            rv[i as int],
                            x,
                        );
                        assert(rv.take(i as int).insert(i as int, rv[i as int]) =~= cur);
                    }
                }
                assert(self@.retracted() =~= old(self)@.retracted().union(cur.to_set()));
            }
            i = i + 1;
        }
        assert(rv.take(i as int) =~= rv);
    }

    /// The ids of the events whose timestamp lies in a range, by timestamp
    /// and, among those of one timestamp, by id.
    pub fn get_event_ids_in_interval(&self, from: u64, to: Option<u64>) -> (r: Vec<String>)
        ensures
            r.deep_view() == ids_between(self@.event_ids_by_timestamp, from, to),
            forall|id: Seq<char>| #[trigger]
                r.deep_view().contains(id) <==> listed_between(self@, from, to, id),
    {
        let mut out: Vec<String> = Vec::new();
        let ghost entries = self@.event_ids_by_timestamp;
        proof {
            self.event_ids_by_timestamp.lemma_keys_sorted();
            assert forall|id: Seq<char>| #[trigger]
                ids_between(entries, from, to).contains(id) <==> listed_between(
                    self@,
                    from,
                    to,
                    id,
                ) by {
                lemma_ids_between(entries, from, to, id);
                if ids_between(entries, from, to).contains(id) {
                    let i = choose|i: int|
                        0 <= i < entries.len() && from <= (#[trigger] entries[i]).0 && (to is None
                            || entries[i].0 <= to->0) && entries[i].1.contains(id);
                    lemma_entry_at::<u64, Seq<Seq<char>>>(entries, i);
                    assert(entries[i].1.to_set().contains(id));
                    assert(self@.ids_at(entries[i].0).contains(id));
                }
                if listed_between(self@, from, to, id) {
                    let t = choose|t: u64|
                        from <= t && (to is None || t <= to->0) && #[trigger] self@.ids_at(
                            t,
                        ).contains(id);
                    assert(has_key(entries, t));
                    let i = index_of_key(entries, t);
                    assert(entries[i].0 == t);
                    assert(value_of(entries, t).to_set().contains(id));
                    assert(entries[i].1.contains(id));
                }
            }
        }
        let mut i: usize = 0;
        assert(out.deep_view() =~= ids_between(entries.take(0), from, to));
        while i < self.event_ids_by_timestamp.len()
            invariant
                i <= entries.len(),
                entries == self@.event_ids_by_timestamp,
                entries == self.event_ids_by_timestamp@,
                out.deep_view() == ids_between(entries.take(i as int), from, to),
            decreases entries.len() - i,
        {
            let ts = *self.event_ids_by_timestamp.key_at(i);
            proof {
                let cur = entries.take(i + 1);
                assert(cur.drop_last() =~= entries.take(i as int));
                assert(cur.last() == entries[i as int]);
            }
            let inside = from <= ts && match to {
                None => true,
                Some(end) => ts <= end,
            };
            if inside {
                let mut ids = self.event_ids_by_timestamp.value_at(i).to_vec();
                let ghost prev = out.deep_view();
                let ghost add = ids.deep_view();
                out.append(&mut ids);
                assert(out.deep_view() =~= prev + add);
            }
            i = i + 1;
        }
        assert(entries.take(i as int) =~= entries);
        out
    }

    /// The number of open edges between objects.
    pub fn count_open_edges(&self) -> (r: usize)
        ensures
            r == self@.open_edges.len(),
    {
        self.open_edges.len()
    }

    /// Whether an id has been retracted.
    pub fn is_update_rectracted(&self, event_or_deltas_id: &str) -> (r: bool)
        ensures
            r == self@.retracted().contains(event_or_deltas_id@),
    {
        let key = event_or_deltas_id.to_owned();
        self.retracted_deltas_ids.contains(&key)
    }

    /// The event of an id, if the store has it.
    pub fn get_event_by_event_id(&self, event_id: &String) -> (r: Option<&Event>)
        ensures
            r is Some == self@.events().contains_key(event_id@),
            r is Some ==> r->0@ == self@.events()[event_id@],
    {
        self.events_by_event_id.get(event_id)
    }
}

/// The time from which an edge is live; an edge without a beginning is live
/// from the start.
pub open spec fn begin(e: EdgeView) -> u64 {
    if e.from_timestamp is Some {
        e.from_timestamp->0
    } else {
        0
    }
}

/// Whether an edge is live at a timestamp.
pub open spec fn live_at(e: EdgeView, t: u64) -> bool {
    within(t as int, begin(e), e.to_timestamp)
}

/// How long a closed edge is live.
pub open spec fn duration(e: EdgeView) -> u64 {
    if e.to_timestamp is Some && e.to_timestamp->0 >= begin(e) {
        (e.to_timestamp->0 - begin(e)) as u64
    } else {
        0
    }
}

/// Whether an edge is kept in the index by node name: neither of its ends
/// is an object.
pub open spec fn in_node_index(e: EdgeView) -> bool {
    e.src.node_class != NodeClass::Object && e.trg.node_class != NodeClass::Object
}

/// Whether a node is a material with a name.
pub open spec fn named_material(n: NodeView) -> bool {
    n.node_class == NodeClass::Material && n.instance_node_name is Some
}

/// The names under which an edge is indexed: those of its material ends,
/// the source first.
pub open spec fn node_keys(e: EdgeView) -> Seq<Seq<char>> {
    (if named_material(e.src) {
        seq![e.src.instance_node_name->0]
    } else {
        Seq::empty()
    }) + (if named_material(e.trg) {
        seq![e.trg.instance_node_name->0]
    } else {
        Seq::empty()
    })
}

/// Whether a bin of a level of the grid is one of the two that hold a closed
/// edge: that of its beginning and that of its end, on the level of its
/// duration.
pub open spec fn is_bin_of(e: EdgeView, level: int, bin: u64) -> bool {
    e.to_timestamp is Some && level == level_of(duration(e)) && (bin == begin(e) / level_width(
        level,
    ) || bin == e.to_timestamp->0 / level_width(level))
}

/// The open edges that have begun by a timestamp, in their order.
pub open spec fn begun_by(edges: Seq<EdgeView>, t: u64) -> Seq<EdgeView>
    decreases edges.len(),
{
    if edges.len() == 0 {
        edges
    } else {
        let rest = begun_by(edges.drop_last(), t);
        if begin(edges.last()) <= t {
            rest.push(edges.last())
        } else {
            rest
        }
    }
}

/// Of open edges in increasing order, those that have begun by a
/// timestamp are in increasing order too, each once.
pub proof fn lemma_begun_by(edges: Seq<EdgeView>, t: u64)
    requires
        strictly_sorted::<Edge>(edges),
    ensures
        strictly_sorted::<Edge>(begun_by(edges, t)),
        forall|x: EdgeView| #[trigger]
            begun_by(edges, t).contains(x) <==> edges.contains(x) && begin(x) <= t,
    decreases edges.len(),
{
    if edges.len() > 0 {
        let head = edges.drop_last();
        let last = edges.last();
        let rest = begun_by(head, t);
        lemma_begun_by(head, t);
        assert forall|x: EdgeView| #[trigger]
            begun_by(edges, t).contains(x) <==> edges.contains(x) && begin(x) <= t by {
            let all = begun_by(edges, t);
            if all.contains(x) {
                let k = choose|k: int| 0 <= k < all.len() && all[k] == x;
                if k < rest.len() {
                    assert(rest[k] == x);
                    assert(rest.contains(x));
                    let j = choose|j: int| 0 <= j < head.len() && head[j] == x;
                    assert(edges[j] == x);
                } else {
                    assert(x == last);
                    assert(edges[edges.len() - 1] == x);
                }
            }
            if edges.contains(x) && begin(x) <= t {
                let j = choose|j: int| 0 <= j < edges.len() && edges[j] == x;
                if j < head.len() {
                    assert(head[j] == x);
                    assert(head.contains(x));
                    assert(begun_by(head, t).contains(x));
                    let k = choose|k: int| 0 <= k < rest.len() && rest[k] == x;
                    assert(all[k] == x);
                } else {
                    assert(all[all.len() - 1] == x);
                }
            }
        }
        if begin(last) <= t {
            let all = rest.push(last);
            assert forall|i: int, j: int| 0 <= i < j < all.len() implies Edge::before(
                #[trigger] all[i],
                #[trigger] all[j],
            ) by {
                if j == rest.len() {
                    assert(rest.contains(all[i]));
                    assert(head.contains(all[i]));
                    let k = choose|k: int| 0 <= k < head.len() && head[k] == all[i];
                    assert(edges[k] == all[i]);
                } else {
                    assert(all[i] == rest[i] && all[j] == rest[j]);
                }
            }
        }
    }
}

/// Whether a store lists an event id under a timestamp of a range.
pub open spec fn listed_between(v: StoreView, from: u64, to: Option<u64>, id: Seq<char>) -> bool {
    exists|t: u64| from <= t && (to is None || t <= to->0) && #[trigger] v.ids_at(t).contains(id)
}

/// The event ids of a range are those of the entries whose timestamp lies
/// in the range.
pub proof fn lemma_ids_between(
    entries: Seq<(u64, Seq<Seq<char>>)>,
    from: u64,
    to: Option<u64>,
    id: Seq<char>,
)
    ensures
        ids_between(entries, from, to).contains(id) <==> exists|i: int|
            0 <= i < entries.len() && from <= (#[trigger] entries[i]).0 && (to is None
                || entries[i].0 <= to->0) && entries[i].1.contains(id),
    decreases entries.len(),
{
    if entries.len() > 0 {
        let head = entries.drop_last();
        let last = entries.last();
        let rest = ids_between(head, from, to);
        let all = ids_between(entries, from, to);
        let inside = from <= last.0 && (to is None || last.0 <= to->0);
        lemma_ids_between(head, from, to, id);
        if all.contains(id) {
            let k = choose|k: int| 0 <= k < all.len() && all[k] == id;
            if k < rest.len() {
                assert(rest[k] == id);
                assert(rest.contains(id));
                let i = choose|i: int|
                    0 <= i < head.len() && from <= (#[trigger] head[i]).0 && (to is None
                        || head[i].0 <= to->0) && head[i].1.contains(id);
                assert(entries[i] == head[i]);
            } else {
                assert(inside);
                assert(last.1[k - rest.len()] == id);
                assert(entries[entries.len() - 1] == last);
            }
        }
        if exists|i: int|
            0 <= i < entries.len() && from <= (#[trigger] entries[i]).0 && (to is None
                || entries[i].0 <= to->0) && entries[i].1.contains(id) {
            let i = choose|i: int|
                0 <= i < entries.len() && from <= (#[trigger] entries[i]).0 && (to is None
                    || entries[i].0 <= to->0) && entries[i].1.contains(id);
            if i < head.len() {
                assert(head[i] == entries[i]);
                assert(rest.contains(id));
                let k = choose|k: int| 0 <= k < rest.len() && rest[k] == id;
                assert(all[k] == id);
            } else {
                let j = choose|j: int| 0 <= j < last.1.len() && last.1[j] == id;
                assert(all[rest.len() + j] == id);
            }
        }
    }
}

fn index_edge_by_node(e: &Edge) -> (r: bool)
    ensures
        r == in_node_index(e@),
{
    !same(&e.src.node_class, &NodeClass::Object) && !same(&e.trg.node_class, &NodeClass::Object)
}

fn index_edge_by_keys(e: &Edge) -> (r: Vec<String>)
    ensures
        r.deep_view() == node_keys(e@),
{
    let mut keys: Vec<String> = Vec::new();
    assert(keys.deep_view() =~= Seq::<Seq<char>>::empty());
    if same(&e.src.node_class, &NodeClass::Material) {
        match &e.src.instance_node_name {
            Some(name) => {
                keys.push(name.dup());
                assert(keys.deep_view() =~= seq![e@.src.instance_node_name->0]);
            },
            None => {},
        }
    }
    let ghost first = keys.deep_view();
    if same(&e.trg.node_class, &NodeClass::Material) {
        match &e.trg.instance_node_name {
            Some(name) => {
                keys.push(name.dup());
                assert(keys.deep_view() =~= first + seq![e@.trg.instance_node_name->0]);
            },
            None => {},
        }
    }
    assert(keys.deep_view() =~= node_keys(e@));
    keys
}

fn begin_of(e: &Edge) -> (r: u64)
    ensures
        r == begin(e@),
{
    match e.from_timestamp {
        Some(f) => f,
        None => 0,
    }
}

fn width_of(level: usize) -> (r: u64)
    ensures
        r == level_width(level as int),
        r > 0,
{
    if level == 0 {
        10
    } else if level == 1 {
        100
    } else if level == 2 {
        1000
    } else {
        u64::MAX / 2
    }
}

impl Store {
    /// The level of the grid for a closed edge, with the width of its bins.
    fn find_edge_index_and_level(&self, e: &Edge) -> (r: (usize, u64))
        ensures
            r.0 == level_of(duration(e@)),
            r.1 == level_width(r.0 as int),
            r.0 < 4,
            r.1 > 0,
    {
        let from = begin_of(e);
        let d: u64 = match e.to_timestamp {
            Some(to) => if to >= from {
                to - from
            } else {
                0
            },
            None => 0,
        };
        let mut level: usize = 0;
        while level < 3 && 2 * width_of(level) < d
            invariant
                level <= 3,
                forall|l: int| 0 <= l < level ==> 2 * level_width(l) < d,
            decreases 3 - level,
        {
            level = level + 1;
        }
        (level, width_of(level))
    }

    fn add_edge_to_bin(&mut self, edge: Edge, level: usize, bin: u64)
        requires
            level < 4,
        ensures
            forall|l: int, b: u64|
                0 <= l < 4 ==> #[trigger] final(self)@.bin(l, b) == (if l == level && b == bin {
                    old(self)@.bin(l, b).insert(edge@)
                } else {
                    old(self)@.bin(l, b)
                }),
            final(self)@ == (StoreView { edge_grid: final(self)@.edge_grid, ..old(self)@ }),
    {
        if level == 0 {
            add_to_set_at(&mut self.grid0, bin, edge);
        } else if level == 1 {
            add_to_set_at(&mut self.grid1, bin, edge);
        } else if level == 2 {
            add_to_set_at(&mut self.grid2, bin, edge);
        } else {
            add_to_set_at(&mut self.grid3, bin, edge);
        }
    }

    fn delete_edge_from_bin(&mut self, e: &Edge, level: usize, bin: &u64)
        requires
            level < 4,
        ensures
            forall|l: int, b: u64|
                0 <= l < 4 ==> #[trigger] final(self)@.bin(l, b) == (if l == level && b == *bin {
                    old(self)@.bin(l, b).remove(e@)
                } else {
                    old(self)@.bin(l, b)
                }),
            final(self)@ == (StoreView { edge_grid: final(self)@.edge_grid, ..old(self)@ }),
    {
        if level == 0 {
            remove_from_set_at(&mut self.grid0, bin, e);
        } else if level == 1 {
            remove_from_set_at(&mut self.grid1, bin, e);
        } else if level == 2 {
            remove_from_set_at(&mut self.grid2, bin, e);
        } else {
            remove_from_set_at(&mut self.grid3, bin, e);
        }
    }

    fn add_node_indexed_edge(&mut self, edge: Edge)
        ensures
            forall|name: Seq<char>| #[trigger]
                final(self)@.edges_of_node(name) == (if node_keys(edge@).contains(name) {
                    old(self)@.edges_of_node(name).insert(edge@)
                } else {
                    old(self)@.edges_of_node(name)
                }),
            final(self)@ == (StoreView { edges_by_node: final(self)@.edges_by_node, ..old(self)@ }),
    {
        let keys = index_edge_by_keys(&edge);
        let ghost kv = keys.deep_view();
        let mut i: usize = 0;
        while i < keys.len()
            invariant
                i <= keys.len(),
                kv == keys.deep_view(),
                forall|name: Seq<char>| #[trigger]
                    self@.edges_of_node(name) == (if kv.take(i as int).contains(name) {
                        old(self)@.edges_of_node(name).insert(edge@)
                    } else {
                        old(self)@.edges_of_node(name)
                    }),
                self@ == (StoreView { edges_by_node: self@.edges_by_node, ..old(self)@ }),
            decreases keys.len() - i,
        {
            let ghost before = self@;
            add_to_set_at(&mut self.edges_by_node, keys[i].dup(), edge.dup());
            proof {
                let cur = kv.take(i + 1);
                assert(cur =~= kv.take(i as int).push(kv[i as int]));
                assert forall|name: Seq<char>| #[trigger]
                    self@.edges_of_node(name) == (if cur.contains(name) {
                        old(self)@.edges_of_node(name).insert(edge@)
                    } else {
                        old(self)@.edges_of_node(name)
                    }) by {
                    crate::ordered::lemma_insert_contains(
                        kv.take(i as int),
                        i as int,
                        kv[i as int],
                        name,
                    );
                    assert(kv.take(i as int).insert(i as int, kv[i as int]) =~= cur);
                    assert(before.edges_of_node(name) == (if kv.take(i as int).contains(name) {
                        old(self)@.edges_of_node(name).insert(edge@)
                    } else {
                        old(self)@.edges_of_node(name)
                    }));
                    if name == kv[i as int] && kv.take(i as int).contains(name) {
                        assert(before.edges_of_node(name).insert(edge@) =~= before.edges_of_node(
                            name,
                        ));
                    }
                }
            }
            i = i + 1;
        }
        assert(kv.take(i as int) =~= kv);
    }

    /// Takes an edge out of the index by node name.
    pub fn delete_node_indexed_edge(&mut self, e: &Edge)
        ensures
            forall|name: Seq<char>| #[trigger]
                final(self)@.edges_of_node(name) == (if node_keys(e@).contains(name) {
                    old(self)@.edges_of_node(name).remove(e@)
                } else {
                    old(self)@.edges_of_node(name)
                }),
            final(self)@ == (StoreView { edges_by_node: final(self)@.edges_by_node, ..old(self)@ }),
    {
        let keys = index_edge_by_keys(e);
        let ghost kv = keys.deep_view();
        let mut i: usize = 0;
        while i < keys.len()
            invariant
                i <= keys.len(),
                kv == keys.deep_view(),
                forall|name: Seq<char>| #[trigger]
                    self@.edges_of_node(name) == (if kv.take(i as int).contains(name) {
                        old(self)@.edges_of_node(name).remove(e@)
                    } else {
                        old(self)@.edges_of_node(name)
                    }),
                self@ == (StoreView { edges_by_node: self@.edges_by_node, ..old(self)@ }),
            decreases keys.len() - i,
        {
            let ghost before = self@;
            remove_from_set_at(&mut self.edges_by_node, &keys[i], e);
            proof {
                let cur = kv.take(i + 1);
                assert(cur =~= kv.take(i as int).push(kv[i as int]));
                assert forall|name: Seq<char>| #[trigger]
                    self@.edges_of_node(name) == (if cur.contains(name) {
                        old(self)@.edges_of_node(name).remove(e@)
                    } else {
                        old(self)@.edges_of_node(name)
                    }) by {
                    crate::ordered::lemma_insert_contains(
                        kv.take(i as int),
                        i as int,
                        kv[i as int],
                        name,
                    );
                    assert(kv.take(i as int).insert(i as int, kv[i as int]) =~= cur);
                    assert(before.edges_of_node(name) == (if kv.take(i as int).contains(name) {
                        old(self)@.edges_of_node(name).remove(e@)
                    } else {
                        old(self)@.edges_of_node(name)
                    }));
                    if name == kv[i as int] && kv.take(i as int).contains(name) {
                        assert(before.edges_of_node(name).remove(e@) =~= before.edges_of_node(
                            name,
                        ));
                    }
                }
            }
            i = i + 1;
        }
        assert(kv.take(i as int) =~= kv);
    }

    /// Puts an edge into the index that is meant for it: the index by node
    /// name where neither end is an object; else the set of open edges where
    /// it is open; else the two bins of the interval grid.
    pub fn add_edge(&mut self, e: Edge)
        ensures
            final(self)@.open() == (if !in_node_index(e@) && e@.to_timestamp is None {
                old(self)@.open().insert(e@)
            } else {
                old(self)@.open()
            }),
            forall|name: Seq<char>| #[trigger]
                final(self)@.edges_of_node(name) == (if in_node_index(e@) && node_keys(
                    e@,
                ).contains(name) {
                    old(self)@.edges_of_node(name).insert(e@)
                } else {
                    old(self)@.edges_of_node(name)
                }),
            forall|l: int, b: u64|
                0 <= l < 4 ==> #[trigger] final(self)@.bin(l, b) == (if !in_node_index(e@)
                    && is_bin_of(e@, l, b) {
                    old(self)@.bin(l, b).insert(e@)
                } else {
                    old(self)@.bin(l, b)
                }),
            final(self)@ == (StoreView {
                edges_by_node: final(self)@.edges_by_node,
                open_edges: final(self)@.open_edges,
                edge_grid: final(self)@.edge_grid,
                ..old(self)@
            }),
    {
        if index_edge_by_node(&e) {
            self.add_node_indexed_edge(e);
        } else if e.to_timestamp.is_none() {
            self.open_edges.insert(e);
        } else {
            let (index, level) = self.find_edge_index_and_level(&e);
            let from_bin = begin_of(&e) / level;
            let to_bin = e.to_timestamp.unwrap() / level;
            let ghost ev = e@;
            let ghost start = self@;
            self.add_edge_to_bin(e.dup(), index, from_bin);
            if to_bin != from_bin {
                self.add_edge_to_bin(e, index, to_bin);
            }
            proof {
                assert forall|l: int, b: u64| 0 <= l < 4 implies #[trigger] self@.bin(l, b) == (
                if is_bin_of(ev, l, b) {
                    start.bin(l, b).insert(ev)
                } else {
                    start.bin(l, b)
                }) by {}
            }
        }
    }

    /// Takes an edge out of the indexes.
    pub fn delete_edge(&mut self, e: &Edge)
        ensures
            final(self)@.open() == (if e@.to_timestamp is None {
                old(self)@.open().remove(e@)
            } else {
                old(self)@.open()
            }),
            forall|name: Seq<char>| #[trigger]
                final(self)@.edges_of_node(name) == (if in_node_index(e@) && node_keys(
                    e@,
                ).contains(name) {
                    old(self)@.edges_of_node(name).remove(e@)
                } else {
                    old(self)@.edges_of_node(name)
                }),
            forall|l: int, b: u64|
                0 <= l < 4 ==> #[trigger] final(self)@.bin(l, b) == (if is_bin_of(e@, l, b) {
                    old(self)@.bin(l, b).remove(e@)
                } else {
                    old(self)@.bin(l, b)
                }),
            final(self)@ == (StoreView {
                edges_by_node: final(self)@.edges_by_node,
                open_edges: final(self)@.open_edges,
                edge_grid: final(self)@.edge_grid,
                ..old(self)@
            }),
    {
        if index_edge_by_node(e) {
            self.delete_node_indexed_edge(e);
        }
        let ghost mid = self@;
        assert forall|name: Seq<char>| #[trigger]
            mid.edges_of_node(name) == (if in_node_index(e@) && node_keys(e@).contains(name) {
                old(self)@.edges_of_node(name).remove(e@)
            } else {
                old(self)@.edges_of_node(name)
            }) by {}
        if e.to_timestamp.is_none() {
            self.open_edges.remove(e);
            assert(self@.edges_by_node == mid.edges_by_node);
        } else {
            let (index, level) = self.find_edge_index_and_level(e);
            let from_bin = begin_of(e) / level;
            let to_bin = e.to_timestamp.unwrap() / level;
            let ghost start = self@;
            self.delete_edge_from_bin(e, index, &from_bin);
            if to_bin != from_bin {
                self.delete_edge_from_bin(e, index, &to_bin);
            }
            proof {
                assert forall|l: int, b: u64| 0 <= l < 4 implies #[trigger] self@.bin(l, b) == (
                if is_bin_of(e@, l, b) {
                    start.bin(l, b).remove(e@)
                } else {
                    start.bin(l, b)
                }) by {}
                assert(self@.edges_by_node == mid.edges_by_node);
            }
        }
        assert forall|name: Seq<char>| #[trigger]
            self@.edges_of_node(name) == (if in_node_index(e@) && node_keys(e@).contains(name) {
                old(self)@.edges_of_node(name).remove(e@)
            } else {
                old(self)@.edges_of_node(name)
            }) by {
            assert(self@.edges_of_node(name) == mid.edges_of_node(name));
        }
    }

    /// The open edges that have begun by a timestamp.
    pub fn get_open_edges_at_timestamp(&self, timestamp: u64) -> (r: Vec<Edge>)
        ensures
            r.deep_view() == begun_by(self@.open_edges, timestamp),
            strictly_sorted::<Edge>(r.deep_view()),
            forall|x: EdgeView| #[trigger]
                r.deep_view().contains(x) <==> self@.open().contains(x) && begin(x) <= timestamp,
    {
        let mut out: Vec<Edge> = Vec::new();
        let ghost edges = self@.open_edges;
        proof {
            self.open_edges.lemma_sorted();
            lemma_begun_by(edges, timestamp);
            assert forall|x: EdgeView| #[trigger]
                begun_by(edges, timestamp).contains(x) <==> self@.open().contains(x) && begin(x)
                    <= timestamp by {
                assert(edges.to_set().contains(x) == edges.contains(x));
            }
        }
        let mut i: usize = 0;
        assert(out.deep_view() =~= begun_by(edges.take(0), timestamp));
        while i < self.open_edges.len()
            invariant
                i <= edges.len(),
                edges == self@.open_edges,
                edges == self.open_edges@,
                out.deep_view() == begun_by(edges.take(i as int), timestamp),
            decreases edges.len() - i,
        {
            let e = self.open_edges.at(i);
            proof {
                let cur = edges.take(i + 1);
                assert(cur.drop_last() =~= edges.take(i as int));
                assert(cur.last() == edges[i as int]);
            }
            if begin_of(e) <= timestamp {
                let ghost prev = out.deep_view();
                out.push(e.dup());
                assert(out.deep_view() =~= prev.push(e@));
            }
            i = i + 1;
        }
        assert(edges.take(i as int) =~= edges);
        out
    }
}

/// A place of the edge indexes of a store.
pub enum Place {
    /// The set of open edges between objects.
    Open,
    /// The edges indexed under the name of a node.
    Node(Seq<char>),
    /// A bin of a level of the interval grid.
    Bin(int, u64),
}

impl Place {
    /// The grid has four levels.
    pub open spec fn valid(self) -> bool {
        match self {
            Place::Bin(l, _) => 0 <= l < 4,
            _ => true,
        }
    }
}

impl StoreView {
    /// Whether a place of the indexes holds an edge.
    pub open spec fn holds(self, place: Place, e: EdgeView) -> bool {
        match place {
            Place::Open => self.open().contains(e),
            Place::Node(name) => self.edges_of_node(name).contains(e),
            Place::Bin(l, b) => self.bin(l, b).contains(e),
        }
    }
}

/// Whether a place is one that an edge is put into.
pub open spec fn belongs(e: EdgeView, place: Place) -> bool {
    match place {
        Place::Open => !in_node_index(e) && e.to_timestamp is None,
        Place::Node(name) => in_node_index(e) && node_keys(e).contains(name),
        Place::Bin(l, b) => !in_node_index(e) && is_bin_of(e, l, b),
    }
}

/// Whether a place is one that an edge is taken out of.
pub open spec fn evicts(e: EdgeView, place: Place) -> bool {
    match place {
        Place::Open => e.to_timestamp is None,
        Place::Node(name) => in_node_index(e) && node_keys(e).contains(name),
        Place::Bin(l, b) => is_bin_of(e, l, b),
    }
}

/// Whether an edge is in one of the bins of the grid that a timestamp falls
/// into.
pub open spec fn in_bin_at(v: StoreView, e: EdgeView, t: u64) -> bool {
    exists|l: int| 0 <= l < 4 && #[trigger] v.bin(l, (t / level_width(l)) as u64).contains(e)
}

impl Store {
    /// Applies the difference between two lists of edges to the indexes:
    /// the edges of `updated_edges` that `existing_edges` lacks are put in,
    /// and those of `existing_edges` that `updated_edges` lacks are taken out.
    pub fn update_edges(&mut self, updated_edges: &Vec<Edge>, existing_edges: &Vec<Edge>)
        ensures
            forall|place: Place, x: EdgeView|
                place.valid() ==> #[trigger] final(self)@.holds(place, x) == ((old(self)@.holds(
                    place,
                    x,
                ) || (updated_edges.deep_view().contains(x) && !existing_edges.deep_view().contains(
                    x,
                ) && belongs(x, place))) && !(existing_edges.deep_view().contains(x)
                    && !updated_edges.deep_view().contains(x) && evicts(x, place))),
            final(self)@ == (StoreView {
                edges_by_node: final(self)@.edges_by_node,
                open_edges: final(self)@.open_edges,
                edge_grid: final(self)@.edge_grid,
                ..old(self)@
            }),
    {
        let newset = OrderedSet::from_vec(updated_edges.dup());
        let oldset = OrderedSet::from_vec(existing_edges.dup());
        let ghost nv = newset@;
        let ghost ov = oldset@;
        let ghost uv = updated_edges.deep_view();
        let ghost xv = existing_edges.deep_view();
        proof {
            assert forall|x: EdgeView| nv.contains(x) == uv.contains(x) by {
                assert(nv.to_set().contains(x) == uv.to_set().contains(x));
            }
            assert forall|x: EdgeView| ov.contains(x) == xv.contains(x) by {
                assert(ov.to_set().contains(x) == xv.to_set().contains(x));
            }
        }
        let mut i: usize = 0;
        while i < newset.len()
            invariant
                i <= nv.len(),
                nv == newset@,
                ov == oldset@,
                forall|place: Place, x: EdgeView|
                    place.valid() ==> #[trigger] self@.holds(place, x) == (old(self)@.holds(
                        place,
                        x,
                    ) || (nv.take(i as int).contains(x) && !ov.contains(x) && belongs(x, place))),
                self@ == (StoreView {
                    edges_by_node: self@.edges_by_node,
                    open_edges: self@.open_edges,
                    edge_grid: self@.edge_grid,
                    ..old(self)@
                }),
            decreases nv.len() - i,
        {
            let e = newset.at(i);
            let ghost before = self@;
            if !oldset.contains(e) {
                self.add_edge(e.dup());
            }
            proof {
                let cur = nv.take(i + 1);
                assert(cur =~= nv.take(i as int).push(nv[i as int]));
                assert forall|place: Place, x: EdgeView| place.valid() implies #[trigger] self@.holds(
                    place,
                    x,
                ) == (old(self)@.holds(place, x) || (cur.contains(x) && !ov.contains(x) && belongs(
                    x,
                    place,
                ))) by {
                    crate::ordered::lemma_insert_contains(
                        nv.take(i as int),
                        i as int,
                        nv[i as int],
                        x,
                    );
                    assert(nv.take(i as int).insert(i as int, nv[i as int]) =~= cur);
                    assert(before.holds(place, x) == (old(self)@.holds(place, x) || (nv.take(
                        i as int,
                    ).contains(x) && !ov.contains(x) && belongs(x, place))));
                    match place {
                        Place::Open => {},
                        Place::Node(name) => {
                            assert(self@.edges_of_node(name) == (if !ov.contains(e@)
                                && in_node_index(e@) && node_keys(e@).contains(name) {
                                before.edges_of_node(name).insert(e@)
                            } else {
                                before.edges_of_node(name)
                            }));
                        },
                        Place::Bin(l, b) => {
                            assert(self@.bin(l, b) == (if !ov.contains(e@) && !in_node_index(e@)
                                && is_bin_of(e@, l, b) {
                                before.bin(l, b).insert(e@)
                            } else {
                                before.bin(l, b)
                            }));
                        },
                    }
                }
            }
            i = i + 1;
        }
        assert(nv.take(i as int) =~= nv);
        let ghost mid = self@;
        let mut j: usize = 0;
        while j < oldset.len()
            invariant
                j <= ov.len(),
                nv == newset@,
                ov == oldset@,
                forall|place: Place, x: EdgeView|
                    place.valid() ==> #[trigger] self@.holds(place, x) == (mid.holds(place, x) && !(
                    ov.take(j as int).contains(x) && !nv.contains(x) && evicts(x, place))),
                self@ == (StoreView {
                    edges_by_node: self@.edges_by_node,
                    open_edges: self@.open_edges,
                    edge_grid: self@.edge_grid,
                    ..old(self)@
                }),
            decreases ov.len() - j,
        {
            let e = oldset.at(j);
            let ghost before = self@;
            if !newset.contains(e) {
                self.delete_edge(e);
            }
            proof {
                let cur = ov.take(j + 1);
                assert(cur =~= ov.take(j as int).push(ov[j as int]));
                assert forall|place: Place, x: EdgeView| place.valid() implies #[trigger] self@.holds(
                    place,
                    x,
                ) == (mid.holds(place, x) && !(cur.contains(x) && !nv.contains(x) && evicts(
                    x,
                    place,
                ))) by {
                    crate::ordered::lemma_insert_contains(
                        ov.take(j as int),
                        j as int,
                        ov[j as int],
                        x,
                    );
                    assert(ov.take(j as int).insert(j as int, ov[j as int]) =~= cur);
                    assert(before.holds(place, x) == (mid.holds(place, x) && !(ov.take(
                        j as int,
                    ).contains(x) && !nv.contains(x) && evicts(x, place))));
                    match place {
                        Place::Open => {},
                        Place::Node(name) => {
                            assert(self@.edges_of_node(name) == (if !nv.contains(e@)
                                && in_node_index(e@) && node_keys(e@).contains(name) {
                                before.edges_of_node(name).remove(e@)
                            } else {
                                before.edges_of_node(name)
                            }));
                        },
                        Place::Bin(l, b) => {
                            assert(self@.bin(l, b) == (if !nv.contains(e@) && is_bin_of(e@, l, b) {
                                before.bin(l, b).remove(e@)
                            } else {
                                before.bin(l, b)
                            }));
                        },
                    }
                }
            }
            j = j + 1;
        }
        assert(ov.take(j as int) =~= ov);
    }

    fn grid(&self, level: usize) -> (r: &OrderedMap<u64, OrderedSet<Edge>>)
        requires
            level < 4,
        ensures
            r@ == self@.edge_grid[level as int],
    {
        if level == 0 {
            &self.grid0
        } else if level == 1 {
            &self.grid1
        } else if level == 2 {
            &self.grid2
        } else {
            &self.grid3
        }
    }

    /// The closed edges that are live at a timestamp and stand in the bin
    /// of a level that the timestamp falls into, in increasing order. An
    /// edge stands only in the two bins of its level that hold its
    /// beginning and its end, so a live edge is found only where the
    /// timestamp falls into one of those two bins: an edge that spans more
    /// than its two bins is not found in between.
    pub fn get_closed_edges_at_timestamp(&self, timestamp: u64) -> (r: Vec<Edge>)
        ensures
            strictly_sorted::<Edge>(r.deep_view()),
            forall|x: EdgeView| #[trigger]
                r.deep_view().contains(x) <==> (in_bin_at(self@, x, timestamp) && live_at(
                    x,
                    timestamp,
                )),
    {
        let mut unfiltered: OrderedSet<Edge> = OrderedSet::new();
        let mut level: usize = 0;
        while level < 4
            invariant
                level <= 4,
                strictly_sorted::<Edge>(unfiltered@),
                forall|x: EdgeView|
                    unfiltered@.contains(x) <==> exists|l: int|
                        0 <= l < level && #[trigger] self@.bin(
                            l,
                            (timestamp / level_width(l)) as u64,
                        ).contains(x),
            decreases 4 - level,
        {
            let bin = timestamp / width_of(level);
            let ghost before = unfiltered@;
            match self.grid(level).get(&bin) {
                Some(edges) => {
                    unfiltered.extend(edges);
                },
                None => {},
            }
            proof {
                let here = self@.bin(level as int, bin);
                assert forall|x: EdgeView| unfiltered@.contains(x) <==> (before.contains(x)
                    || here.contains(x)) by {
                    assert(unfiltered@.to_set().contains(x) == unfiltered@.contains(x));
                    assert(before.to_set().contains(x) == before.contains(x));
                }
                assert forall|x: EdgeView|
                    unfiltered@.contains(x) <==> exists|l: int|
                        0 <= l < level + 1 && #[trigger] self@.bin(
                            l,
                            (timestamp / level_width(l)) as u64,
                        ).contains(x) by {
                    if unfiltered@.contains(x) {
                        if before.contains(x) {
                            let l = choose|l: int|
                                0 <= l < level && #[trigger] self@.bin(
                                    l,
                                    (timestamp / level_width(l)) as u64,
                                ).contains(x);
                            assert(0 <= l < level + 1);
                        } else {
                            assert(self@.bin(
                                level as int,
                                (timestamp / level_width(level as int)) as u64,
                            ).contains(x));
                        }
                    }
                    if exists|l: int|
                        0 <= l < level + 1 && #[trigger] self@.bin(
                            l,
                            (timestamp / level_width(l)) as u64,
                        ).contains(x) {
                        let l = choose|l: int|
                            0 <= l < level + 1 && #[trigger] self@.bin(
                                l,
                                (timestamp / level_width(l)) as u64,
                            ).contains(x);
                        if l < level {
                            assert(before.contains(x));
                        }
                    }
                }
            }
            level = level + 1;
        }
        let ghost uv = unfiltered@;
        let mut out: Vec<Edge> = Vec::new();
        let mut i: usize = 0;
        let ghost mut picked: Seq<int> = Seq::empty();
        while i < unfiltered.len()
            invariant
                i <= uv.len(),
                uv == unfiltered@,
                strictly_sorted::<Edge>(uv),
                picked.len() == out.deep_view().len(),
                forall|k: int|
                    0 <= k < picked.len() ==> 0 <= #[trigger] picked[k] < i && out.deep_view()[k]
                        == uv[picked[k]],
                forall|a: int, b: int| 0 <= a < b < picked.len() ==> picked[a] < picked[b],
                forall|j: int|
                    0 <= j < i && live_at(#[trigger] uv[j], timestamp) ==> out.deep_view().contains(
                        uv[j],
                    ),
                forall|k: int|
                    0 <= k < out.deep_view().len() ==> live_at(
                        #[trigger] out.deep_view()[k],
                        timestamp,
                    ),
            decreases uv.len() - i,
        {
            let e = unfiltered.at(i);
            let live = begin_of(e) <= timestamp && match e.to_timestamp {
                Some(end) => timestamp <= end,
                None => true,
            };
            if live {
                let ghost prev = out.deep_view();
                out.push(e.dup());
                proof {
                    assert(out.deep_view() =~= prev.push(e@));
                    picked = picked.push(i as int);
                    assert forall|j: int|
                        0 <= j < i + 1 && live_at(
                            #[trigger] uv[j],
                            timestamp,
                        ) implies out.deep_view().contains(uv[j]) by {
                        if j < i {
                            let k = choose|k: int| 0 <= k < prev.len() && prev[k] == uv[j];
                            assert(out.deep_view()[k] == uv[j]);
                        } else {
                            assert(out.deep_view()[prev.len() as int] == uv[j]);
                        }
                    }
                }
            }
            i = i + 1;
        }
        proof {
            let r = out.deep_view();
            assert forall|a: int, b: int| 0 <= a < b < r.len() implies Edge::before(
                #[trigger] r[a],
                #[trigger] r[b],
            ) by {
                assert(picked[a] < picked[b]);
            }
            assert forall|x: EdgeView| #[trigger]
                r.contains(x) <==> (in_bin_at(self@, x, timestamp) && live_at(x, timestamp)) by {
                if r.contains(x) {
                    let k = choose|k: int| 0 <= k < r.len() && r[k] == x;
                    assert(uv[picked[k]] == x);
                    assert(uv.contains(x));
                }
                if in_bin_at(self@, x, timestamp) && live_at(x, timestamp) {
                    assert(uv.contains(x));
                    let j = choose|j: int| 0 <= j < uv.len() && uv[j] == x;
                    assert(r.contains(uv[j]));
                }
            }
        }
        out
    }
}

/// One name leads to another where a live edge that is indexed under the
/// first has a material end of the second name, and the index knows it.
pub open spec fn hop(v: StoreView, t: u64, n: Seq<char>, k: Seq<char>) -> bool {
    has_key(v.edges_by_node, k) && exists|e: EdgeView|
        v.edges_of_node(n).contains(e) && live_at(e, t) && #[trigger] node_keys(e).contains(k)
}

/// A path of names: it begins with a start name that the index knows, and
/// each of its names leads to the next.
pub open spec fn is_path(v: StoreView, start: Seq<Seq<char>>, t: u64, path: Seq<Seq<char>>) -> bool {
    &&& path.len() > 0
    &&& start.contains(path[0])
    &&& has_key(v.edges_by_node, path[0])
    &&& forall|i: int| 0 <= i < path.len() - 1 ==> hop(v, t, #[trigger] path[i], path[i + 1])
}

/// Whether a name is reached from the start names: a path ends with it.
pub open spec fn reached(v: StoreView, start: Seq<Seq<char>>, t: u64, k: Seq<char>) -> bool {
    exists|path: Seq<Seq<char>>| #[trigger] is_path(v, start, t, path) && path.last() == k
}

/// The edges of the index by node name that are live at a timestamp and
/// indexed under a name that is reached from the start names.
pub open spec fn indexed_edges_at(v: StoreView, start: Seq<Seq<char>>, t: u64) -> Set<EdgeView> {
    Set::new(
        |e: EdgeView|
            live_at(e, t) && exists|k: Seq<char>|
                reached(v, start, t, k) && #[trigger] v.edges_of_node(k).contains(e),
    )
}

/// The number of flags that are not set.
pub open spec fn count_unset(flags: Seq<bool>) -> nat
    decreases flags.len(),
{
    if flags.len() == 0 {
        0
    } else {
        count_unset(flags.drop_last()) + (if flags.last() {
            0nat
        } else {
            1nat
        })
    }
}

pub proof fn lemma_set_flag(flags: Seq<bool>, j: int)
    requires
        0 <= j < flags.len(),
        !flags[j],
    ensures
        count_unset(flags.update(j, true)) + 1 == count_unset(flags),
    decreases flags.len(),
{
    let after = flags.update(j, true);
    if j == flags.len() - 1 {
        assert(after.drop_last() =~= flags.drop_last());
    } else {
        assert(after.drop_last() =~= flags.drop_last().update(j, true));
        lemma_set_flag(flags.drop_last(), j);
    }
}

/// Every flagged name is reached.
pub open spec fn flags_sound(v: StoreView, start: Seq<Seq<char>>, t: u64, flags: Seq<bool>) -> bool {
    &&& flags.len() == v.edges_by_node.len()
    &&& forall|i: int|
        0 <= i < flags.len() && #[trigger] flags[i] ==> reached(v, start, t, v.edges_by_node[i].0)
}

/// Every name that the first `upto` edges of a flagged name lead to is
/// flagged.
pub open spec fn spread(v: StoreView, t: u64, flags: Seq<bool>, idx: int, upto: int) -> bool {
    forall|i: int, k: Seq<char>|
        0 <= i < upto && live_at(#[trigger] v.edges_by_node[idx].1[i], t) && #[trigger] has_key(
            v.edges_by_node,
            k,
        ) && node_keys(v.edges_by_node[idx].1[i]).contains(k) ==> flags[index_of_key(
            v.edges_by_node,
            k,
        )]
}

/// The flags are closed at a position: if its name is flagged, so is every
/// name that it leads to.
pub open spec fn closed_at(v: StoreView, t: u64, flags: Seq<bool>, idx: int) -> bool {
    flags[idx] ==> spread(v, t, flags, idx, v.edges_by_node[idx].1.len() as int)
}

proof fn lemma_closed_reaches(
    v: StoreView,
    start: Seq<Seq<char>>,
    t: u64,
    flags: Seq<bool>,
    path: Seq<Seq<char>>,
)
    requires
        flags.len() == v.edges_by_node.len(),
        strictly_sorted::<String>(keys_of(v.edges_by_node)),
        forall|idx: int| 0 <= idx < flags.len() ==> closed_at(v, t, flags, idx),
        forall|s: Seq<char>|
            start.contains(s) && #[trigger] has_key(v.edges_by_node, s) ==> flags[index_of_key(
                v.edges_by_node,
                s,
            )],
        is_path(v, start, t, path),
    ensures
        has_key(v.edges_by_node, path.last()),
        flags[index_of_key(v.edges_by_node, path.last())],
    decreases path.len(),
{
    if path.len() > 1 {
        let head = path.drop_last();
        assert(head[0] == path[0]);
        assert forall|i: int| 0 <= i < head.len() - 1 implies hop(
            v,
            t,
            #[trigger] head[i],
            head[i + 1],
        ) by {
            assert(hop(v, t, path[i], path[i + 1]));
        }
        lemma_closed_reaches(v, start, t, flags, head);
        let m = path[path.len() - 2];
        let k = path.last();
        assert(head.last() == m);
        assert(hop(v, t, path[path.len() - 2], path[path.len() - 2 + 1]));
        let idx = index_of_key(v.edges_by_node, m);
        let e = choose|e: EdgeView|
            v.edges_of_node(m).contains(e) && live_at(e, t) && #[trigger] node_keys(e).contains(k);
        let edges = v.edges_by_node[idx].1;
        assert(value_of(v.edges_by_node, m) == edges);
        assert(edges.to_set().contains(e));
        assert(edges.contains(e));
        let i = choose|i: int| 0 <= i < edges.len() && edges[i] == e;
        assert(closed_at(v, t, flags, idx));
        assert(live_at(v.edges_by_node[idx].1[i], t));
    }
}

proof fn lemma_reached_step(v: StoreView, start: Seq<Seq<char>>, t: u64, m: Seq<char>, k: Seq<char>)
    requires
        reached(v, start, t, m),
        hop(v, t, m, k),
    ensures
        reached(v, start, t, k),
{
    let path = choose|path: Seq<Seq<char>>| #[trigger] is_path(v, start, t, path) && path.last() == m;
    let next = path.push(k);
    assert(next[0] == path[0]);
    assert forall|i: int| 0 <= i < next.len() - 1 implies hop(v, t, #[trigger] next[i], next[i + 1]) by {
        if i < path.len() - 1 {
            assert(hop(v, t, path[i], path[i + 1]));
        }
    }
    assert(is_path(v, start, t, next) && next.last() == k);
}

/// Whether a flagged name among the first `upto` has an edge under it.
pub open spec fn under_flagged(v: StoreView, flags: Seq<bool>, upto: int, x: EdgeView) -> bool {
    exists|i: int| 0 <= i < upto && flags[i] && (#[trigger] v.edges_by_node[i]).1.contains(x)
}

impl Store {
    /// Flags a name of the index; says whether the flags have changed.
    fn mark(&self, flags: &mut Vec<bool>, name: &String) -> (changed: bool)
        requires
            old(flags)@.len() == self@.edges_by_node.len(),
        ensures
            final(flags)@.len() == old(flags)@.len(),
            strictly_sorted::<String>(keys_of(self@.edges_by_node)),
            has_key(self@.edges_by_node, name@) ==> final(flags)@ == old(flags)@.update(
                index_of_key(self@.edges_by_node, name@),
                true,
            ),
            !has_key(self@.edges_by_node, name@) ==> final(flags)@ == old(flags)@,
            !changed ==> final(flags)@ == old(flags)@,
            changed ==> count_unset(final(flags)@) < count_unset(old(flags)@),
    {
        match self.edges_by_node.index_of(name) {
            Some(j) => {
                if !flags[j] {
                    proof {
                        lemma_set_flag(flags@, j as int);
                    }
                    flags.set(j, true);
                    true
                } else {
                    assert(flags@ =~= flags@.update(j as int, true));
                    false
                }
            },
            None => false,
        }
    }

    /// Flags the names that the live edges of a flagged name lead to; says
    /// whether the flags have changed.
    fn spread_from(
        &self,
        flags: &mut Vec<bool>,
        idx: usize,
        timestamp: u64,
        Ghost(start): Ghost<Seq<Seq<char>>>,
    ) -> (changed: bool)
        requires
            flags_sound(self@, start, timestamp, old(flags)@),
            idx < old(flags)@.len(),
            old(flags)@[idx as int],
        ensures
            flags_sound(self@, start, timestamp, final(flags)@),
            forall|i: int| 0 <= i < old(flags)@.len() && old(flags)@[i] ==> final(flags)@[i],
            !changed ==> final(flags)@ == old(flags)@,
            changed ==> count_unset(final(flags)@) < count_unset(old(flags)@),
            closed_at(self@, timestamp, final(flags)@, idx as int),
    {
        let ghost v = self@;
        let edges = self.edges_by_node.value_at(idx);
        let ghost ev = edges@;
        let ghost name = v.edges_by_node[idx as int].0;
        let mut changed = false;
        let mut i: usize = 0;
        proof {
            lemma_entry_at::<String, Seq<EdgeView>>(v.edges_by_node, idx as int);
        }
        while i < edges.len()
            invariant
                i <= ev.len(),
                v == self@,
                ev == edges@,
                ev == v.edges_by_node[idx as int].1,
                idx < flags@.len(),
                flags@[idx as int],
                name == v.edges_by_node[idx as int].0,
                value_of(v.edges_by_node, name) == ev,
                has_key(v.edges_by_node, name),
                strictly_sorted::<String>(keys_of(v.edges_by_node)),
                flags_sound(v, start, timestamp, flags@),
                flags@.len() == old(flags)@.len(),
                forall|j: int| 0 <= j < old(flags)@.len() && old(flags)@[j] ==> flags@[j],
                !changed ==> flags@ == old(flags)@,
                changed ==> count_unset(flags@) < count_unset(old(flags)@),
                spread(v, timestamp, flags@, idx as int, i as int),
            decreases ev.len() - i,
        {
            let e = edges.at(i);
            let live = begin_of(e) <= timestamp && match e.to_timestamp {
                Some(end) => timestamp <= end,
                None => true,
            };
            if live {
                let keys = index_edge_by_keys(e);
                let ghost kv = keys.deep_view();
                let mut j: usize = 0;
                while j < keys.len()
                    invariant
                        j <= keys.len(),
                        i < ev.len(),
                        v == self@,
                        kv == keys.deep_view(),
                        kv == node_keys(ev[i as int]),
                        live_at(ev[i as int], timestamp),
                        ev == v.edges_by_node[idx as int].1,
                        idx < flags@.len(),
                        flags@[idx as int],
                        name == v.edges_by_node[idx as int].0,
                        value_of(v.edges_by_node, name) == ev,
                        has_key(v.edges_by_node, name),
                        strictly_sorted::<String>(keys_of(v.edges_by_node)),
                        flags_sound(v, start, timestamp, flags@),
                        flags@.len() == old(flags)@.len(),
                        forall|x: int| 0 <= x < old(flags)@.len() && old(flags)@[x] ==> flags@[x],
                        !changed ==> flags@ == old(flags)@,
                        changed ==> count_unset(flags@) < count_unset(old(flags)@),
                        spread(v, timestamp, flags@, idx as int, i as int),
                        forall|x: int|
                            0 <= x < j && has_key(v.edges_by_node, #[trigger] kv[x])
                                ==> flags@[index_of_key(v.edges_by_node, kv[x])],
                    decreases keys.len() - j,
                {
                    let ghost before = flags@;
                    let ghost k = kv[j as int];
                    let did = self.mark(flags, &keys[j]);
                    proof {
                        if has_key(v.edges_by_node, k) {
                            let pos = index_of_key(v.edges_by_node, k);
                            assert(v.edges_by_node[pos].0 == k);
                            assert(ev.contains(ev[i as int]));
                            assert(v.edges_of_node(name).contains(ev[i as int]));
                            assert(kv.contains(k));
                            assert(hop(v, timestamp, name, k));
                            assert(reached(v, start, timestamp, name));
                            lemma_reached_step(v, start, timestamp, name, k);
                        }
                    }
                    if did {
                        changed = true;
                    }
                    j = j + 1;
                }
                proof {
                    assert forall|a: int, k: Seq<char>|
                        0 <= a < i + 1 && live_at(
                            #[trigger] v.edges_by_node[idx as int].1[a],
                            timestamp,
                        ) && #[trigger] has_key(v.edges_by_node, k) && node_keys(
                            v.edges_by_node[idx as int].1[a],
                        ).contains(k) implies flags@[index_of_key(v.edges_by_node, k)] by {
                        if a == i {
                            let x = choose|x: int| 0 <= x < kv.len() && kv[x] == k;
                            assert(has_key(v.edges_by_node, kv[x]));
                        }
                    }
                }
            }
            i = i + 1;
        }
        changed
    }

    /// The edges of the index by node name that are live at a timestamp and
    /// can be reached from the given names, in increasing order: those under
    /// one of the names, those under the names of their material ends, and so
    /// on.
    pub fn get_node_indexed_edges_at_timestamp(
        &self,
        instance_node_ids: Vec<String>,
        timestamp: u64,
    ) -> (r: Vec<Edge>)
        ensures
            strictly_sorted::<Edge>(r.deep_view()),
            r.deep_view().to_set() == indexed_edges_at(
                self@,
                instance_node_ids.deep_view(),
                timestamp,
            ),
    {
        let ghost v = self@;
        let ghost start = instance_node_ids.deep_view();
        let n = self.edges_by_node.len();
        let mut flags: Vec<bool> = Vec::new();
        let mut f: usize = 0;
        while f < n
            invariant
                f <= n,
                flags@.len() == f,
                forall|k: int| 0 <= k < f ==> !flags@[k],
            decreases n - f,
        {
            flags.push(false);
            f = f + 1;
        }
        let mut s: usize = 0;
        while s < instance_node_ids.len()
            invariant
                s <= instance_node_ids.len(),
                v == self@,
                n == v.edges_by_node.len(),
                start == instance_node_ids.deep_view(),
                flags_sound(v, start, timestamp, flags@),
                forall|x: int|
                    0 <= x < s && has_key(v.edges_by_node, #[trigger] start[x])
                        ==> flags@[index_of_key(v.edges_by_node, start[x])],
            decreases instance_node_ids.len() - s,
        {
            let ghost k = start[s as int];
            let _ = self.mark(&mut flags, &instance_node_ids[s]);
            proof {
                if has_key(v.edges_by_node, k) {
                    let pos = index_of_key(v.edges_by_node, k);
                    assert(v.edges_by_node[pos].0 == k);
                    assert(start.contains(k));
                    assert(is_path(v, start, timestamp, seq![k]) && seq![k].last() == k);
                }
            }
            s = s + 1;
        }
        let mut changed = true;
        while changed
            invariant
                v == self@,
                n == v.edges_by_node.len(),
                flags_sound(v, start, timestamp, flags@),
                forall|x: int|
                    0 <= x < start.len() && has_key(v.edges_by_node, #[trigger] start[x])
                        ==> flags@[index_of_key(v.edges_by_node, start[x])],
                !changed ==> forall|idx: int|
                    0 <= idx < flags@.len() ==> closed_at(v, timestamp, flags@, idx),
            decreases count_unset(flags@) + (if changed { 1nat } else { 0nat }),
        {
            changed = false;
            let ghost pass_start = flags@;
            let mut idx: usize = 0;
            while idx < n
                invariant
                    idx <= n,
                    v == self@,
                    n == v.edges_by_node.len(),
                    flags_sound(v, start, timestamp, flags@),
                    forall|x: int| 0 <= x < pass_start.len() && pass_start[x] ==> flags@[x],
                    pass_start.len() == flags@.len(),
                    !changed ==> flags@ == pass_start,
                    changed ==> count_unset(flags@) < count_unset(pass_start),
                    !changed ==> forall|i: int| 0 <= i < idx ==> closed_at(v, timestamp, flags@, i),
                decreases n - idx,
            {
                if flags[idx] {
                    let ghost before = flags@;
                    let did = self.spread_from(&mut flags, idx, timestamp, Ghost(start));
                    if did {
                        changed = true;
                    }
                }
                idx = idx + 1;
            }
        }
        let mut result: OrderedSet<Edge> = OrderedSet::new();
        let mut idx: usize = 0;
        while idx < n
            invariant
                idx <= n,
                v == self@,
                n == v.edges_by_node.len(),
                flags@.len() == n,
                strictly_sorted::<Edge>(result@),
                forall|x: EdgeView| #[trigger]
                    result@.contains(x) <==> (live_at(x, timestamp) && under_flagged(
                        v,
                        flags@,
                        idx as int,
                        x,
                    )),
            decreases n - idx,
        {
            let ghost base = result@;
            if flags[idx] {
                let edges = self.edges_by_node.value_at(idx);
                let ghost ev = edges@;
                let mut i: usize = 0;
                assert(ev == v.edges_by_node[idx as int].1);
                assert(ev.take(0) =~= Seq::<EdgeView>::empty());
                while i < edges.len()
                    invariant
                        i <= ev.len(),
                        ev == edges@,
                        strictly_sorted::<Edge>(result@),
                        forall|x: EdgeView| #[trigger]
                            result@.contains(x) <==> (base.contains(x) || (live_at(x, timestamp)
                                && ev.take(i as int).contains(x))),
                    decreases ev.len() - i,
                {
                    let e = edges.at(i);
                    let live = begin_of(e) <= timestamp && match e.to_timestamp {
                        Some(end) => timestamp <= end,
                        None => true,
                    };
                    let ghost prev = result@;
                    if live {
                        result.insert(e.dup());
                    }
                    proof {
                        let cur = ev.take(i + 1);
                        assert(cur =~= ev.take(i as int).push(ev[i as int]));
                        assert forall|x: EdgeView| #[trigger]
                            result@.contains(x) <==> (base.contains(x) || (live_at(x, timestamp)
                                && cur.contains(x))) by {
                            crate::ordered::lemma_insert_contains(
                                ev.take(i as int),
                                i as int,
                                ev[i as int],
                                x,
                            );
                            assert(ev.take(i as int).insert(i as int, ev[i as int]) =~= cur);
                            assert(result@.to_set().contains(x) == result@.contains(x));
                            assert(prev.to_set().contains(x) == prev.contains(x));
                            assert(prev.contains(x) <==> (base.contains(x) || (live_at(x, timestamp)
                                && ev.take(i as int).contains(x))));
                        }
                    }
                    i = i + 1;
                }
                assert(ev.take(i as int) =~= ev);
            }
            proof {
                assert forall|x: EdgeView| #[trigger]
                    result@.contains(x) <==> (live_at(x, timestamp) && under_flagged(
                        v,
                        flags@,
                        idx + 1,
                        x,
                    )) by {
                    assert(base.contains(x) <==> (live_at(x, timestamp) && under_flagged(
                        v,
                        flags@,
                        idx as int,
                        x,
                    )));
                    if under_flagged(v, flags@, idx as int, x) {
                        let i = choose|i: int|
                            0 <= i < idx && flags@[i] && (#[trigger] v.edges_by_node[i]).1.contains(
                                x,
                            );
                        assert(0 <= i < idx + 1);
                    }
                    if flags@[idx as int] && v.edges_by_node[idx as int].1.contains(x) {
                        assert(under_flagged(v, flags@, idx + 1, x));
                    }
                    if under_flagged(v, flags@, idx + 1, x) {
                        let i = choose|i: int|
                            0 <= i < idx + 1 && flags@[i] && (
                            #[trigger] v.edges_by_node[i]).1.contains(x);
                        if i < idx {
                            assert(under_flagged(v, flags@, idx as int, x));
                        }
                    }
                }
            }
            idx = idx + 1;
        }
        let out = result.to_vec();
        proof {
            use_type_invariant(&self.edges_by_node);
            let want = indexed_edges_at(v, start, timestamp);
            assert forall|x: EdgeView| out.deep_view().to_set().contains(x) == want.contains(
                x,
            ) by {
                assert(out.deep_view().to_set().contains(x) == result@.contains(x));
                if result@.contains(x) {
                    assert(under_flagged(v, flags@, n as int, x));
                    let i = choose|i: int|
                        0 <= i < n && flags@[i] && (#[trigger] v.edges_by_node[i]).1.contains(x);
                    lemma_entry_at::<String, Seq<EdgeView>>(v.edges_by_node, i);
                    let k = v.edges_by_node[i].0;
                    assert(reached(v, start, timestamp, k));
                    assert(v.edges_by_node[i].1.to_set().contains(x));
                    assert(v.edges_of_node(k).contains(x));
                }
                if want.contains(x) {
                    let k = choose|k: Seq<char>|
                        reached(v, start, timestamp, k) && #[trigger] v.edges_of_node(k).contains(
                            x,
                        );
                    let path = choose|path: Seq<Seq<char>>| #[trigger]
                        is_path(v, start, timestamp, path) && path.last() == k;
                    assert forall|s: Seq<char>|
                        start.contains(s) && #[trigger] has_key(
                            v.edges_by_node,
                            s,
                        ) implies flags@[index_of_key(v.edges_by_node, s)] by {
                        let xi = choose|xi: int| 0 <= xi < start.len() && start[xi] == s;
                        assert(has_key(v.edges_by_node, start[xi]));
                    }
                    lemma_closed_reaches(v, start, timestamp, flags@, path);
                    let i = index_of_key(v.edges_by_node, k);
                    assert(v.edges_by_node[i].1.to_set().contains(x));
                    assert(v.edges_by_node[i].1.contains(x));
                    assert(under_flagged(v, flags@, n as int, x));
                }
            }
            assert(out.deep_view().to_set() =~= want);
        }
        out
    }
}

/// The sequence that holds the members of a set in increasing order.
pub open spec fn sorted_of(s: Set<EdgeView>) -> Seq<EdgeView> {
    choose|q: Seq<EdgeView>| strictly_sorted::<Edge>(q) && q.to_set() == s
}

/// The closed edges that are live at a timestamp.
pub open spec fn closed_at_time(v: StoreView, t: u64) -> Set<EdgeView> {
    Set::new(|x: EdgeView| in_bin_at(v, x, t) && live_at(x, t))
}

/// The names of the material ends of a list of edges, in their order.
pub open spec fn material_names(edges: Seq<EdgeView>) -> Seq<Seq<char>>
    decreases edges.len(),
{
    if edges.len() == 0 {
        Seq::empty()
    } else {
        material_names(edges.drop_last()) + node_keys(edges.last())
    }
}

/// The open and the closed edges that are live at a timestamp. Closed edges
/// are looked up only up to the watermark.
pub open spec fn object_edges_at(v: StoreView, t: u64) -> Seq<EdgeView> {
    begun_by(v.open_edges, t) + (if t <= v.watermark {
        sorted_of(closed_at_time(v, t))
    } else {
        Seq::empty()
    })
}

/// Whether the store finds an edge at a timestamp: among the open edges
/// that have begun, among the closed edges that are live, where the
/// timestamp is not after the watermark, or through the index by node name
/// from the materials among those.
pub open spec fn found_at(v: StoreView, t: u64, x: EdgeView) -> bool {
    ||| v.open().contains(x) && begin(x) <= t
    ||| t <= v.watermark && closed_at_time(v, t).contains(x)
    ||| indexed_edges_at(v, material_names(object_edges_at(v, t)), t).contains(x)
}

proof fn lemma_joined_contains<A>(a: Seq<A>, b: Seq<A>, x: A)
    ensures
        (a + b).contains(x) <==> a.contains(x) || b.contains(x),
{
    let all = a + b;
    if all.contains(x) {
        let k = choose|k: int| 0 <= k < all.len() && all[k] == x;
        if k < a.len() {
            assert(a[k] == x);
        } else {
            assert(b[k - a.len()] == x);
        }
    }
    if a.contains(x) {
        let k = choose|k: int| 0 <= k < a.len() && a[k] == x;
        assert(all[k] == x);
    }
    if b.contains(x) {
        let k = choose|k: int| 0 <= k < b.len() && b[k] == x;
        assert(all[a.len() + k] == x);
    }
}

/// The edges that are live at a timestamp: the open ones, the closed ones,
/// and those that the index by node name gives from the materials among
/// them.
pub open spec fn edges_at(v: StoreView, t: u64) -> Seq<EdgeView> {
    object_edges_at(v, t) + sorted_of(indexed_edges_at(v, material_names(object_edges_at(v, t)), t))
}

/// The deltas of a package that speak of an edge shape, each with the id of
/// the package.
pub open spec fn tagged(deltas: Seq<DeltaView>, id: Seq<char>, shape: EdgeView) -> Set<
    DeltaAndDeltasIdView,
> {
    Set::new(
        |x: DeltaAndDeltasIdView|
            x.deltas_id == id && deltas.contains(x.delta) && shape_of(x.delta) == shape,
    )
}

/// The edge shapes that a list of deltas speaks of.
pub open spec fn shapes_of(deltas: Seq<DeltaView>) -> Set<EdgeView> {
    Set::new(|shape: EdgeView| exists|i: int| 0 <= i < deltas.len() && shape_of(#[trigger] deltas[i]) == shape)
}

/// The latest timestamp of a removal.
pub open spec fn latest_removal(deltas: Seq<DeltaView>) -> Option<u64>
    decreases deltas.len(),
{
    if deltas.len() == 0 {
        None
    } else {
        let rest = latest_removal(deltas.drop_last());
        let d = deltas.last();
        if d.delta_type == DeltaType::Removal && (rest is None || rest->0 < d.timestamp) {
            Some(d.timestamp)
        } else {
            rest
        }
    }
}

/// The watermark after a package has come in: the latest removal seen.
pub open spec fn raised(watermark: u64, deltas: Seq<DeltaView>) -> u64 {
    if latest_removal(deltas) is Some && latest_removal(deltas)->0 > watermark {
        latest_removal(deltas)->0
    } else {
        watermark
    }
}

/// The deltas of the packages of a list of ids, each with the id of its
/// package, in the order of the list.
pub open spec fn deltas_of_packages(
    packages: Map<Seq<char>, DeltasView>,
    ids: Seq<Seq<char>>,
) -> Seq<DeltaAndDeltasIdView>
    decreases ids.len(),
{
    if ids.len() == 0 {
        Seq::empty()
    } else {
        let rest = deltas_of_packages(packages, ids.drop_last());
        let id = ids.last();
        if packages.contains_key(id) {
            rest + Seq::new(
                packages[id].deltas.len(),
                |i: int| DeltaAndDeltasIdView { deltas_id: id, delta: packages[id].deltas[i] },
            )
        } else {
            rest
        }
    }
}

proof fn lemma_sorted_of(q: Seq<EdgeView>)
    requires
        strictly_sorted::<Edge>(q),
    ensures
        sorted_of(q.to_set()) == q,
{
    let p = sorted_of(q.to_set());
    lemma_sorted_unique::<Edge>(p, q);
}

impl Store {
    /// The edges that are live at a timestamp.
    pub fn get_edges_at_timestamp(&self, timestamp: u64) -> (r: Vec<Edge>)
        ensures
            r.deep_view() == edges_at(self@, timestamp),
            forall|x: EdgeView| #[trigger]
                r.deep_view().contains(x) <==> found_at(self@, timestamp, x),
    {
        let mut all_edges = self.get_open_edges_at_timestamp(timestamp);
        let ghost open = all_edges.deep_view();
        let ghost mut closed: Seq<EdgeView> = Seq::empty();
        if timestamp <= self.watermark {
            let mut closed_edges = self.get_closed_edges_at_timestamp(timestamp);
            proof {
                let c = closed_edges.deep_view();
                assert forall|x: EdgeView| c.to_set().contains(x) == closed_at_time(
                    self@,
                    timestamp,
                ).contains(x) by {
                    assert(c.to_set().contains(x) == c.contains(x));
                }
                assert(c.to_set() =~= closed_at_time(self@, timestamp));
                lemma_sorted_of(c);
            }
            let ghost c = closed_edges.deep_view();
            proof {
                closed = c;
            }
            all_edges.append(&mut closed_edges);
            assert(all_edges.deep_view() =~= open + c);
        } else {
            assert(all_edges.deep_view() =~= open + Seq::<EdgeView>::empty());
        }
        let ghost first = all_edges.deep_view();
        assert(first == object_edges_at(self@, timestamp));
        proof {
            assert(first =~= open + closed);
            assert forall|x: EdgeView| #[trigger]
                first.contains(x) <==> (self@.open().contains(x) && begin(x) <= timestamp) || (
                timestamp <= self@.watermark && closed_at_time(self@, timestamp).contains(x)) by {
                lemma_joined_contains(open, closed, x);
                assert(closed.to_set().contains(x) == closed.contains(x));
            }
        }
        let mut materials_identifiers: Vec<String> = Vec::new();
        let mut i: usize = 0;
        assert(materials_identifiers.deep_view() =~= material_names(first.take(0)));
        while i < all_edges.len()
            invariant
                i <= all_edges.len(),
                first == all_edges.deep_view(),
                materials_identifiers.deep_view() == material_names(first.take(i as int)),
            decreases all_edges.len() - i,
        {
            proof {
                let cur = first.take(i + 1);
                assert(cur.drop_last() =~= first.take(i as int));
                assert(cur.last() == first[i as int]);
            }
            let mut keys = index_edge_by_keys(&all_edges[i]);
            let ghost prev = materials_identifiers.deep_view();
            let ghost add = keys.deep_view();
            materials_identifiers.append(&mut keys);
            assert(materials_identifiers.deep_view() =~= prev + add);
            i = i + 1;
        }
        assert(first.take(i as int) =~= first);
        let mut materials_indexed_edges = self.get_node_indexed_edges_at_timestamp(
            materials_identifiers,
            timestamp,
        );
        proof {
            lemma_sorted_of(materials_indexed_edges.deep_view());
        }
        let ghost m = materials_indexed_edges.deep_view();
        all_edges.append(&mut materials_indexed_edges);
        assert(all_edges.deep_view() =~= first + m);
        proof {
            assert forall|x: EdgeView| #[trigger]
                (first + m).contains(x) <==> found_at(self@, timestamp, x) by {
                lemma_joined_contains(first, m, x);
                assert(m.to_set().contains(x) == m.contains(x));
            }
        }
        all_edges
    }

    fn add_deltas_to_deltas_by_deltas_id(&mut self, deltas: &Deltas)
        ensures
            final(self)@.packages() == old(self)@.packages().insert(deltas@.deltas_id, deltas@),
            final(self)@ == (StoreView {
                deltas_by_deltas_id: final(self)@.deltas_by_deltas_id,
                ..old(self)@
            }),
    {
        self.deltas_by_deltas_id.insert(deltas.deltas_id.dup(), deltas.dup());
    }

    fn update_watermark(&mut self, deltas: &Deltas)
        ensures
            final(self)@ == (StoreView {
                watermark: raised(old(self)@.watermark, deltas@.deltas),
                ..old(self)@
            }),
    {
        let ghost dv = deltas@.deltas;
        let mut latest: Option<u64> = None;
        let mut i: usize = 0;
        while i < deltas.deltas.len()
            invariant
                i <= dv.len(),
                dv == deltas.deltas@,
                latest == latest_removal(dv.take(i as int)),
            decreases dv.len() - i,
        {
            let d = deltas.deltas.at(i);
            proof {
                let cur = dv.take(i + 1);
                assert(cur.drop_last() =~= dv.take(i as int));
                assert(cur.last() == dv[i as int]);
            }
            if same(&d.delta_type, &DeltaType::Removal) {
                let later = match latest {
                    None => true,
                    Some(l) => l < d.timestamp,
                };
                if later {
                    latest = Some(d.timestamp);
                }
            }
            i = i + 1;
        }
        assert(dv.take(i as int) =~= dv);
        match latest {
            Some(candidate) => {
                if candidate > self.watermark {
                    self.watermark = candidate;
                }
            },
            None => {},
        }
    }

    /// The deltas that the store holds for each of the given edge shapes.
    pub fn get_deltas_by_edge_vec(&self, edges: Vec<&Edge>) -> (r: OrderedMap<
        Edge,
        OrderedSet<DeltaAndDeltasId>,
    >)
        ensures
            forall|shape: EdgeView| #[trigger]
                has_key(r@, shape) <==> edges.deep_view().contains(shape),
            forall|shape: EdgeView| #[trigger]
                has_key(r@, shape) ==> set_at(r@, shape) == self@.deltas_of(shape),
            strictly_sorted::<Edge>(keys_of(r@)),
    {
        let mut out: OrderedMap<Edge, OrderedSet<DeltaAndDeltasId>> = OrderedMap::new();
        let ghost ev = edges.deep_view();
        let mut i: usize = 0;
        proof {
            assert(keys_of(out@) =~= Seq::<EdgeView>::empty());
        }
        while i < edges.len()
            invariant
                i <= edges.len(),
                ev == edges.deep_view(),
                forall|shape: EdgeView| #[trigger]
                    has_key(out@, shape) <==> ev.take(i as int).contains(shape),
                forall|shape: EdgeView| #[trigger]
                    has_key(out@, shape) ==> set_at(out@, shape) == self@.deltas_of(shape),
                strictly_sorted::<Edge>(keys_of(out@)),
            decreases edges.len() - i,
        {
            let e = edges[i];
            let ghost before = out@;
            let held = match self.deltas_and_deltas_id_by_edge.get(e) {
                None => OrderedSet::new(),
                Some(ds) => ds.dup(),
            };
            assert(held@.to_set() =~= self@.deltas_of(e@));
            let ghost hv = held@;
            out.insert(e.dup(), held);
            proof {
                let cur = ev.take(i + 1);
                assert(cur =~= ev.take(i as int).push(ev[i as int]));
                assert forall|shape: EdgeView| #[trigger]
                    has_key(out@, shape) <==> cur.contains(shape) by {
                    lemma_insert_contains(ev.take(i as int), i as int, ev[i as int], shape);
                    assert(ev.take(i as int).insert(i as int, ev[i as int]) =~= cur);
                    assert(has_key(out@, shape) == as_map(out@).dom().contains(shape));
                    assert(has_key(before, shape) == as_map(before).dom().contains(shape));
                }
                assert forall|shape: EdgeView| #[trigger] has_key(out@, shape) implies set_at(
                    out@,
                    shape,
                ) == self@.deltas_of(shape) by {
                    assert(has_key(out@, shape) == as_map(out@).dom().contains(shape));
                    assert(has_key(before, shape) == as_map(before).dom().contains(shape));
                    assert(set_at(out@, shape) == as_map(out@)[shape].to_set());
                    if shape != e@ {
                        assert(as_map(out@)[shape] == as_map(before)[shape]);
                        assert(set_at(before, shape) == as_map(before)[shape].to_set());
                    } else {
                        assert(as_map(out@)[shape] == hv);
                    }
                }
            }
            i = i + 1;
        }
        assert(ev.take(i as int) =~= ev);
        out
    }

    fn add_deltas_to_deltas_by_edge_and_get_updated(&mut self, deltas: &Deltas) -> (r: OrderedMap<
        Edge,
        OrderedSet<DeltaAndDeltasId>,
    >)
        ensures
            forall|shape: EdgeView| #[trigger]
                final(self)@.deltas_of(shape) == old(self)@.deltas_of(shape).union(
                    tagged(deltas@.deltas, deltas@.deltas_id, shape),
                ),
            forall|shape: EdgeView| #[trigger]
                has_key(r@, shape) <==> shapes_of(deltas@.deltas).contains(shape),
            forall|shape: EdgeView| #[trigger]
                has_key(r@, shape) ==> set_at(r@, shape) == final(self)@.deltas_of(shape),
            strictly_sorted::<Edge>(keys_of(r@)),
            final(self)@ == (StoreView {
                deltas_by_edge: final(self)@.deltas_by_edge,
                ..old(self)@
            }),
    {
        let ghost dv = deltas@.deltas;
        let ghost id = deltas@.deltas_id;
        let mut shapes: Vec<Edge> = Vec::new();
        let mut i: usize = 0;
        proof {
            assert forall|shape: EdgeView| #[trigger]
                self@.deltas_of(shape) == old(self)@.deltas_of(shape).union(
                    tagged(dv.take(0), id, shape),
                ) by {
                assert(tagged(dv.take(0), id, shape) =~= Set::empty());
                assert(old(self)@.deltas_of(shape).union(Set::empty()) =~= old(self)@.deltas_of(
                    shape,
                ));
            }
        }
        while i < deltas.deltas.len()
            invariant
                i <= dv.len(),
                dv == deltas.deltas@,
                id == deltas.deltas_id@,
                shapes@.len() == i,
                forall|k: int| 0 <= k < i ==> (#[trigger] shapes@[k])@ == shape_of(dv[k]),
                forall|shape: EdgeView| #[trigger]
                    self@.deltas_of(shape) == old(self)@.deltas_of(shape).union(
                        tagged(dv.take(i as int), id, shape),
                    ),
                self@ == (StoreView { deltas_by_edge: self@.deltas_by_edge, ..old(self)@ }),
            decreases dv.len() - i,
        {
            let d = deltas.deltas.at(i);
            let edge = d.to_edge();
            let ghost before = self@;
            let item = DeltaAndDeltasId { delta: d.dup(), deltas_id: deltas.deltas_id.dup() };
            let ghost iv = item@;
            add_to_set_at(&mut self.deltas_and_deltas_id_by_edge, edge.dup(), item);
            proof {
                let cur = dv.take(i + 1);
                assert(cur =~= dv.take(i as int).push(dv[i as int]));
                assert forall|shape: EdgeView| #[trigger]
                    self@.deltas_of(shape) == old(self)@.deltas_of(shape).union(
                        tagged(cur, id, shape),
                    ) by {
                    assert(before.deltas_of(shape) == old(self)@.deltas_of(shape).union(
                        tagged(dv.take(i as int), id, shape),
                    ));
                    assert forall|x: DeltaAndDeltasIdView|
                        tagged(cur, id, shape).contains(x) == (tagged(
                            dv.take(i as int),
                            id,
                            shape,
                        ).contains(x) || (x == iv && shape == edge@)) by {
                        lemma_insert_contains(dv.take(i as int), i as int, dv[i as int], x.delta);
                        assert(dv.take(i as int).insert(i as int, dv[i as int]) =~= cur);
                    }
                    assert(self@.deltas_of(shape) =~= old(self)@.deltas_of(shape).union(
                        tagged(cur, id, shape),
                    ));
                }
            }
            shapes.push(edge);
            i = i + 1;
        }
        assert(dv.take(i as int) =~= dv);
        let mut refs: Vec<&Edge> = Vec::new();
        let mut k: usize = 0;
        while k < shapes.len()
            invariant
                k <= shapes.len(),
                refs@.len() == k,
                forall|j: int| 0 <= j < k ==> (#[trigger] refs@[j])@ == shapes@[j]@,
            decreases shapes.len() - k,
        {
            refs.push(&shapes[k]);
            k = k + 1;
        }
        let ghost rv = refs.deep_view();
        let out = self.get_deltas_by_edge_vec(refs);
        proof {
            assert forall|shape: EdgeView| #[trigger]
                has_key(out@, shape) <==> shapes_of(dv).contains(shape) by {
                if rv.contains(shape) {
                    let j = choose|j: int| 0 <= j < rv.len() && rv[j] == shape;
                    assert(refs@[j]@ == shapes@[j]@);
                    assert(shape_of(dv[j]) == shape);
                }
                if shapes_of(dv).contains(shape) {
                    let j = choose|j: int| 0 <= j < dv.len() && shape_of(#[trigger] dv[j]) == shape;
                    assert(shapes@[j]@ == shape_of(dv[j]));
                    assert(rv[j] == shape);
                }
            }
        }
        out
    }

    /// Takes a package of deltas in: records it by its id, raises the
    /// watermark to its latest removal, and adds its deltas to those of
    /// their edge shapes. Gives, for every edge shape that the package
    /// speaks of, the deltas that the store now holds.
    pub fn add_deltas_and_get_updated_deltas_by_edge(&mut self, deltas: &Deltas) -> (r: OrderedMap<
        Edge,
        OrderedSet<DeltaAndDeltasId>,
    >)
        ensures
            final(self)@.packages() == old(self)@.packages().insert(deltas@.deltas_id, deltas@),
            final(self)@.watermark == raised(old(self)@.watermark, deltas@.deltas),
            forall|shape: EdgeView| #[trigger]
                final(self)@.deltas_of(shape) == old(self)@.deltas_of(shape).union(
                    tagged(deltas@.deltas, deltas@.deltas_id, shape),
                ),
            forall|shape: EdgeView| #[trigger]
                has_key(r@, shape) <==> shapes_of(deltas@.deltas).contains(shape),
            forall|shape: EdgeView| #[trigger]
                has_key(r@, shape) ==> set_at(r@, shape) == final(self)@.deltas_of(shape),
            strictly_sorted::<Edge>(keys_of(r@)),
            final(self)@ == (StoreView {
                deltas_by_deltas_id: final(self)@.deltas_by_deltas_id,
                deltas_by_edge: final(self)@.deltas_by_edge,
                watermark: final(self)@.watermark,
                ..old(self)@
            }),
    {
        self.add_deltas_to_deltas_by_deltas_id(deltas);
        self.update_watermark(deltas);
        let ghost mid = self@;
        let r = self.add_deltas_to_deltas_by_edge_and_get_updated(deltas);
        proof {
            assert forall|shape: EdgeView| #[trigger]
                self@.deltas_of(shape) == old(self)@.deltas_of(shape).union(
                    tagged(deltas@.deltas, deltas@.deltas_id, shape),
                ) by {
                assert(mid.deltas_of(shape) == old(self)@.deltas_of(shape));
            }
        }
        r
    }

    /// Takes deltas out, by edge shape. Gives, for every edge shape asked
    /// for, the deltas that the store still holds.
    pub fn remove_deltas_by_edges_and_get_updated(
        &mut self,
        remove_deltas_by_edge: OrderedMap<Edge, OrderedSet<DeltaAndDeltasId>>,
    ) -> (r: OrderedMap<Edge, OrderedSet<DeltaAndDeltasId>>)
        ensures
            forall|shape: EdgeView| #[trigger]
                final(self)@.deltas_of(shape) == old(self)@.deltas_of(shape).difference(
                    set_at(remove_deltas_by_edge@, shape),
                ),
            forall|shape: EdgeView| #[trigger]
                has_key(r@, shape) <==> has_key(remove_deltas_by_edge@, shape),
            forall|shape: EdgeView| #[trigger]
                has_key(r@, shape) ==> set_at(r@, shape) == final(self)@.deltas_of(shape),
            strictly_sorted::<Edge>(keys_of(r@)),
            final(self)@ == (StoreView {
                deltas_by_edge: final(self)@.deltas_by_edge,
                ..old(self)@
            }),
    {
        let ghost rm = remove_deltas_by_edge@;
        let mut refs: Vec<&Edge> = Vec::new();
        let mut i: usize = 0;
        proof {
            use_type_invariant(&remove_deltas_by_edge);
            assert forall|shape: EdgeView| #[trigger]
                self@.deltas_of(shape) == old(self)@.deltas_of(shape).difference(
                    set_at(rm.take(0), shape),
                ) by {
                assert(!has_key(rm.take(0), shape));
                assert(old(self)@.deltas_of(shape).difference(Set::empty()) =~= old(
                    self,
                )@.deltas_of(shape));
            }
        }
        while i < remove_deltas_by_edge.len()
            invariant
                i <= rm.len(),
                rm == remove_deltas_by_edge@,
                strictly_sorted::<Edge>(keys_of(rm)),
                refs@.len() == i,
                forall|j: int| 0 <= j < i ==> (#[trigger] refs@[j])@ == rm[j].0,
                forall|shape: EdgeView| #[trigger]
                    self@.deltas_of(shape) == old(self)@.deltas_of(shape).difference(
                        set_at(rm.take(i as int), shape),
                    ),
                self@ == (StoreView { deltas_by_edge: self@.deltas_by_edge, ..old(self)@ }),
            decreases rm.len() - i,
        {
            let e = remove_deltas_by_edge.key_at(i);
            let remove = remove_deltas_by_edge.value_at(i);
            let ghost rv = remove@;
            let ghost start = self@;
            let mut j: usize = 0;
            proof {
                assert forall|shape: EdgeView| #[trigger]
                    self@.deltas_of(shape) == (if shape == e@ {
                        start.deltas_of(shape).difference(rv.take(0).to_set())
                    } else {
                        start.deltas_of(shape)
                    }) by {
                    assert(rv.take(0).to_set() =~= Set::empty());
                    assert(start.deltas_of(shape).difference(Set::empty()) =~= start.deltas_of(
                        shape,
                    ));
                }
            }
            while j < remove.len()
                invariant
                    j <= rv.len(),
                    rv == remove@,
                    forall|shape: EdgeView| #[trigger]
                        self@.deltas_of(shape) == (if shape == e@ {
                            start.deltas_of(shape).difference(rv.take(j as int).to_set())
                        } else {
                            start.deltas_of(shape)
                        }),
                    self@ == (StoreView { deltas_by_edge: self@.deltas_by_edge, ..old(self)@ }),
                decreases rv.len() - j,
            {
                let ghost before = self@;
                remove_from_set_at(&mut self.deltas_and_deltas_id_by_edge, e, remove.at(j));
                proof {
                    let cur = rv.take(j + 1);
                    assert(cur =~= rv.take(j as int).push(rv[j as int]));
                    assert forall|shape: EdgeView| #[trigger]
                        self@.deltas_of(shape) == (if shape == e@ {
                            start.deltas_of(shape).difference(cur.to_set())
                        } else {
                            start.deltas_of(shape)
                        }) by {
                        assert(before.deltas_of(shape) == (if shape == e@ {
                            start.deltas_of(shape).difference(rv.take(j as int).to_set())
                        } else {
                            start.deltas_of(shape)
                        }));
                        if shape == e@ {
                            assert forall|x: DeltaAndDeltasIdView|
                                cur.to_set().contains(x) == (rv.take(j as int).to_set().contains(
                                    x,
                                ) || x == rv[j as int]) by {
                                lemma_insert_contains(rv.take(j as int), j as int, rv[j as int], x);
                                assert(rv.take(j as int).insert(j as int, rv[j as int]) =~= cur);
                            }
                            assert(self@.deltas_of(shape) =~= start.deltas_of(shape).difference(
                                cur.to_set(),
                            ));
                        }
                    }
                }
                j = j + 1;
            }
            proof {
                assert(rv.take(j as int) =~= rv);
                lemma_entry_at::<Edge, Seq<DeltaAndDeltasIdView>>(rm, i as int);
                let cur = rm.take(i + 1);
                assert forall|shape: EdgeView| #[trigger]
                    self@.deltas_of(shape) == old(self)@.deltas_of(shape).difference(
                        set_at(cur, shape),
                    ) by {
                    assert(start.deltas_of(shape) == old(self)@.deltas_of(shape).difference(
                        set_at(rm.take(i as int), shape),
                    ));
                    lemma_take_set_at(rm, i as int, shape);
                    assert(self@.deltas_of(shape) =~= old(self)@.deltas_of(shape).difference(
                        set_at(cur, shape),
                    ));
                }
            }
            refs.push(e);
            i = i + 1;
        }
        assert(rm.take(i as int) =~= rm);
        let ghost fv = refs.deep_view();
        let out = self.get_deltas_by_edge_vec(refs);
        proof {
            assert forall|shape: EdgeView| #[trigger]
                has_key(out@, shape) <==> has_key(rm, shape) by {
                if fv.contains(shape) {
                    let j = choose|j: int| 0 <= j < fv.len() && fv[j] == shape;
                    assert(refs@[j]@ == rm[j].0);
                }
                if has_key(rm, shape) {
                    let j = index_of_key(rm, shape);
                    assert(refs@[j]@ == rm[j].0);
                    assert(fv[j] == shape);
                }
            }
        }
        out
    }

    /// The deltas of the packages of a list of ids that the store holds,
    /// each with the id of its package.
    pub fn get_deltas_by_deltas_ids(&self, deltas_ids: &Vec<String>) -> (r: Vec<DeltaAndDeltasId>)
        ensures
            r.deep_view() == deltas_of_packages(self@.packages(), deltas_ids.deep_view()),
    {
        let mut out: Vec<DeltaAndDeltasId> = Vec::new();
        let ghost ids = deltas_ids.deep_view();
        let ghost packages = self@.packages();
        let mut i: usize = 0;
        assert(out.deep_view() =~= deltas_of_packages(packages, ids.take(0)));
        while i < deltas_ids.len()
            invariant
                i <= deltas_ids.len(),
                ids == deltas_ids.deep_view(),
                packages == self@.packages(),
                out.deep_view() == deltas_of_packages(packages, ids.take(i as int)),
            decreases deltas_ids.len() - i,
        {
            let deltas_id = &deltas_ids[i];
            proof {
                let cur = ids.take(i + 1);
                assert(cur.drop_last() =~= ids.take(i as int));
                assert(cur.last() == ids[i as int]);
            }
            match self.deltas_by_deltas_id.get(deltas_id) {
                Some(deltas) => {
                    let ghost base = out.deep_view();
                    let ghost dv = deltas@.deltas;
                    let ghost id = deltas_id@;
                    assert(packages[id] == deltas@);
                    let mut j: usize = 0;
                    while j < deltas.deltas.len()
                        invariant
                            j <= dv.len(),
                            dv == deltas.deltas@,
                            id == deltas_id@,
                            out.deep_view() == base + Seq::new(
                                j as nat,
                                |k: int| DeltaAndDeltasIdView { deltas_id: id, delta: dv[k] },
                            ),
                        decreases dv.len() - j,
                    {
                        let ghost prev = out.deep_view();
                        out.push(
                            DeltaAndDeltasId {
                                delta: deltas.deltas.at(j).dup(),
                                deltas_id: deltas_id.dup(),
                            },
                        );
                        proof {
                            assert(out.deep_view() =~= prev.push(
                                DeltaAndDeltasIdView { deltas_id: id, delta: dv[j as int] },
                            ));
                            assert(out.deep_view() =~= base + Seq::new(
                                (j + 1) as nat,
                                |k: int| DeltaAndDeltasIdView { deltas_id: id, delta: dv[k] },
                            ));
                        }
                        j = j + 1;
                    }
                },
                None => {},
            }
            i = i + 1;
        }
        assert(ids.take(i as int) =~= ids);
        out
    }

    /// Forgets the packages of a list of ids.
    pub fn drop_deltas_ids(&mut self, update_ids: &Vec<String>)
        ensures
            final(self)@.packages() == old(self)@.packages().remove_keys(
                update_ids.deep_view().to_set(),
            ),
            final(self)@ == (StoreView {
                deltas_by_deltas_id: final(self)@.deltas_by_deltas_id,
                ..old(self)@
            }),
    {
        let ghost ids = update_ids.deep_view();
        let mut i: usize = 0;
        proof {
            assert(ids.take(0).to_set() =~= Set::<Seq<char>>::empty());
            assert(self@.packages().remove_keys(Set::<Seq<char>>::empty()) =~= self@.packages());
        }
        while i < update_ids.len()
            invariant
                i <= update_ids.len(),
                ids == update_ids.deep_view(),
                self@.packages() == old(self)@.packages().remove_keys(
                    ids.take(i as int).to_set(),
                ),
                self@ == (StoreView {
                    deltas_by_deltas_id: self@.deltas_by_deltas_id,
                    ..old(self)@
                }),
            decreases update_ids.len() - i,
        {
            let _ = self.deltas_by_deltas_id.remove(&update_ids[i]);
            proof {
                let cur = ids.take(i + 1);
                assert(cur =~= ids.take(i as int).push(ids[i as int]));
                assert forall|x: Seq<char>| cur.to_set().contains(x) == (ids.take(
                    i as int,
                ).to_set().contains(x) || x == ids[i as int]) by {
                    lemma_insert_contains(ids.take(i as int), i as int, ids[i as int], x);
                    assert(ids.take(i as int).insert(i as int, ids[i as int]) =~= cur);
                }
                assert(self@.packages() =~= old(self)@.packages().remove_keys(cur.to_set()));
            }
            i = i + 1;
        }
        assert(ids.take(i as int) =~= ids);
    }

    /// Takes the packages of a list of ids out and gives their deltas.
    pub fn pop_deltas_by_deltas_ids(&mut self, deltas_ids: &Vec<String>) -> (r: Vec<
        DeltaAndDeltasId,
    >)
        ensures
            r.deep_view() == deltas_of_packages(old(self)@.packages(), deltas_ids.deep_view()),
            final(self)@.packages() == old(self)@.packages().remove_keys(
                deltas_ids.deep_view().to_set(),
            ),
            final(self)@ == (StoreView {
                deltas_by_deltas_id: final(self)@.deltas_by_deltas_id,
                ..old(self)@
            }),
    {
        let deltas = self.get_deltas_by_deltas_ids(deltas_ids);
        self.drop_deltas_ids(deltas_ids);
        deltas
    }
}

/// What the first entries and the next one give a key.
proof fn lemma_take_set_at(s: Seq<(EdgeView, Seq<DeltaAndDeltasIdView>)>, i: int, shape: EdgeView)
    requires
        strictly_sorted::<Edge>(keys_of(s)),
        0 <= i < s.len(),
    ensures
        set_at(s.take(i + 1), shape) == (if shape == s[i].0 {
            s[i].1.to_set()
        } else {
            set_at(s.take(i), shape)
        }),
        shape == s[i].0 ==> set_at(s.take(i), shape) == Set::<DeltaAndDeltasIdView>::empty(),
{
    let head = s.take(i);
    let cur = s.take(i + 1);
    assert(strictly_sorted::<Edge>(keys_of(cur))) by {
        assert forall|a: int, b: int| 0 <= a < b < keys_of(cur).len() implies Edge::before(
            #[trigger] keys_of(cur)[a],
            #[trigger] keys_of(cur)[b],
        ) by {
            assert(Edge::before(keys_of(s)[a], keys_of(s)[b]));
        }
    }
    assert(strictly_sorted::<Edge>(keys_of(head))) by {
        assert forall|a: int, b: int| 0 <= a < b < keys_of(head).len() implies Edge::before(
            #[trigger] keys_of(head)[a],
            #[trigger] keys_of(head)[b],
        ) by {
            assert(Edge::before(keys_of(s)[a], keys_of(s)[b]));
        }
    }
    if shape == s[i].0 {
        lemma_entry_at::<Edge, Seq<DeltaAndDeltasIdView>>(cur, i);
        if has_key(head, shape) {
            let j = index_of_key(head, shape);
            assert(keys_of(s)[j] == keys_of(s)[i]);
            crate::ordered::lemma_sorted_distinct::<Edge>(keys_of(s), i, j);
        }
    } else {
        if has_key(cur, shape) {
            let j = index_of_key(cur, shape);
            assert(head[j].0 == shape);
            lemma_entry_at::<Edge, Seq<DeltaAndDeltasIdView>>(cur, j);
            lemma_entry_at::<Edge, Seq<DeltaAndDeltasIdView>>(head, j);
        }
        if has_key(head, shape) {
            let j = index_of_key(head, shape);
            assert(cur[j].0 == shape);
            lemma_entry_at::<Edge, Seq<DeltaAndDeltasIdView>>(cur, j);
            lemma_entry_at::<Edge, Seq<DeltaAndDeltasIdView>>(head, j);
        }
    }
}

} // verus!
