//! The consistency loop of a component: on every update it drives the store
//! to consistency, reprocessing the events whose edges have changed, asking
//! the application for the output of every new match, and routing what the
//! matches give.
//!
//! The loop is a state machine. Whoever runs it hands it an update, sends
//! what it hands out, and, whenever it asks for the application, calls the
//! application and hands the answer back.

use crate::codec::{enc_deltas, seahash_digest};
use crate::event::{
    Deltas, DeltasView, Event, EventView, Retractions, RetractionsView, Update, UpdateView,
};
use crate::graph::{
    all_begin, edges_from_deltas, edges_of, lemma_sorted_deltas, shape_of, sorted_deltas, Delta,
    DeltaView, Edge, EdgeView, Graph,
};
use crate::intervals::{
    find_intervals_to_reprocess, find_non_redundant_intervals, intervals_to_reprocess,
    non_redundant, ReprocessInterval,
};
use crate::order::{Sortable, Value};
use crate::ordered::{
    add_to_set_at, as_map, has_key, keys_of, set_at, strictly_sorted, value_of, OrderedMap,
    OrderedSet,
};
use crate::query::{GroupedQueryMatch, MatchEntries, Query, QueryView};
use crate::router::{
    fresh_ids, is_count_of_targets, own_retractions, peer_retractions, routed, Outbound,
    OutboundView, Route, Router, RouterView,
};
use crate::store::{
    belongs, deltas_of_packages, edges_at, event_added, evicts, ids_between, raised, shapes_of,
    tagged, DeltaAndDeltasId,
    DeltaAndDeltasIdView, Place, Store, StoreView, TopicNameAndDeltasId, TopicNameAndDeltasIdView,
};
use crate::wire::{
    create_application_request, encode_application_request, ApplicationRequest,
    ApplicationRequestView,
};
use vstd::prelude::*;

verus! {

/// The number of passes of the loop after which it gives up.
pub const MAX_ITERATIONS: u64 = 1000;


/// How much a run of the loop has processed.
#[derive(Debug, PartialEq, Eq)]
pub struct Counters {
    pub n_deltas: u64,
    pub n_events: u64,
    pub n_retractions: u64,
    pub n_reprocessing: u64,
}

/// What the counters hold.
pub struct CountersView {
    pub n_deltas: u64,
    pub n_events: u64,
    pub n_retractions: u64,
    pub n_reprocessing: u64,
}

impl DeepView for Counters {
    type V = CountersView;

    open spec fn deep_view(&self) -> CountersView {
        CountersView {
            n_deltas: self.n_deltas,
            n_events: self.n_events,
            n_retractions: self.n_retractions,
            n_reprocessing: self.n_reprocessing,
        }
    }
}

impl View for Counters {
    type V = CountersView;

    open spec fn view(&self) -> CountersView {
        self.deep_view()
    }
}

impl Value for Counters {
    fn dup(&self) -> (r: Self) {
        Counters {
            n_deltas: self.n_deltas,
            n_events: self.n_events,
            n_retractions: self.n_retractions,
            n_reprocessing: self.n_reprocessing,
        }
    }
}

impl Clone for Counters {
    fn clone(&self) -> (r: Self)
        ensures
            r@ == self@,
    {
        self.dup()
    }
}

/// What a finished run of the loop has processed, and the number of open edges that the store holds.
#[derive(Debug, PartialEq, Eq)]
pub struct Summary {
    pub counters: Counters,
    pub open_edges: usize,
}

/// What a summary holds.
pub struct SummaryView {
    pub counters: CountersView,
    pub open_edges: usize,
}

impl DeepView for Summary {
    type V = SummaryView;

    open spec fn deep_view(&self) -> SummaryView {
        SummaryView {
            counters: self.counters.deep_view(),
            open_edges: self.open_edges,
        }
    }
}

impl View for Summary {
    type V = SummaryView;

    open spec fn view(&self) -> SummaryView {
        self.deep_view()
    }
}

impl Value for Summary {
    fn dup(&self) -> (r: Self) {
        Summary {
            counters: self.counters.dup(),
            open_edges: self.open_edges,
        }
    }
}

impl Clone for Summary {
    fn clone(&self) -> (r: Self)
        ensures
            r@ == self@,
    {
        self.dup()
    }
}

/// An event that is being processed: the new matches that the application
/// is still to be asked for, what the matches of the event had given
/// before, the former matches that the event has no more, those of them
/// whose packages may have to be retracted, what the new matches have given,
/// and the updates for the component itself that have come of it.
#[derive(Debug, PartialEq, Eq)]
pub struct EventWork {
    pub event: Event,
    pub to_call: Vec<(u64, GroupedQueryMatch)>,
    pub next: usize,
    pub previous: OrderedMap<u64, Option<u64>>,
    pub gone: OrderedSet<u64>,
    pub to_retract: OrderedSet<u64>,
    pub new_outputs: OrderedMap<u64, Option<u64>>,
    pub updates: Vec<Update>,
}

/// What an event work holds.
pub struct EventWorkView {
    pub event: EventView,
    pub to_call: Seq<(u64, Seq<MatchEntries>)>,
    pub next: usize,
    pub previous: Seq<(u64, Option<u64>)>,
    pub gone: Seq<u64>,
    pub to_retract: Seq<u64>,
    pub new_outputs: Seq<(u64, Option<u64>)>,
    pub updates: Seq<UpdateView>,
}

impl DeepView for EventWork {
    type V = EventWorkView;

    open spec fn deep_view(&self) -> EventWorkView {
        EventWorkView {
            event: self.event.deep_view(),
            to_call: self.to_call.deep_view(),
            next: self.next,
            previous: self.previous.deep_view(),
            gone: self.gone.deep_view(),
            to_retract: self.to_retract.deep_view(),
            new_outputs: self.new_outputs.deep_view(),
            updates: self.updates.deep_view(),
        }
    }
}

impl View for EventWork {
    type V = EventWorkView;

    open spec fn view(&self) -> EventWorkView {
        self.deep_view()
    }
}

impl Value for EventWork {
    fn dup(&self) -> (r: Self) {
        EventWork {
            event: self.event.dup(),
            to_call: self.to_call.dup(),
            next: self.next,
            previous: self.previous.dup(),
            gone: self.gone.dup(),
            to_retract: self.to_retract.dup(),
            new_outputs: self.new_outputs.dup(),
            updates: self.updates.dup(),
        }
    }
}

impl Clone for EventWork {
    fn clone(&self) -> (r: Self)
        ensures
            r@ == self@,
    {
        self.dup()
    }
}

/// The deltas of a set of deltas with their packages.
pub open spec fn deltas_in(items: Set<DeltaAndDeltasIdView>) -> Set<DeltaView> {
    Set::new(|d: DeltaView| exists|x: DeltaAndDeltasIdView| items.contains(x) && #[trigger] x.delta == d)
}

/// The edges that the deltas of a set give.
pub open spec fn edges_for(items: Set<DeltaAndDeltasIdView>) -> Seq<EdgeView> {
    edges_of(sorted_deltas(deltas_in(items)))
}

/// The deltas held for each edge shape, by shape.
pub type DeltasByEdge = Seq<(EdgeView, Seq<DeltaAndDeltasIdView>)>;

/// The intervals to reprocess after the deltas of the first `n` edge shapes
/// have changed from `existing` to `updated`, shape by shape.
pub open spec fn change_intervals(existing: DeltasByEdge, updated: DeltasByEdge, n: int) -> Seq<
    ReprocessInterval,
>
    decreases n,
{
    if n <= 0 {
        Seq::empty()
    } else {
        change_intervals(existing, updated, n - 1) + intervals_to_reprocess(
            edges_for(updated[n - 1].1.to_set()),
            edges_for(set_at(existing, updated[n - 1].0)),
        )
    }
}

/// Whether a place of the indexes holds an edge after the deltas of the
/// first `n` edge shapes have changed from `existing` to `updated`: for each
/// shape in turn, the edges that are new are put in and those that are gone
/// are taken out.
pub open spec fn held_after(
    held: bool,
    place: Place,
    x: EdgeView,
    existing: DeltasByEdge,
    updated: DeltasByEdge,
    n: int,
) -> bool
    decreases n,
{
    if n <= 0 {
        held
    } else {
        let new = edges_for(updated[n - 1].1.to_set());
        let old = edges_for(set_at(existing, updated[n - 1].0));
        (held_after(held, place, x, existing, updated, n - 1) || (new.contains(x) && !old.contains(
            x,
        ) && belongs(x, place))) && !(old.contains(x) && !new.contains(x) && evicts(x, place))
    }
}

/// The deltas of a list, by their edge shape.
pub open spec fn is_grouped_by_shape(items: Seq<DeltaAndDeltasIdView>, r: DeltasByEdge) -> bool {
    &&& strictly_sorted::<Edge>(keys_of(r))
    &&& forall|shape: EdgeView| #[trigger]
        has_key(r, shape) <==> exists|i: int|
            0 <= i < items.len() && shape_of((#[trigger] items[i]).delta) == shape
    &&& forall|shape: EdgeView, x: DeltaAndDeltasIdView| #[trigger]
        set_at(r, shape).contains(x) <==> (items.contains(x) && shape_of(x.delta) == shape)
}

/// Groups deltas by their edge shape.
pub fn get_deltas_and_deltas_id_by_edge(deltas: Vec<DeltaAndDeltasId>) -> (r: OrderedMap<
    Edge,
    OrderedSet<DeltaAndDeltasId>,
>)
    ensures
        is_grouped_by_shape(deltas.deep_view(), r@),
{
    let mut deltas_by_edge: OrderedMap<Edge, OrderedSet<DeltaAndDeltasId>> = OrderedMap::new();
    let ghost items = deltas.deep_view();
    let mut i: usize = 0;
    proof {
        assert(keys_of(deltas_by_edge@) =~= Seq::<EdgeView>::empty());
    }
    while i < deltas.len()
        invariant
            i <= deltas.len(),
            items == deltas.deep_view(),
            is_grouped_by_shape(items.take(i as int), deltas_by_edge@),
        decreases deltas.len() - i,
    {
        let d = &deltas[i];
        let edge = d.delta.to_edge();
        let ghost before = deltas_by_edge@;
        let ghost head = items.take(i as int);
        let ghost cur = items.take(i + 1);
        let ghost x = items[i as int];
        add_to_set_at(&mut deltas_by_edge, edge, d.dup());
        proof {
            assert(cur =~= head.push(x));
            assert forall|y: DeltaAndDeltasIdView| cur.contains(y) == (head.contains(y) || y == x) by {
                crate::ordered::lemma_insert_contains(head, i as int, x, y);
                assert(head.insert(i as int, x) =~= cur);
            }
            assert forall|shape: EdgeView| #[trigger]
                has_key(deltas_by_edge@, shape) <==> exists|k: int|
                    0 <= k < cur.len() && shape_of((#[trigger] cur[k]).delta) == shape by {
                assert(has_key(deltas_by_edge@, shape) == as_map(deltas_by_edge@).dom().contains(
                    shape,
                ));
                assert(has_key(before, shape) == as_map(before).dom().contains(shape));
                if has_key(before, shape) {
                    let k = choose|k: int|
                        0 <= k < head.len() && shape_of((#[trigger] head[k]).delta) == shape;
                    assert(cur[k] == head[k]);
                }
                if shape == shape_of(x.delta) {
                    assert(cur[i as int] == x);
                }
                if exists|k: int| 0 <= k < cur.len() && shape_of((#[trigger] cur[k]).delta) == shape {
                    let k = choose|k: int|
                        0 <= k < cur.len() && shape_of((#[trigger] cur[k]).delta) == shape;
                    if k < i {
                        assert(head[k] == cur[k]);
                    }
                }
            }
            assert forall|shape: EdgeView, y: DeltaAndDeltasIdView| #[trigger]
                set_at(deltas_by_edge@, shape).contains(y) <==> (cur.contains(y) && shape_of(
                    y.delta,
                ) == shape) by {
                assert(set_at(before, shape).contains(y) <==> (head.contains(y) && shape_of(
                    y.delta,
                ) == shape));
            }
        }
        i = i + 1;
    }
    assert(items.take(i as int) =~= items);
    deltas_by_edge
}

/// The deltas of a set of deltas with their packages, in increasing order.
fn deltas_of_items(items: &OrderedSet<DeltaAndDeltasId>) -> (r: Vec<Delta>)
    ensures
        r.deep_view() == sorted_deltas(deltas_in(items@.to_set())),
{
    let mut set: OrderedSet<Delta> = OrderedSet::new();
    let ghost iv = items@;
    let mut i: usize = 0;
    while i < items.len()
        invariant
            i <= iv.len(),
            iv == items@,
            strictly_sorted::<Delta>(set@),
            forall|d: DeltaView| #[trigger]
                set@.contains(d) <==> exists|k: int| 0 <= k < i && (#[trigger] iv[k]).delta == d,
        decreases iv.len() - i,
    {
        let ghost before = set@;
        set.insert(items.at(i).delta.dup());
        proof {
            assert forall|d: DeltaView| #[trigger]
                set@.contains(d) <==> exists|k: int| 0 <= k < i + 1 && (#[trigger] iv[k]).delta == d by {
                assert(set@.to_set().contains(d) == set@.contains(d));
                assert(before.to_set().contains(d) == before.contains(d));
                if before.contains(d) {
                    let k = choose|k: int| 0 <= k < i && (#[trigger] iv[k]).delta == d;
                    assert(0 <= k < i + 1);
                }
                if d == iv[i as int].delta {
                    assert(iv[i as int].delta == d);
                }
                if exists|k: int| 0 <= k < i + 1 && (#[trigger] iv[k]).delta == d {
                    let k = choose|k: int| 0 <= k < i + 1 && (#[trigger] iv[k]).delta == d;
                    if k < i {
                        assert(before.contains(d));
                    }
                }
            }
        }
        i = i + 1;
    }
    let out = set.to_vec();
    proof {
        let want = deltas_in(iv.to_set());
        assert forall|d: DeltaView| out.deep_view().to_set().contains(d) == want.contains(d) by {
            assert(out.deep_view().to_set().contains(d) == set@.contains(d));
            if set@.contains(d) {
                let k = choose|k: int| 0 <= k < iv.len() && (#[trigger] iv[k]).delta == d;
                assert(iv.to_set().contains(iv[k]));
            }
            if want.contains(d) {
                let x = choose|x: DeltaAndDeltasIdView| iv.to_set().contains(x) && #[trigger] x.delta == d;
                assert(iv.contains(x));
                let k = choose|k: int| 0 <= k < iv.len() && iv[k] == x;
                assert(iv[k].delta == d);
            }
        }
        assert(out.deep_view().to_set() =~= want);
        lemma_sorted_deltas(out.deep_view());
    }
    out
}

/// The edges that the deltas of a set give.
fn edges_of_items(items: &OrderedSet<DeltaAndDeltasId>) -> (r: Vec<Edge>)
    ensures
        r.deep_view() == edges_for(items@.to_set()),
        all_begin(r.deep_view()),
{
    let deltas = deltas_of_items(items);
    let mut refs: Vec<&Delta> = Vec::new();
    let mut i: usize = 0;
    while i < deltas.len()
        invariant
            i <= deltas.len(),
            refs@.len() == i,
            forall|k: int| 0 <= k < i ==> (#[trigger] refs@[k])@ == deltas@[k]@,
        decreases deltas.len() - i,
    {
        refs.push(&deltas[i]);
        i = i + 1;
    }
    assert(refs.deep_view() =~= deltas.deep_view());
    edges_from_deltas(&refs)
}

/// Brings the edge indexes of a store up to date after the deltas of some
/// edge shapes have changed from `existing` to `updated`, and finds the
/// intervals to reprocess.
pub fn update_edges_and_find_intervals_to_reprocess(
    store: &mut Store,
    existing_deltas_by_edge: OrderedMap<Edge, OrderedSet<DeltaAndDeltasId>>,
    updated_deltas_by_edge: OrderedMap<Edge, OrderedSet<DeltaAndDeltasId>>,
) -> (r: Vec<ReprocessInterval>)
    ensures
        r@ == change_intervals(
            existing_deltas_by_edge@,
            updated_deltas_by_edge@,
            updated_deltas_by_edge@.len() as int,
        ),
        forall|place: Place, x: EdgeView|
            place.valid() ==> #[trigger] final(store)@.holds(place, x) == held_after(
                old(store)@.holds(place, x),
                place,
                x,
                existing_deltas_by_edge@,
                updated_deltas_by_edge@,
                updated_deltas_by_edge@.len() as int,
            ),
        final(store)@ == (StoreView {
            edges_by_node: final(store)@.edges_by_node,
            open_edges: final(store)@.open_edges,
            edge_grid: final(store)@.edge_grid,
            ..old(store)@
        }),
{
    let mut all_reprocess_intervals: Vec<ReprocessInterval> = Vec::new();
    let ghost ex = existing_deltas_by_edge@;
    let ghost up = updated_deltas_by_edge@;
    let mut k: usize = 0;
    while k < updated_deltas_by_edge.len()
        invariant
            k <= up.len(),
            ex == existing_deltas_by_edge@,
            up == updated_deltas_by_edge@,
            all_reprocess_intervals@ == change_intervals(ex, up, k as int),
            forall|place: Place, x: EdgeView|
                place.valid() ==> #[trigger] store@.holds(place, x) == held_after(
                    old(store)@.holds(place, x),
                    place,
                    x,
                    ex,
                    up,
                    k as int,
                ),
            store@ == (StoreView {
                edges_by_node: store@.edges_by_node,
                open_edges: store@.open_edges,
                edge_grid: store@.edge_grid,
                ..old(store)@
            }),
        decreases up.len() - k,
    {
        let e = updated_deltas_by_edge.key_at(k);
        let updated = updated_deltas_by_edge.value_at(k);
        let remaining_edges_with_timestamp = edges_of_items(updated);
        let existing_edges_with_timestamp = match existing_deltas_by_edge.get(e) {
            Some(existing) => edges_of_items(existing),
            None => {
                let none: OrderedSet<DeltaAndDeltasId> = OrderedSet::new();
                assert(none@.to_set() =~= set_at(ex, e@));
                edges_of_items(&none)
            },
        };
        let ghost before = store@;
        store.update_edges(&remaining_edges_with_timestamp, &existing_edges_with_timestamp);
        let mut reprocess_intervals = find_intervals_to_reprocess(
            &remaining_edges_with_timestamp,
            &existing_edges_with_timestamp,
        );
        let ghost prev = all_reprocess_intervals@;
        let ghost add = reprocess_intervals@;
        all_reprocess_intervals.append(&mut reprocess_intervals);
        proof {
            assert(all_reprocess_intervals@ =~= prev + add);
            assert forall|place: Place, x: EdgeView| place.valid() implies #[trigger] store@.holds(
                place,
                x,
            ) == held_after(old(store)@.holds(place, x), place, x, ex, up, k + 1) by {
                assert(before.holds(place, x) == held_after(
                    old(store)@.holds(place, x),
                    place,
                    x,
                    ex,
                    up,
                    k as int,
                ));
            }
        }
        k = k + 1;
    }
    all_reprocess_intervals
}

/// The deltas that a store holds for each of a set of edge shapes.
pub open spec fn is_snapshot(v: StoreView, shapes: Set<EdgeView>, m: DeltasByEdge) -> bool {
    &&& strictly_sorted::<Edge>(keys_of(m))
    &&& forall|shape: EdgeView| #[trigger] has_key(m, shape) <==> shapes.contains(shape)
    &&& forall|shape: EdgeView| #[trigger] has_key(m, shape) ==> set_at(m, shape) == v.deltas_of(shape)
}

/// Whether the edge indexes of a store have been brought up to date, and the
/// intervals to reprocess found, after the deltas of a set of edge shapes
/// have changed.
pub open spec fn edges_updated(
    before: StoreView,
    changed: StoreView,
    after: StoreView,
    shapes: Set<EdgeView>,
    r: Seq<ReprocessInterval>,
) -> bool {
    exists|existing: DeltasByEdge, updated: DeltasByEdge|
        #![trigger is_snapshot(before, shapes, existing), is_snapshot(changed, shapes, updated)]
        is_snapshot(before, shapes, existing) && is_snapshot(changed, shapes, updated) && r
            == change_intervals(existing, updated, updated.len() as int) && forall|
            place: Place,
            x: EdgeView,
        |
            place.valid() ==> #[trigger] after.holds(place, x) == held_after(
                before.holds(place, x),
                place,
                x,
                existing,
                updated,
                updated.len() as int,
            )
}

/// Every delta that a store holds for an edge shape is of that shape and
/// belongs to a package that the store holds.
pub open spec fn coherent(v: StoreView) -> bool {
    forall|shape: EdgeView, x: DeltaAndDeltasIdView| #[trigger]
        v.deltas_of(shape).contains(x) ==> v.packages().contains_key(x.deltas_id)
            && v.packages()[x.deltas_id].deltas.contains(x.delta) && shape_of(x.delta) == shape
}

/// The shapes of the deltas of a list of deltas with their packages.
pub open spec fn shapes_of_items(items: Seq<DeltaAndDeltasIdView>) -> Set<EdgeView> {
    Set::new(
        |shape: EdgeView|
            exists|i: int| 0 <= i < items.len() && shape_of((#[trigger] items[i]).delta) == shape,
    )
}

/// The deltas of the packages of a list of ids are those of the packages
/// that the list names.
pub proof fn lemma_deltas_of_packages(
    packages: Map<Seq<char>, DeltasView>,
    ids: Seq<Seq<char>>,
    x: DeltaAndDeltasIdView,
)
    ensures
        deltas_of_packages(packages, ids).contains(x) <==> (ids.contains(x.deltas_id)
            && packages.contains_key(x.deltas_id) && packages[x.deltas_id].deltas.contains(x.delta)),
    decreases ids.len(),
{
    if ids.len() > 0 {
        let head = ids.drop_last();
        let id = ids.last();
        lemma_deltas_of_packages(packages, head, x);
        let rest = deltas_of_packages(packages, head);
        assert(ids =~= head.push(id));
        crate::ordered::lemma_insert_contains(head, head.len() as int, id, x.deltas_id);
        assert(head.insert(head.len() as int, id) =~= ids);
        if packages.contains_key(id) {
            let here = Seq::new(
                packages[id].deltas.len(),
                |i: int| DeltaAndDeltasIdView { deltas_id: id, delta: packages[id].deltas[i] },
            );
            let all = rest + here;
            if all.contains(x) {
                let k = choose|k: int| 0 <= k < all.len() && all[k] == x;
                if k < rest.len() {
                    assert(rest[k] == x);
                } else {
                    assert(here[k - rest.len()] == x);
                    assert(packages[id].deltas[k - rest.len()] == x.delta);
                }
            }
            if rest.contains(x) {
                let k = choose|k: int| 0 <= k < rest.len() && rest[k] == x;
                assert(all[k] == x);
            }
            if x.deltas_id == id && packages[id].deltas.contains(x.delta) {
                let k = choose|k: int| 0 <= k < packages[id].deltas.len() && packages[id].deltas[k]
                    == x.delta;
                assert(here[k] == x);
                assert(all[rest.len() + k] == x);
            }
        }
    }
}

/// Whether a store has taken a package of deltas in: the package is
/// recorded, the watermark raised, the deltas merged into the histories of
/// their edges, the edges of those histories derived anew and put in place
/// of the former ones; `r` holds the intervals that have to be reprocessed
/// for it.
pub open spec fn deltas_ingested(
    b: StoreView,
    ds: DeltasView,
    a: StoreView,
    r: Seq<ReprocessInterval>,
) -> bool {
    &&& a.packages() == b.packages().insert(ds.deltas_id, ds)
    &&& a.watermark == raised(b.watermark, ds.deltas)
    &&& forall|shape: EdgeView| #[trigger]
        a.deltas_of(shape) == b.deltas_of(shape).union(
            tagged(ds.deltas, ds.deltas_id, shape),
        )
    &&& edges_updated(
        b,
        StoreView {
            deltas_by_deltas_id: a.deltas_by_deltas_id,
            deltas_by_edge: a.deltas_by_edge,
            watermark: a.watermark,
            ..b
        },
        a,
        shapes_of(ds.deltas),
        r,
    )
    &&& a.retracted_deltas_ids == b.retracted_deltas_ids
    &&& a.event_ids_by_timestamp == b.event_ids_by_timestamp
    &&& a.events_by_event_id == b.events_by_event_id
    &&& a.match_outputs == b.match_outputs
    &&& a.bindings == b.bindings
    &&& (coherent(b) && !b.packages().contains_key(ds.deltas_id) ==> coherent(a))
}

/// Takes a package of deltas into a store: records it, adds its deltas to
/// those of their edge shapes, brings the edge indexes up to date, and finds
/// the intervals to reprocess.
pub fn process_new_deltas(store: &mut Store, deltas: &Deltas) -> (r: Vec<ReprocessInterval>)
    ensures
        deltas_ingested(old(store)@, deltas@, final(store)@, r@),
{
    let ghost dv = deltas@.deltas;
    let mut shapes: Vec<Edge> = Vec::new();
    let mut i: usize = 0;
    while i < deltas.deltas.len()
        invariant
            i <= dv.len(),
            dv == deltas.deltas@,
            shapes@.len() == i,
            forall|k: int| 0 <= k < i ==> (#[trigger] shapes@[k])@ == shape_of(dv[k]),
        decreases dv.len() - i,
    {
        shapes.push(deltas.deltas.at(i).to_edge());
        i = i + 1;
    }
    let mut refs: Vec<&Edge> = Vec::new();
    let mut k: usize = 0;
    while k < shapes.len()
        invariant
            k <= shapes.len(),
            refs@.len() == k,
            forall|j: int| 0 <= j < k ==> (#[trigger] refs@[j])@ == shapes@[j]@,
        decreases shapes.len() - k,
    {
        refs.push(&shapes[k]);
        k = k + 1;
    }
    let ghost rv = refs.deep_view();
    let existing_deltas_by_edge = store.get_deltas_by_edge_vec(refs);
    let updated_deltas_by_edge = store.add_deltas_and_get_updated_deltas_by_edge(deltas);
    let ghost changed = store@;
    let ghost ex = existing_deltas_by_edge@;
    let ghost up = updated_deltas_by_edge@;
    proof {
        assert forall|shape: EdgeView| #[trigger] has_key(ex, shape) <==> shapes_of(dv).contains(
            shape,
        ) by {
            if rv.contains(shape) {
                let j = choose|j: int| 0 <= j < rv.len() && rv[j] == shape;
                assert(refs@[j]@ == shapes@[j]@);
                assert(shape_of(dv[j]) == shape);
            }
            if shapes_of(dv).contains(shape) {
                let j = choose|j: int| 0 <= j < dv.len() && shape_of(#[trigger] dv[j]) == shape;
                assert(shapes@[j]@ == shape_of(dv[j]));
                assert(rv[j] == shape);
            }
        }
        assert(is_snapshot(old(store)@, shapes_of(dv), ex));
        assert(is_snapshot(changed, shapes_of(dv), up));
    }
    let r = update_edges_and_find_intervals_to_reprocess(
        store,
        existing_deltas_by_edge,
        updated_deltas_by_edge,
    );
    proof {
        assert forall|shape: EdgeView| #[trigger]
            store@.deltas_of(shape) == old(store)@.deltas_of(shape).union(
                tagged(deltas@.deltas, deltas@.deltas_id, shape),
            ) by {
            assert(store@.deltas_of(shape) == changed.deltas_of(shape));
        }
        if coherent(old(store)@) && !old(store)@.packages().contains_key(deltas@.deltas_id) {
            assert forall|shape: EdgeView, x: DeltaAndDeltasIdView| #[trigger]
                store@.deltas_of(shape).contains(x) implies store@.packages().contains_key(
                x.deltas_id,
            ) && store@.packages()[x.deltas_id].deltas.contains(x.delta) && shape_of(x.delta)
                == shape by {
                assert(store@.deltas_of(shape) == old(store)@.deltas_of(shape).union(
                    tagged(deltas@.deltas, deltas@.deltas_id, shape),
                ));
                if old(store)@.deltas_of(shape).contains(x) {
                    assert(old(store)@.packages().contains_key(x.deltas_id));
                }
            }
        }
    }
    r
}

/// Whether a store has taken a retraction in: the ids are remembered as
/// retracted, their packages dropped, the deltas of the packages taken out
/// of the histories of their edges, the edges of those histories derived
/// anew and put in place of the former ones; `r` holds the intervals that
/// have to be reprocessed for it.
pub open spec fn retractions_ingested(
    b: StoreView,
    rs: RetractionsView,
    a: StoreView,
    r: Seq<ReprocessInterval>,
) -> bool {
    &&& a.retracted() == b.retracted().union(rs.deltas_ids.to_set())
    &&& a.packages() == b.packages().remove_keys(rs.deltas_ids.to_set())
    &&& forall|shape: EdgeView, x: DeltaAndDeltasIdView| #[trigger]
        a.deltas_of(shape).contains(x) <==> (b.deltas_of(shape).contains(x) && !(shape_of(
            x.delta,
        ) == shape && deltas_of_packages(b.packages(), rs.deltas_ids).contains(x)))
    &&& edges_updated(
        b,
        StoreView {
            deltas_by_deltas_id: a.deltas_by_deltas_id,
            deltas_by_edge: a.deltas_by_edge,
            retracted_deltas_ids: a.retracted_deltas_ids,
            ..b
        },
        a,
        shapes_of_items(deltas_of_packages(b.packages(), rs.deltas_ids)),
        r,
    )
    &&& a.watermark == b.watermark
    &&& a.event_ids_by_timestamp == b.event_ids_by_timestamp
    &&& a.events_by_event_id == b.events_by_event_id
    &&& a.match_outputs == b.match_outputs
    &&& a.bindings == b.bindings
    &&& (coherent(b) ==> coherent(a) && forall|shape: EdgeView, x: DeltaAndDeltasIdView| #[trigger]
        a.deltas_of(shape).contains(x) ==> !rs.deltas_ids.contains(x.deltas_id))
}

/// Takes packages of deltas back: remembers their ids as retracted, forgets
/// the packages, takes their deltas out of those of their edge shapes,
/// brings the edge indexes up to date, and finds the intervals to reprocess.
/// In a coherent store no delta of a retracted package is left.
pub fn process_retractions(store: &mut Store, retractions: Retractions) -> (r: Vec<
    ReprocessInterval,
>)
    ensures
        retractions_ingested(old(store)@, retractions@, final(store)@, r@),
{
    let ghost ids = retractions@.deltas_ids;
    let ghost packages = store@.packages();
    store.add_retractions(&retractions.deltas_ids);
    let deltas_to_retract = store.pop_deltas_by_deltas_ids(&retractions.deltas_ids);
    let ghost items = deltas_to_retract.deep_view();
    let ghost mid = store@;
    let retract_deltas_by_edge = get_deltas_and_deltas_id_by_edge(deltas_to_retract);
    let ghost grouped = retract_deltas_by_edge@;
    let mut shapes: Vec<Edge> = Vec::new();
    let mut i: usize = 0;
    while i < retract_deltas_by_edge.len()
        invariant
            i <= grouped.len(),
            grouped == retract_deltas_by_edge@,
            shapes@.len() == i,
            forall|j: int| 0 <= j < i ==> (#[trigger] shapes@[j])@ == grouped[j].0,
        decreases grouped.len() - i,
    {
        shapes.push(retract_deltas_by_edge.key_at(i).dup());
        i = i + 1;
    }
    let mut refs: Vec<&Edge> = Vec::new();
    let mut k: usize = 0;
    while k < shapes.len()
        invariant
            k <= shapes.len(),
            refs@.len() == k,
            forall|j: int| 0 <= j < k ==> (#[trigger] refs@[j])@ == shapes@[j]@,
        decreases shapes.len() - k,
    {
        refs.push(&shapes[k]);
        k = k + 1;
    }
    let ghost rv = refs.deep_view();
    let existing_deltas_by_edge = store.get_deltas_by_edge_vec(refs);
    let ghost ex = existing_deltas_by_edge@;
    let updated_deltas_by_edge = store.remove_deltas_by_edges_and_get_updated(
        retract_deltas_by_edge,
    );
    let ghost changed = store@;
    let ghost up = updated_deltas_by_edge@;
    proof {
        assert forall|shape: EdgeView| #[trigger] has_key(ex, shape) <==> shapes_of_items(
            items,
        ).contains(shape) by {
            if rv.contains(shape) {
                let j = choose|j: int| 0 <= j < rv.len() && rv[j] == shape;
                assert(refs@[j]@ == shapes@[j]@);
                assert(shapes@[j]@ == grouped[j].0);
                assert(has_key(grouped, shape));
            }
            if has_key(grouped, shape) {
                let j = crate::ordered::index_of_key(grouped, shape);
                assert(refs@[j]@ == shapes@[j]@);
                assert(shapes@[j]@ == grouped[j].0);
                assert(rv[j] == shape);
            }
        }
        assert(is_snapshot(old(store)@, shapes_of_items(items), ex)) by {
            assert forall|shape: EdgeView| #[trigger] has_key(ex, shape) implies set_at(ex, shape)
                == old(store)@.deltas_of(shape) by {
                assert(mid.deltas_of(shape) == old(store)@.deltas_of(shape));
            }
        }
        assert(is_snapshot(changed, shapes_of_items(items), up)) by {
            assert forall|shape: EdgeView| #[trigger] has_key(up, shape) <==> shapes_of_items(
                items,
            ).contains(shape) by {
                assert(has_key(up, shape) <==> has_key(grouped, shape));
            }
        }
    }
    let r = update_edges_and_find_intervals_to_reprocess(
        store,
        existing_deltas_by_edge,
        updated_deltas_by_edge,
    );
    proof {
        assert forall|shape: EdgeView, x: DeltaAndDeltasIdView| #[trigger]
            store@.deltas_of(shape).contains(x) <==> (old(store)@.deltas_of(shape).contains(x) && !(
            shape_of(x.delta) == shape && items.contains(x))) by {
            assert(store@.deltas_of(shape) == changed.deltas_of(shape));
            assert(changed.deltas_of(shape) == mid.deltas_of(shape).difference(
                set_at(grouped, shape),
            ));
            assert(mid.deltas_of(shape) == old(store)@.deltas_of(shape));
            assert(set_at(grouped, shape).contains(x) <==> (items.contains(x) && shape_of(x.delta)
                == shape));
        }
        if coherent(old(store)@) {
            assert forall|shape: EdgeView, x: DeltaAndDeltasIdView| #[trigger]
                store@.deltas_of(shape).contains(x) implies !ids.contains(x.deltas_id)
                && store@.packages().contains_key(x.deltas_id)
                && store@.packages()[x.deltas_id].deltas.contains(x.delta) && shape_of(x.delta)
                == shape by {
                assert(old(store)@.deltas_of(shape).contains(x));
                lemma_deltas_of_packages(packages, ids, x);
                assert(ids.to_set().contains(x.deltas_id) == ids.contains(x.deltas_id));
            }
        }
    }
    r
}

/// A sweep over the events of the intervals to reprocess: the intervals in
/// canonical form, how many of them have been begun, the one whose events
/// are being reprocessed, the ids of its events, and how many of those have
/// been taken.
pub struct Sweep {
    intervals: Vec<ReprocessInterval>,
    next_interval: usize,
    current: ReprocessInterval,
    event_ids: Vec<String>,
    taken: usize,
}

/// What a sweep holds.
pub struct SweepView {
    pub intervals: Seq<ReprocessInterval>,
    pub next_interval: int,
    pub current: ReprocessInterval,
    pub event_ids: Seq<Seq<char>>,
    pub taken: int,
}

impl DeepView for Sweep {
    type V = SweepView;

    closed spec fn deep_view(&self) -> SweepView {
        SweepView {
            intervals: self.intervals@,
            next_interval: self.next_interval as int,
            current: self.current,
            event_ids: self.event_ids.deep_view(),
            taken: self.taken as int,
        }
    }
}

impl Sweep {
    #[verifier::type_invariant]
    spec fn well_formed(&self) -> bool {
        self.next_interval <= self.intervals@.len() && self.taken <= self.event_ids@.len()
    }
}

/// Why a run of the loop has been given up.
#[derive(Debug, PartialEq, Eq, Structural, Clone, Copy)]
pub enum Abort {
    /// The loop has made more passes than it is given.
    Runaway,
    /// A match or the pattern of the query cannot be put into a request to
    /// the application.
    Unencodable,
    /// An update was handed in while another was being processed.
    Busy,
    /// An answer of the application was handed in that was not asked for.
    NotWaiting,
}

/// What the loop asks of whoever runs it.
#[derive(Debug, PartialEq, Eq)]
pub enum Step {
    /// The application is to be called; its answer is to be handed back.
    Call(ApplicationRequest),
    /// The update has been processed to consistency.
    Done(Summary),
    /// The run has been given up.
    Aborted(Abort),
}

/// What the loop asks, as a model.
pub enum StepView {
    Call(ApplicationRequestView),
    Done(SummaryView),
    Aborted(Abort),
}

impl DeepView for Step {
    type V = StepView;

    open spec fn deep_view(&self) -> StepView {
        match self {
            Step::Call(request) => StepView::Call(request@),
            Step::Done(summary) => StepView::Done(summary.deep_view()),
            Step::Aborted(abort) => StepView::Aborted(*abort),
        }
    }
}

/// What a call of the loop hands back: the updates that are to be sent to
/// peers, and what is to be done next.
#[derive(Debug, PartialEq, Eq)]
pub struct Progress {
    pub outbound: Vec<Outbound>,
    pub step: Step,
}

/// A component: its store and its query, the router of what it emits, and
/// the state of its consistency loop.
pub struct Component {
    store: Store,
    router: Router,
    query: Query,
    pending_updates: Vec<Update>,
    reprocess_intervals: Vec<ReprocessInterval>,
    seq: u64,
    counters: Counters,
    work: Option<EventWork>,
    sweep: Option<Sweep>,
    running: bool,
}

/// What a component holds.
pub struct ComponentView {
    pub store: StoreView,
    pub router: RouterView,
    pub query: QueryView,
    pub pending_updates: Seq<UpdateView>,
    pub reprocess_intervals: Seq<ReprocessInterval>,
    pub seq: u64,
    pub counters: CountersView,
    pub work: Option<EventWorkView>,
    pub sweep: Option<SweepView>,
    pub running: bool,
}

impl ComponentView {
    /// No update is being processed.
    pub open spec fn idle(self) -> bool {
        !self.running && self.work is None && self.sweep is None && self.pending_updates.len() == 0
            && self.reprocess_intervals.len() == 0
    }

    /// The component waits for an answer of the application.
    pub open spec fn waiting(self) -> bool {
        self.running && self.work is Some && self.work->0.next < self.work->0.to_call.len()
            && self.seq <= MAX_ITERATIONS + 1
    }
}

impl View for Component {
    type V = ComponentView;

    closed spec fn view(&self) -> ComponentView {
        ComponentView {
            store: self.store@,
            router: self.router@,
            query: self.query@,
            pending_updates: self.pending_updates.deep_view(),
            reprocess_intervals: self.reprocess_intervals@,
            seq: self.seq,
            counters: self.counters@,
            work: self.work.deep_view(),
            sweep: self.sweep.deep_view(),
            running: self.running,
        }
    }
}

/// An edge without its end.
pub open spec fn without_end(e: EdgeView) -> EdgeView {
    EdgeView { to_timestamp: None, ..e }
}

/// The edges that an event of a time is matched against: those that are
/// live at the time, without their ends.
pub open spec fn match_edges(v: StoreView, t: u64) -> Seq<EdgeView> {
    Seq::new(edges_at(v, t).len(), |i: int| without_end(edges_at(v, t)[i]))
}

/// The stable hash of a grouped match.
pub open spec fn match_hash(g: Seq<MatchEntries>) -> u64 {
    seahash_digest(crate::codec::enc_grouped(g))
}

/// The grouped matches with their hashes.
pub open spec fn hashed(groups: Seq<Seq<MatchEntries>>) -> Seq<(u64, Seq<MatchEntries>)> {
    Seq::new(groups.len(), |i: int| (match_hash(groups[i]), groups[i]))
}

/// The first `n` of the matches by hash that the event has not had before.
pub open spec fn new_matches(
    by_hash: Seq<(u64, Seq<MatchEntries>)>,
    previous: Seq<(u64, Option<u64>)>,
    n: int,
) -> Seq<(u64, Seq<MatchEntries>)>
    decreases n,
{
    if n <= 0 {
        Seq::empty()
    } else if has_key(previous, by_hash[n - 1].0) {
        new_matches(by_hash, previous, n - 1)
    } else {
        new_matches(by_hash, previous, n - 1).push(by_hash[n - 1])
    }
}

/// The first `n` of the hashes of the former matches that the event has no
/// more.
pub open spec fn stale_matches(
    previous: Seq<(u64, Option<u64>)>,
    by_hash: Seq<(u64, Seq<MatchEntries>)>,
    n: int,
) -> Seq<u64>
    decreases n,
{
    if n <= 0 {
        Seq::empty()
    } else if has_key(by_hash, previous[n - 1].0) {
        stale_matches(previous, by_hash, n - 1)
    } else {
        stale_matches(previous, by_hash, n - 1).push(previous[n - 1].0)
    }
}

/// The grouped matches of a query among the edges that are live at a time.
pub open spec fn is_matching(
    q: QueryView,
    edges: Seq<EdgeView>,
    groups: Seq<Seq<MatchEntries>>,
) -> bool {
    if edges.len() == 0 {
        groups.len() == 0
    } else {
        exists|g: crate::graph::GraphView|
            g.edges == edges && #[trigger] crate::query::is_grouped(
                q,
                crate::query::all_matches(q, g),
                crate::query::groups_of(groups),
            )
    }
}

/// The work on an event as it begins: the matches of the query at the time
/// of the event, by their hash; those that the event has not had before are
/// to be asked for, and the former ones that it has no more may have to be
/// retracted.
pub open spec fn is_begun(q: QueryView, v: StoreView, e: EventView, w: EventWorkView) -> bool {
    &&& w.event == e
    &&& w.next == 0
    &&& w.updates.len() == 0
    &&& w.new_outputs.len() == 0
    &&& w.previous == (if v.outputs().contains_key(e.event_id) {
        v.outputs()[e.event_id]
    } else {
        Seq::empty()
    })
    &&& exists|groups: Seq<Seq<MatchEntries>>, by_hash: Seq<(u64, Seq<MatchEntries>)>|
        #![trigger is_matching(q, match_edges(v, e.timestamp), groups), keys_of(by_hash)]
        is_matching(q, match_edges(v, e.timestamp), groups) && strictly_sorted::<u64>(
            keys_of(by_hash),
        ) && as_map(by_hash) == crate::ordered::entries_map(hashed(groups)) && w.to_call
            == new_matches(by_hash, w.previous, by_hash.len() as int) && w.to_retract
            == stale_matches(w.previous, by_hash, w.previous.len() as int) && w.gone
            == w.to_retract
}

impl Component {
    /// A component for one of the queries, if the query is among them.
    pub fn new(
        query_name: String,
        all_queries_by_name: OrderedMap<String, Query>,
        use_central: bool,
    ) -> (r: Option<Component>)
        ensures
            r is Some <==> has_key(all_queries_by_name@, query_name@),
            r is Some ==> r->0@.idle() && r->0@.query == value_of(
                all_queries_by_name@,
                query_name@,
            ) && r->0@.router.query_name == query_name@ && r->0@.router.use_central == use_central
                && r->0@.store == StoreView::empty(),
    {
        let query = match all_queries_by_name.get(&query_name) {
            Some(q) => q.dup(),
            None => {
                return None;
            },
        };
        let router = Router::new(query_name, &all_queries_by_name, use_central);
        let store = Store::new();
        Some(
            Component {
                store,
                router,
                query,
                pending_updates: Vec::new(),
                reprocess_intervals: Vec::new(),
                seq: 0,
                counters: Counters {
                    n_deltas: 0,
                    n_events: 0,
                    n_retractions: 0,
                    n_reprocessing: 0,
                },
                work: None,
                sweep: None,
                running: false,
            },
        )
    }

    /// The store of the component.
    pub fn store(&self) -> (r: &Store)
        ensures
            r@ == self@.store,
    {
        &self.store
    }

    /// The query of the component.
    pub fn query(&self) -> (r: &Query)
        ensures
            r@ == self@.query,
    {
        &self.query
    }

    /// The router of the component.
    pub fn router(&self) -> (r: &Router)
        ensures
            r@ == self@.router,
    {
        &self.router
    }

    /// Whether no update is being processed.
    pub fn is_idle(&self) -> (r: bool)
        ensures
            r == self@.idle(),
    {
        !self.running && self.work.is_none() && self.sweep.is_none()
            && self.pending_updates.len() == 0 && self.reprocess_intervals.len() == 0
    }

    /// Whether the component waits for an answer of the application.
    pub fn is_waiting(&self) -> (r: bool)
        ensures
            r == self@.waiting(),
    {
        self.running && self.seq <= MAX_ITERATIONS + 1 && match &self.work {
            Some(w) => w.next < w.to_call.len(),
            None => false,
        }
    }

    /// The matches of the query at the time of an event, by their hash, with
    /// what is to be done about them.
    fn begin_event(&self, event: Event) -> (w: EventWork)
        ensures
            is_begun(self@.query, self@.store, event@, w@),
    {
        let all_edges = self.store.get_edges_at_timestamp(event.timestamp);
        let ghost live = all_edges.deep_view();
        let mut hashed_matches: Vec<(u64, GroupedQueryMatch)> = Vec::new();
        let ghost mut groups: Seq<Seq<MatchEntries>> = Seq::empty();
        if all_edges.len() > 0 {
            let mut open_ended: Vec<Edge> = Vec::new();
            let mut i: usize = 0;
            while i < all_edges.len()
                invariant
                    i <= all_edges.len(),
                    live == all_edges.deep_view(),
                    open_ended@.len() == i,
                    forall|k: int| 0 <= k < i ==> (#[trigger] open_ended@[k])@ == without_end(live[k]),
                decreases all_edges.len() - i,
            {
                let mut e = all_edges[i].dup();
                e.to_timestamp = None;
                open_ended.push(e);
                i = i + 1;
            }
            assert(open_ended.deep_view() =~= match_edges(self@.store, event.timestamp));
            let graph = Graph::from_edges(open_ended);
            let matches = self.query.find_all_grouped_matches(&graph);
            proof {
                groups = matches.deep_view();
                assert(graph@.edges == match_edges(self@.store, event.timestamp));
                assert(is_matching(self@.query, match_edges(self@.store, event.timestamp), groups));
            }
            let mut k: usize = 0;
            while k < matches.len()
                invariant
                    k <= matches.len(),
                    groups == matches.deep_view(),
                    hashed_matches.deep_view() == hashed(groups).take(k as int),
                decreases matches.len() - k,
            {
                let ghost prev = hashed_matches.deep_view();
                let m = &matches[k];
                hashed_matches.push((m.stable_hash(), m.dup()));
                proof {
                    let h = hashed(groups);
                    assert(hashed_matches.deep_view() =~= prev.push(h[k as int]));
                    assert(h.take(k + 1) =~= h.take(k as int).push(h[k as int]));
                }
                k = k + 1;
            }
            assert(hashed(groups).take(k as int) =~= hashed(groups));
        } else {
            proof {
                assert(match_edges(self@.store, event.timestamp).len() == 0);
                assert(is_matching(self@.query, match_edges(self@.store, event.timestamp), groups));
                assert(hashed_matches.deep_view() =~= hashed(groups));
            }
        }
        let matches_by_hash = OrderedMap::from_vec(hashed_matches);
        let ghost by_hash = matches_by_hash@;
        let previous = self.store.get_event_output_hash_by_match_hash(event.event_id.as_str());
        let ghost pv = previous@;
        let mut to_retract: Vec<u64> = Vec::new();
        let mut p: usize = 0;
        assert(to_retract.deep_view() =~= stale_matches(pv, by_hash, 0));
        while p < previous.len()
            invariant
                p <= pv.len(),
                pv == previous@,
                by_hash == matches_by_hash@,
                to_retract.deep_view() == stale_matches(pv, by_hash, p as int),
            decreases pv.len() - p,
        {
            let h = previous.key_at(p);
            if !matches_by_hash.contains_key(h) {
                let ghost prev = to_retract.deep_view();
                to_retract.push(*h);
                assert(to_retract.deep_view() =~= prev.push(pv[p as int].0));
            }
            p = p + 1;
        }
        let mut to_call: Vec<(u64, GroupedQueryMatch)> = Vec::new();
        let mut n: usize = 0;
        assert(to_call.deep_view() =~= new_matches(by_hash, pv, 0));
        while n < matches_by_hash.len()
            invariant
                n <= by_hash.len(),
                pv == previous@,
                by_hash == matches_by_hash@,
                to_call.deep_view() == new_matches(by_hash, pv, n as int),
            decreases by_hash.len() - n,
        {
            let h = matches_by_hash.key_at(n);
            if !previous.contains_key(h) {
                let ghost prev = to_call.deep_view();
                to_call.push((*h, matches_by_hash.value_at(n).dup()));
                assert(to_call.deep_view() =~= prev.push(by_hash[n as int]));
            }
            n = n + 1;
        }
        let stale = OrderedSet::from_vec(to_retract);
        proof {
            use_type_invariant(&previous);
            lemma_stale_sorted(pv, by_hash, pv.len() as int);
            crate::ordered::lemma_sorted_unique::<u64>(stale@, stale_matches(pv, by_hash, pv.len() as int));
        }
        let w = EventWork {
            event,
            to_call,
            next: 0,
            previous,
            gone: stale.dup(),
            to_retract: stale,
            new_outputs: OrderedMap::new(),
            updates: Vec::new(),
        };
        proof {
            assert(w@.updates =~= Seq::<UpdateView>::empty());
            assert(is_matching(self@.query, match_edges(self@.store, event@.timestamp), groups)
                && strictly_sorted::<u64>(keys_of(by_hash)));
        }
        w
    }
}

/// The hashes of the former matches that an event has no more are in
/// increasing order.
proof fn lemma_stale_sorted(
    previous: Seq<(u64, Option<u64>)>,
    by_hash: Seq<(u64, Seq<MatchEntries>)>,
    n: int,
)
    requires
        strictly_sorted::<u64>(keys_of(previous)),
        0 <= n <= previous.len(),
    ensures
        strictly_sorted::<u64>(stale_matches(previous, by_hash, n)),
        forall|k: int|
            0 <= k < stale_matches(previous, by_hash, n).len() ==> exists|j: int|
                0 <= j < n && previous[j].0 == #[trigger] stale_matches(previous, by_hash, n)[k],
    decreases n,
{
    if n > 0 {
        lemma_stale_sorted(previous, by_hash, n - 1);
        let rest = stale_matches(previous, by_hash, n - 1);
        let s = stale_matches(previous, by_hash, n);
        if !has_key(by_hash, previous[n - 1].0) {
            assert forall|a: int, b: int| 0 <= a < b < s.len() implies u64::before(
                #[trigger] s[a],
                #[trigger] s[b],
            ) by {
                if b == rest.len() {
                    let j = choose|j: int| 0 <= j < n - 1 && previous[j].0 == rest[a];
                    assert(u64::before(keys_of(previous)[j], keys_of(previous)[n - 1]));
                } else {
                    assert(u64::before(rest[a], rest[b]));
                }
            }
            assert forall|k: int| 0 <= k < s.len() implies exists|j: int|
                0 <= j < n && previous[j].0 == #[trigger] s[k] by {
                if k < rest.len() {
                    let j = choose|j: int| 0 <= j < n - 1 && previous[j].0 == rest[k];
                    assert(previous[j].0 == s[k]);
                } else {
                    assert(previous[n - 1].0 == s[k]);
                }
            }
        } else {
            assert forall|k: int| 0 <= k < s.len() implies exists|j: int|
                0 <= j < n && previous[j].0 == #[trigger] s[k] by {
                let j = choose|j: int| 0 <= j < n - 1 && previous[j].0 == rest[k];
                assert(previous[j].0 == s[k]);
            }
        }
    }
}

/// The package that the output of a match is hashed as: the deltas with the
/// event that they stem from, without an id.
pub open spec fn output_package(e: EventView, deltas: Seq<DeltaView>) -> DeltasView {
    DeltasView {
        deltas_id: Seq::empty(),
        origin_id: e.event_id,
        origin_timestamp: e.timestamp,
        deltas,
    }
}

/// The package that the output of a match is sent as.
pub open spec fn sent_package(e: EventView, deltas: Seq<DeltaView>, id: Seq<char>) -> DeltasView {
    DeltasView { deltas_id: id, origin_id: e.event_id, origin_timestamp: e.timestamp, deltas }
}

/// Whether the output of a match has been routed: a package with the deltas
/// has gone to every query that must see one of them, the packages are
/// remembered for the match, and the package for the component itself, if
/// there is one, is among its updates.
pub open spec fn output_routed(
    router: RouterView,
    e: EventView,
    set: Seq<DeltaView>,
    match_hash: u64,
    sent_before: Map<(Seq<char>, u64), Seq<TopicNameAndDeltasIdView>>,
    sent_after: Map<(Seq<char>, u64), Seq<TopicNameAndDeltasIdView>>,
    out_before: Seq<OutboundView>,
    out_after: Seq<OutboundView>,
    updates_before: Seq<UpdateView>,
    updates_after: Seq<UpdateView>,
) -> bool {
    exists|
        ids: Seq<Seq<char>>,
        id: Seq<char>,
        internal: Option<UpdateView>,
        bindings: Seq<TopicNameAndDeltasIdView>,
        sends: Seq<OutboundView>,
    | #[trigger]
        routed(router, sent_package(e, set, id), ids, internal, bindings, sends) && sent_after
            == sent_before.insert((e.event_id, match_hash), bindings) && out_after == out_before
            + sends && updates_after == (match internal {
            Some(u) => updates_before.push(u),
            None => updates_before,
        })
}

/// The hash of the output of a match.
pub open spec fn output_hash(e: EventView, deltas: Seq<DeltaView>) -> u64 {
    seahash_digest(enc_deltas(output_package(e, deltas)))
}

/// The first of the former matches from position `from` on that may have to
/// be retracted and that had given an output with the given hash.
pub open spec fn first_equivalent(
    previous: Seq<(u64, Option<u64>)>,
    to_retract: Seq<u64>,
    hash: u64,
    from: int,
) -> Option<u64>
    decreases to_retract.len() - from,
{
    if from < 0 || from >= to_retract.len() {
        None
    } else if has_key(previous, to_retract[from]) && value_of(previous, to_retract[from]) == Some(
        hash,
    ) {
        Some(to_retract[from])
    } else {
        first_equivalent(previous, to_retract, hash, from + 1)
    }
}

/// The packages that were sent for the first `n` of the stale matches of an
/// event.
pub open spec fn sent_for(
    sent: Map<(Seq<char>, u64), Seq<TopicNameAndDeltasIdView>>,
    event_id: Seq<char>,
    stale: Seq<u64>,
    n: int,
) -> Seq<TopicNameAndDeltasIdView>
    decreases n,
{
    if n <= 0 {
        Seq::empty()
    } else if sent.contains_key((event_id, stale[n - 1])) {
        sent_for(sent, event_id, stale, n - 1) + sent[(event_id, stale[n - 1])]
    } else {
        sent_for(sent, event_id, stale, n - 1)
    }
}

/// The bindings without those of the first `n` of the stale matches of an
/// event.
pub open spec fn without_sent(
    sent: Map<(Seq<char>, u64), Seq<TopicNameAndDeltasIdView>>,
    event_id: Seq<char>,
    stale: Seq<u64>,
    n: int,
) -> Map<(Seq<char>, u64), Seq<TopicNameAndDeltasIdView>>
    decreases n,
{
    if n <= 0 {
        sent
    } else {
        without_sent(sent, event_id, stale, n - 1).remove((event_id, stale[n - 1]))
    }
}

/// Whether the packages that were sent have been retracted: a retraction of
/// each has gone to the peer that the package went to, and the retractions
/// for the component itself are among its updates.
pub open spec fn retractions_routed(
    sent: Seq<TopicNameAndDeltasIdView>,
    timestamp: u64,
    me: Seq<char>,
    updates_before: Seq<UpdateView>,
    updates_after: Seq<UpdateView>,
    out_before: Seq<OutboundView>,
    out_after: Seq<OutboundView>,
) -> bool {
    exists|ids: Seq<Seq<char>>|
        ids.len() == sent.len() && updates_after == updates_before + #[trigger] own_retractions(
            sent,
            ids,
            timestamp,
            me,
            ids.len() as int,
        ) && out_after == out_before + peer_retractions(sent, ids, timestamp, me, ids.len() as int)
}

/// What the matches of an event have given once the event is processed: the
/// outputs of the new matches, and those of the former matches that the
/// event still has.
pub open spec fn merged_outputs(
    new_outputs: Map<u64, Option<u64>>,
    previous: Seq<(u64, Option<u64>)>,
    gone: Seq<u64>,
    n: int,
) -> Map<u64, Option<u64>>
    decreases n,
{
    if n <= 0 {
        new_outputs
    } else if gone.contains(previous[n - 1].0) {
        merged_outputs(new_outputs, previous, gone, n - 1)
    } else {
        merged_outputs(new_outputs, previous, gone, n - 1).insert(
            previous[n - 1].0,
            previous[n - 1].1,
        )
    }
}

/// A settled event gives no work: where the store has an output on record
/// for exactly the matches that an event has, none of the matches is new and
/// none of the former ones is stale. So processing an event again in a
/// world that has not changed asks for nothing, sends nothing and retracts
/// nothing.
pub proof fn lemma_settled_event_gives_no_work(
    by_hash: Seq<(u64, Seq<MatchEntries>)>,
    previous: Seq<(u64, Option<u64>)>,
)
    requires
        keys_of(previous) == keys_of(by_hash),
    ensures
        new_matches(by_hash, previous, by_hash.len() as int).len() == 0,
        stale_matches(previous, by_hash, previous.len() as int).len() == 0,
{
    assert(keys_of(previous).len() == previous.len());
    assert(keys_of(by_hash).len() == by_hash.len());
    lemma_no_new_matches(by_hash, previous, by_hash.len() as int);
    lemma_no_stale_matches(by_hash, previous, previous.len() as int);
}

proof fn lemma_no_new_matches(
    by_hash: Seq<(u64, Seq<MatchEntries>)>,
    previous: Seq<(u64, Option<u64>)>,
    n: int,
)
    requires
        keys_of(previous) == keys_of(by_hash),
        previous.len() == by_hash.len(),
        0 <= n <= by_hash.len(),
    ensures
        new_matches(by_hash, previous, n).len() == 0,
    decreases n,
{
    if n > 0 {
        lemma_no_new_matches(by_hash, previous, n - 1);
        assert(keys_of(previous)[n - 1] == keys_of(by_hash)[n - 1]);
        assert(keys_of(previous)[n - 1] == previous[n - 1].0);
        assert(keys_of(by_hash)[n - 1] == by_hash[n - 1].0);
        assert(has_key(previous, by_hash[n - 1].0));
    }
}

proof fn lemma_no_stale_matches(
    by_hash: Seq<(u64, Seq<MatchEntries>)>,
    previous: Seq<(u64, Option<u64>)>,
    n: int,
)
    requires
        keys_of(previous) == keys_of(by_hash),
        previous.len() == by_hash.len(),
        0 <= n <= previous.len(),
    ensures
        stale_matches(previous, by_hash, n).len() == 0,
    decreases n,
{
    if n > 0 {
        lemma_no_stale_matches(by_hash, previous, n - 1);
        assert(keys_of(previous)[n - 1] == keys_of(by_hash)[n - 1]);
        assert(keys_of(previous)[n - 1] == previous[n - 1].0);
        assert(keys_of(by_hash)[n - 1] == by_hash[n - 1].0);
        assert(has_key(by_hash, previous[n - 1].0));
    }
}

/// The first of the former matches that may have to be retracted and that
/// had given an output with the given hash.
fn find_equivalent(
    previous: &OrderedMap<u64, Option<u64>>,
    to_retract: &OrderedSet<u64>,
    hash: u64,
) -> (r: Option<u64>)
    ensures
        r == first_equivalent(previous@, to_retract@, hash, 0),
        r is Some ==> to_retract@.contains(r->0),
{
    let ghost stale = to_retract@;
    let ghost pv = previous@;
    let mut i: usize = 0;
    while i < to_retract.len()
        invariant
            i <= stale.len(),
            stale == to_retract@,
            pv == previous@,
            first_equivalent(pv, stale, hash, 0) == first_equivalent(pv, stale, hash, i as int),
        decreases stale.len() - i,
    {
        let h = to_retract.at(i);
        let same_output = match previous.get(h) {
            Some(Some(o)) => *o == hash,
            _ => false,
        };
        if same_output {
            assert(stale[i as int] == *h);
            return Some(*h);
        }
        i = i + 1;
    }
    None
}

impl Component {
    /// Takes in what the application has answered for the match that was
    /// asked for. A match without output is recorded as such. An output that
    /// a former match of the event had given, and that may have to be
    /// retracted, stays: its packages are handed over to the new match.
    /// Any other output is routed, and the packages are remembered for the
    /// match.
    #[verifier::rlimit(40)]
    fn record_output(
        &mut self,
        work: EventWork,
        deltas: Vec<Delta>,
        outbound: &mut Vec<Outbound>,
    ) -> (r: EventWork)
        requires
            work@.next < work@.to_call.len(),
        ensures
            r@.next == work@.next + 1,
            r@.event == work@.event,
            r@.to_call == work@.to_call,
            r@.previous == work@.previous,
            r@.gone == work@.gone,
            final(self).sweep == old(self).sweep,
            final(self).work == old(self).work,
            final(self).seq == old(self).seq,
            final(self).running == old(self).running,
            final(self)@ == (ComponentView { store: final(self)@.store, ..old(self)@ }),
            final(self)@.store == (StoreView {
                bindings: final(self)@.store.bindings,
                ..old(self)@.store
            }),
            deltas.len() == 0 ==> as_map(r@.new_outputs) == as_map(work@.new_outputs).insert(
                work@.to_call[work@.next as int].0,
                None,
            ) && r@.to_retract == work@.to_retract && r@.updates == work@.updates && final(outbound).deep_view() == old(outbound).deep_view() && final(self)@.store == old(self)@.store,
            deltas.len() > 0 ==> exists|set: Seq<DeltaView>|
                #![trigger output_hash(work@.event, set)]
                strictly_sorted::<Delta>(set) && set.to_set() == deltas.deep_view().to_set()
                    && as_map(r@.new_outputs) == as_map(work@.new_outputs).insert(
                    work@.to_call[work@.next as int].0,
                    Some(output_hash(work@.event, set)),
                ) && (match first_equivalent(
                    work@.previous,
                    work@.to_retract,
                    output_hash(work@.event, set),
                    0,
                ) {
                    Some(old_hash) => r@.to_retract.to_set() == work@.to_retract.to_set().remove(
                        old_hash,
                    ) && r@.updates == work@.updates && final(outbound).deep_view() == old(outbound).deep_view() && (old(self)@.store.sent().contains_key(
                        (work@.event.event_id, old_hash),
                    ) ==> final(self)@.store.sent() == old(self)@.store.sent().remove(
                        (work@.event.event_id, old_hash),
                    ).insert(
                        (work@.event.event_id, work@.to_call[work@.next as int].0),
                        old(self)@.store.sent()[(work@.event.event_id, old_hash)],
                    )),
                    None => r@.to_retract == work@.to_retract && output_routed(
                        old(self)@.router,
                        work@.event,
                        set,
                        work@.to_call[work@.next as int].0,
                        old(self)@.store.sent(),
                        final(self)@.store.sent(),
                        old(outbound).deep_view(),
                        final(outbound).deep_view(),
                        work@.updates,
                        r@.updates,
                    ),
                }),
    {
        let mut work = work;
        let ghost w0 = work@;
        let match_hash = work.to_call[work.next].0;
        assert(work.to_call.deep_view()[work.next as int].0 == match_hash);
        assert(work.to_call.deep_view().len() == work.to_call.len());
        if deltas.len() == 0 {
            work.new_outputs.insert(match_hash, None);
        } else {
            let set = OrderedSet::from_vec(deltas);
            let ghost sv = set@;
            let package = Deltas {
                deltas_id: String::new(),
                origin_id: work.event.event_id.dup(),
                origin_timestamp: work.event.timestamp,
                deltas: set,
            };
            assert(package@ == output_package(w0.event, sv));
            let new_output_hash = package.stable_hash();
            assert(new_output_hash == output_hash(w0.event, sv));
            work.new_outputs.insert(match_hash, Some(new_output_hash));
            match find_equivalent(&work.previous, &work.to_retract, new_output_hash) {
                Some(old_match_hash) => {
                    let _ = self.store.replace_old_match_with_equivalent_new_match(
                        work.event.event_id.as_str(),
                        &old_match_hash,
                        &match_hash,
                    );
                    work.to_retract.remove(&old_match_hash);
                },
                None => {
                    self.send_output(
                        &work.event,
                        match_hash,
                        package,
                        &mut work.updates,
                        outbound,
                    );
                },
            }
            proof {
                assert(strictly_sorted::<Delta>(sv) && sv.to_set() == deltas.deep_view().to_set());
            }
        }
        work.next = work.next + 1;
        work
    }

    /// Routes the output of a match under a fresh id and remembers the
    /// packages for the match.
    fn send_output(
        &mut self,
        event: &Event,
        match_hash: u64,
        package: Deltas,
        updates: &mut Vec<Update>,
        outbound: &mut Vec<Outbound>,
    )
        requires
            package@ == output_package(event@, package@.deltas),
        ensures
            final(self).sweep == old(self).sweep,
            final(self).work == old(self).work,
            final(self).seq == old(self).seq,
            final(self).running == old(self).running,
            final(self)@ == (ComponentView { store: final(self)@.store, ..old(self)@ }),
            final(self)@.store == (StoreView {
                bindings: final(self)@.store.bindings,
                ..old(self)@.store
            }),
            output_routed(
                old(self)@.router,
                event@,
                package@.deltas,
                match_hash,
                old(self)@.store.sent(),
                final(self)@.store.sent(),
                old(outbound).deep_view(),
                final(outbound).deep_view(),
                old(updates).deep_view(),
                final(updates).deep_view(),
            ),
    {
        let mut package = package;
        let ghost sv = package@.deltas;
        let mut ids = fresh_ids(1);
        let id = ids.remove(0);
        let ghost idv = id@;
        package.deltas_id = id;
        assert(package@ == sent_package(event@, sv, idv));
        let route = self.router.route_deltas_update(package);
        let Route { internal_update, bindings, outbound: mut sends } = route;
        let ghost bv = bindings.deep_view();
        let ghost ov = sends.deep_view();
        let ghost iv = internal_update.deep_view();
        self.store.add_new_match_updates_binding(event.event_id.as_str(), &match_hash, bindings);
        let ghost before = outbound.deep_view();
        outbound.append(&mut sends);
        assert(outbound.deep_view() =~= before + ov);
        match internal_update {
            Some(new_update) => {
                let ghost prev = updates.deep_view();
                let ghost uv = new_update@;
                updates.push(new_update);
                assert(updates.deep_view() =~= prev.push(uv));
            },
            None => {},
        }
        proof {
            let ids = choose|ids: Seq<Seq<char>>|
                is_count_of_targets(self@.router.edge_forward_map, sv, ids.len() as int)
                    && #[trigger] routed(
                    self@.router,
                    sent_package(event@, sv, idv),
                    ids,
                    iv,
                    bv,
                    ov,
                );
            assert(routed(old(self)@.router, sent_package(event@, sv, idv), ids, iv, bv, ov));
        }
    }

    /// Finishes the work on an event: records what its matches have given,
    /// and retracts the packages that were sent for the matches that it has
    /// no more. Gives the updates for the component itself that have come of
    /// the event. Where no match was new and none is stale, nothing is
    /// recorded, sent or retracted.
    fn finish_event(&mut self, work: EventWork, outbound: &mut Vec<Outbound>) -> (r: Vec<Update>)
        ensures
            final(self).sweep == old(self).sweep,
            final(self).work == old(self).work,
            final(self).seq == old(self).seq,
            final(self).running == old(self).running,
            final(self)@ == (ComponentView { store: final(self)@.store, ..old(self)@ }),
            final(self)@.store == (StoreView {
                bindings: final(self)@.store.bindings,
                match_outputs: final(self)@.store.match_outputs,
                ..old(self)@.store
            }),
            work@.gone.len() == 0 && work@.to_retract.len() == 0 && work@.new_outputs.len() == 0
                ==> final(self)@.store == old(self)@.store && final(outbound).deep_view() == old(outbound).deep_view() && r.deep_view() == work@.updates,
            !(work@.gone.len() == 0 && work@.to_retract.len() == 0 && work@.new_outputs.len() == 0)
                ==> final(self)@.store.outputs().contains_key(work@.event.event_id) && as_map(
                final(self)@.store.outputs()[work@.event.event_id],
            ) == merged_outputs(
                as_map(work@.new_outputs),
                work@.previous,
                work@.gone,
                work@.previous.len() as int,
            ),
            final(self)@.store.sent() == without_sent(
                old(self)@.store.sent(),
                work@.event.event_id,
                work@.to_retract,
                work@.to_retract.len() as int,
            ),
            retractions_routed(
                sent_for(
                    old(self)@.store.sent(),
                    work@.event.event_id,
                    work@.to_retract,
                    work@.to_retract.len() as int,
                ),
                work@.event.timestamp,
                old(self)@.router.query_name,
                work@.updates,
                r.deep_view(),
                old(outbound).deep_view(),
                final(outbound).deep_view(),
            ),
    {
        let ghost w0 = work@;
        let EventWork { event, to_call: _, next: _, previous, gone, to_retract, new_outputs, updates } =
            work;
        proof {
            assert(w0.event == event@);
            assert(w0.to_retract == to_retract@);
            assert(w0.gone == gone@);
            assert(w0.previous == previous@);
            assert(w0.updates == updates.deep_view());
        }
        let mut updates = updates;
        let ghost u0 = updates.deep_view();
        let ghost pv = previous@;
        let ghost stale = to_retract@;
        let ghost sent0 = self@.store.sent();
        let ghost eid = event@.event_id;
        let ghost lost = gone@;
        let nothing = gone.len() == 0 && to_retract.len() == 0 && new_outputs.len() == 0;
        if !nothing {
            let mut updated = new_outputs;
            let ghost n0 = updated.map();
            let mut p: usize = 0;
            while p < previous.len()
                invariant
                    p <= pv.len(),
                    pv == previous@,
                    lost == gone@,
                    updated.map() == merged_outputs(n0, pv, lost, p as int),
                decreases pv.len() - p,
            {
                let m = previous.key_at(p);
                if !gone.contains(m) {
                    updated.insert(*m, *previous.value_at(p));
                }
                p = p + 1;
            }
            self.store.update_matches(event.event_id.as_str(), updated);
        }
        let mut all_bindings: Vec<TopicNameAndDeltasId> = Vec::new();
        let mut k: usize = 0;
        let ghost mid = self@.store;
        proof {
            use_type_invariant(&to_retract);
            assert(mid.sent() == sent0);
            assert(all_bindings.deep_view() =~= sent_for(sent0, eid, stale, 0));
        }
        while k < to_retract.len()
            invariant
                k <= stale.len(),
                stale == to_retract@,
                eid == event@.event_id,
                all_bindings.deep_view() == sent_for(sent0, eid, stale, k as int),
                self@.store.sent() == without_sent(sent0, eid, stale, k as int),
                self@ == (ComponentView { store: self@.store, ..old(self)@ }),
                self.sweep == old(self).sweep,
                self.work == old(self).work,
                self.seq == old(self).seq,
                self.running == old(self).running,
                self@.store == (StoreView { bindings: self@.store.bindings, ..mid }),
                k == 0 ==> self@.store == mid,
                strictly_sorted::<u64>(stale),
            decreases stale.len() - k,
        {
            let m = to_retract.at(k);
            proof {
                lemma_without_sent_keeps(sent0, eid, stale, k as int, stale[k as int]);
            }
            match self.store.pop_deltas_ids_for_event_id_and_match_hash(event.event_id.as_str(), m) {
                Some(mut found) => {
                    let ghost prev = all_bindings.deep_view();
                    let ghost add = found.deep_view();
                    all_bindings.append(&mut found);
                    assert(all_bindings.deep_view() =~= prev + add);
                },
                None => {},
            }
            k = k + 1;
        }
        let ghost bv = all_bindings.deep_view();
        let (mut internal, mut sends) = self.router.route_retractions(
            all_bindings,
            &event.timestamp,
        );
        let ghost iv = internal.deep_view();
        let ghost ov = sends.deep_view();
        updates.append(&mut internal);
        let ghost before = outbound.deep_view();
        outbound.append(&mut sends);
        proof {
            assert(updates.deep_view() =~= u0 + iv);
            assert(outbound.deep_view() =~= before + ov);
            let me = old(self)@.router.query_name;
            let ts = event@.timestamp;
            let ids = choose|ids: Seq<Seq<char>>|
                ids.len() == bv.len() && iv == #[trigger] own_retractions(
                    bv,
                    ids,
                    ts,
                    me,
                    ids.len() as int,
                ) && ov == peer_retractions(bv, ids, ts, me, ids.len() as int);
            assert(iv == own_retractions(bv, ids, ts, me, ids.len() as int));
            assert(bv == sent_for(sent0, eid, stale, stale.len() as int));
            assert(retractions_routed(bv, ts, me, u0, updates.deep_view(), before, outbound.deep_view()));
            if nothing {
                assert(bv.len() == 0);
                assert(iv.len() == 0);
                assert(ov.len() == 0);
                assert(updates.deep_view() =~= u0);
                assert(outbound.deep_view() =~= before);
            }
        }
        updates
    }
}

/// Taking the bindings of earlier stale matches out leaves those of a later
/// one.
proof fn lemma_without_sent_keeps(
    sent: Map<(Seq<char>, u64), Seq<TopicNameAndDeltasIdView>>,
    event_id: Seq<char>,
    stale: Seq<u64>,
    n: int,
    h: u64,
)
    requires
        0 <= n <= stale.len(),
        forall|j: int| 0 <= j < n ==> stale[j] != h,
    ensures
        without_sent(sent, event_id, stale, n).contains_key((event_id, h)) == sent.contains_key(
            (event_id, h),
        ),
        sent.contains_key((event_id, h)) ==> without_sent(sent, event_id, stale, n)[(event_id, h)]
            == sent[(event_id, h)],
    decreases n,
{
    if n > 0 {
        lemma_without_sent_keeps(sent, event_id, stale, n - 1, h);
    }
}

/// The retractions among the first `n` updates, in their order.
pub open spec fn retractions_among(s: Seq<UpdateView>, n: int) -> Seq<UpdateView>
    decreases n,
{
    if n <= 0 {
        Seq::empty()
    } else if s[n - 1] is Retractions {
        retractions_among(s, n - 1).push(s[n - 1])
    } else {
        retractions_among(s, n - 1)
    }
}

/// The updates other than retractions among the first `n`, in their order.
pub open spec fn others_among(s: Seq<UpdateView>, n: int) -> Seq<UpdateView>
    decreases n,
{
    if n <= 0 {
        Seq::empty()
    } else if s[n - 1] is Retractions {
        others_among(s, n - 1)
    } else {
        others_among(s, n - 1).push(s[n - 1])
    }
}

/// The updates with the retractions first; otherwise in their order.
pub open spec fn retractions_first(s: Seq<UpdateView>) -> Seq<UpdateView> {
    retractions_among(s, s.len() as int) + others_among(s, s.len() as int)
}

/// Puts the retractions first.
pub fn sort_retractions_first(updates: Vec<Update>) -> (r: Vec<Update>)
    ensures
        r.deep_view() == retractions_first(updates.deep_view()),
{
    let ghost s = updates.deep_view();
    let mut first: Vec<Update> = Vec::new();
    let mut rest: Vec<Update> = Vec::new();
    let mut i: usize = 0;
    assert(first.deep_view() =~= retractions_among(s, 0));
    assert(rest.deep_view() =~= others_among(s, 0));
    while i < updates.len()
        invariant
            i <= updates.len(),
            s == updates.deep_view(),
            first.deep_view() == retractions_among(s, i as int),
            rest.deep_view() == others_among(s, i as int),
        decreases updates.len() - i,
    {
        let u = updates[i].dup();
        let ghost uv = u@;
        match &u {
            Update::Retractions(_) => {
                let ghost prev = first.deep_view();
                first.push(u);
                assert(first.deep_view() =~= prev.push(uv));
            },
            _ => {
                let ghost prev = rest.deep_view();
                rest.push(u);
                assert(rest.deep_view() =~= prev.push(uv));
            },
        }
        i = i + 1;
    }
    let ghost a = first.deep_view();
    let ghost b = rest.deep_view();
    first.append(&mut rest);
    assert(first.deep_view() =~= a + b);
    first
}

fn bump(x: u64) -> (r: u64)
    ensures
        r == bumped(x),
{
    if x < u64::MAX {
        x + 1
    } else {
        x
    }
}

/// A counter after one more was counted; the highest number stays.
pub open spec fn bumped(x: u64) -> u64 {
    if x < u64::MAX {
        (x + 1) as u64
    } else {
        x
    }
}

/// The sweep over intervals as it begins: none of them has been begun.
pub open spec fn sweep_of(intervals: Seq<ReprocessInterval>) -> SweepView {
    SweepView {
        intervals,
        next_interval: 0,
        current: ReprocessInterval { from: 0, to: None },
        event_ids: Seq::empty(),
        taken: 0,
    }
}

/// The intervals that are left of a sweep that an event has halted: the
/// rest of the current interval, from the time of the event on, and the
/// intervals that have not been begun.
pub open spec fn rest_of_sweep(sv: SweepView, event_timestamp: u64) -> Seq<ReprocessInterval> {
    (if sv.next_interval > 0 && (sv.current.to is None || sv.current.to->0 > event_timestamp) {
        seq![ReprocessInterval { from: event_timestamp, to: sv.current.to }]
    } else {
        Seq::empty()
    }) + sv.intervals.skip(sv.next_interval)
}

impl ComponentView {
    /// The request for the match that the component is about to ask the
    /// application for; none where the match or the pattern cannot be put
    /// into a request.
    pub open spec fn asked(self) -> Option<ApplicationRequestView> {
        encode_application_request(
            self.query.name,
            self.query.application,
            self.work->0.to_call[self.work->0.next as int].1,
            self.query.graph.edges,
            self.work->0.event,
        )
    }

    /// The component after a run has been given up: what waited is dropped.
    pub open spec fn given_up(self) -> ComponentView {
        ComponentView {
            pending_updates: Seq::empty(),
            reprocess_intervals: Seq::empty(),
            work: None,
            sweep: None,
            running: false,
            seq: 0,
            ..self
        }
    }

    /// How many passes the loop may still make before it gives up.
    pub open spec fn passes_left(self) -> int {
        MAX_ITERATIONS + 2 - self.seq
    }

    /// How many intervals the sweep has not finished.
    pub open spec fn sweep_left(self) -> int {
        match self.sweep {
            Some(sv) => sv.intervals.len() - sv.next_interval + 1,
            None => 0,
        }
    }

    /// How many events of the current interval the sweep has not taken.
    pub open spec fn events_left(self) -> int {
        match self.sweep {
            Some(sv) => sv.event_ids.len() - sv.taken,
            None => 0,
        }
    }

    /// Whether work on an event is under way.
    pub open spec fn work_left(self) -> int {
        if self.work is Some {
            1
        } else {
            0
        }
    }

    /// Whether the component is further on in its run than another: it
    /// has fewer passes left, or as many and less of the sweep, of the
    /// events of the current interval, or of the work on an event.
    pub open spec fn further_than(self, b: ComponentView) -> bool {
        self.passes_left() < b.passes_left() || (self.passes_left() == b.passes_left() && (
        self.sweep_left() < b.sweep_left() || (self.sweep_left() == b.sweep_left() && (
        self.events_left() < b.events_left() || (self.events_left() == b.events_left()
            && self.work_left() < b.work_left())))))
    }
}

/// The step in which the component asks the application for the next match
/// of the event that it works on: nothing changes. Where no request can be
/// made, the run is given up.
pub open spec fn asked_step(b: ComponentView, a: ComponentView, step: StepView) -> bool {
    match b.asked() {
        Some(request) => step == StepView::Call(request) && a == b,
        None => step == StepView::Aborted(Abort::Unencodable) && a == b.given_up(),
    }
}

/// What recording an answer of the application does. An empty answer is
/// recorded as no output. Else the output is hashed; where a former match
/// that the event has no more had the same output, the new match takes its
/// packages over and the former match is not retracted; otherwise the
/// output is routed as a new package, the packages that were sent are
/// remembered for the match, and what the component sends to itself is kept
/// for later.
pub open spec fn is_recorded(
    b: ComponentView,
    deltas: Seq<DeltaView>,
    a: ComponentView,
    out0: Seq<OutboundView>,
    out1: Seq<OutboundView>,
) -> bool {
    let w = b.work->0;
    let r = a.work->0;
    let hash = w.to_call[w.next as int].0;
    &&& a.work is Some
    &&& a == (ComponentView { store: a.store, work: a.work, ..b })
    &&& a.store == (StoreView { bindings: a.store.bindings, ..b.store })
    &&& r.next == w.next + 1
    &&& r.event == w.event
    &&& r.to_call == w.to_call
    &&& r.previous == w.previous
    &&& r.gone == w.gone
    &&& (deltas.len() == 0 ==> as_map(r.new_outputs) == as_map(w.new_outputs).insert(hash, None)
        && r.to_retract == w.to_retract && r.updates == w.updates && out1 == out0 && a.store
        == b.store)
    &&& (deltas.len() > 0 ==> exists|set: Seq<DeltaView>|
        #![trigger output_hash(w.event, set)]
        strictly_sorted::<Delta>(set) && set.to_set() == deltas.to_set() && as_map(r.new_outputs)
            == as_map(w.new_outputs).insert(hash, Some(output_hash(w.event, set))) && (
        match first_equivalent(w.previous, w.to_retract, output_hash(w.event, set), 0) {
            Some(old_hash) => r.to_retract.to_set() == w.to_retract.to_set().remove(old_hash)
                && r.updates == w.updates && out1 == out0 && (b.store.sent().contains_key(
                (w.event.event_id, old_hash),
            ) ==> a.store.sent() == b.store.sent().remove((w.event.event_id, old_hash)).insert(
                (w.event.event_id, hash),
                b.store.sent()[(w.event.event_id, old_hash)],
            )),
            None => r.to_retract == w.to_retract && output_routed(
                b.router,
                w.event,
                set,
                hash,
                b.store.sent(),
                a.store.sent(),
                out0,
                out1,
                w.updates,
                r.updates,
            ),
        }))
}

/// What finishing the work on an event does to the store and sends: the
/// outputs of the event are brought up to date, the former matches that
/// the event has no more are retracted where their packages went, and what
/// is left for the component itself is `updates`. Where the event has
/// neither lost nor gained a match, nothing changes.
pub open spec fn is_finished(
    b: ComponentView,
    a: StoreView,
    out0: Seq<OutboundView>,
    out1: Seq<OutboundView>,
    updates: Seq<UpdateView>,
) -> bool {
    let w = b.work->0;
    let quiet = w.gone.len() == 0 && w.to_retract.len() == 0 && w.new_outputs.len() == 0;
    &&& a == (StoreView { bindings: a.bindings, match_outputs: a.match_outputs, ..b.store })
    &&& (quiet ==> a == b.store && out1 == out0 && updates == w.updates)
    &&& (!quiet ==> a.outputs().contains_key(w.event.event_id) && as_map(
        a.outputs()[w.event.event_id],
    ) == merged_outputs(as_map(w.new_outputs), w.previous, w.gone, w.previous.len() as int))
    &&& a.sent() == without_sent(
        b.store.sent(),
        w.event.event_id,
        w.to_retract,
        w.to_retract.len() as int,
    )
    &&& retractions_routed(
        sent_for(b.store.sent(), w.event.event_id, w.to_retract, w.to_retract.len() as int),
        w.event.timestamp,
        b.router.query_name,
        w.updates,
        updates,
        out0,
        out1,
    )
}

/// The component after the work on an event is finished, given what the
/// event has left for the component itself. An event of a sweep that
/// leaves something halts the sweep: what is left of the sweep waits as
/// intervals. What an event leaves waits behind the retractions.
pub open spec fn after_event(b: ComponentView, a: StoreView, updates: Seq<UpdateView>) -> ComponentView {
    match b.sweep {
        Some(sv) => if updates.len() > 0 {
            ComponentView {
                store: a,
                work: None,
                sweep: None,
                reprocess_intervals: rest_of_sweep(sv, b.work->0.event.timestamp),
                pending_updates: retractions_first(b.pending_updates + updates),
                counters: CountersView {
                    n_reprocessing: bumped(b.counters.n_reprocessing),
                    ..b.counters
                },
                ..b
            }
        } else {
            ComponentView {
                store: a,
                work: None,
                counters: CountersView {
                    n_reprocessing: bumped(b.counters.n_reprocessing),
                    ..b.counters
                },
                ..b
            }
        },
        None => ComponentView {
            store: a,
            work: None,
            pending_updates: retractions_first(b.pending_updates + updates),
            counters: CountersView { n_events: bumped(b.counters.n_events), ..b.counters },
            ..b
        },
    }
}

/// The step that finishes the work on an event whose matches have all been
/// answered.
pub open spec fn finished_step(
    b: ComponentView,
    a: ComponentView,
    out0: Seq<OutboundView>,
    out1: Seq<OutboundView>,
) -> bool {
    exists|updates: Seq<UpdateView>| #[trigger]
        is_finished(b, a.store, out0, out1, updates) && a == after_event(b, a.store, updates)
}

/// The step of a sweep: the next event of the current interval is taken
/// and, if the store still has it, begun; or, the events of the interval
/// taken, the next interval is begun with the events that the store has in
/// it; or, no interval left, the sweep ends.
pub open spec fn swept_step(b: ComponentView, a: ComponentView) -> bool {
    let sv = b.sweep->0;
    if sv.taken < sv.event_ids.len() {
        let id = sv.event_ids[sv.taken];
        &&& a == (ComponentView {
            sweep: Some(SweepView { taken: sv.taken + 1, ..sv }),
            work: a.work,
            ..b
        })
        &&& (if b.store.events().contains_key(id) {
            a.work is Some && is_begun(b.query, b.store, b.store.events()[id], a.work->0)
        } else {
            a.work is None
        })
    } else if sv.next_interval < sv.intervals.len() {
        let interval = sv.intervals[sv.next_interval];
        a == (ComponentView {
            sweep: Some(
                SweepView {
                    current: interval,
                    next_interval: sv.next_interval + 1,
                    taken: 0,
                    event_ids: ids_between(
                        b.store.event_ids_by_timestamp,
                        interval.from,
                        interval.to,
                    ),
                    ..sv
                },
            ),
            ..b
        })
    } else {
        a == (ComponentView { sweep: None, ..b })
    }
}

/// The intervals that wait in a component behind those that waited in it
/// before.
pub open spec fn added_to(b: ComponentView, a: ComponentView) -> Seq<ReprocessInterval> {
    a.reprocess_intervals.skip(b.reprocess_intervals.len() as int)
}

/// What taking an update in does, as far as that can be done without the
/// application. An update that the store remembers as retracted is
/// ignored. An event is recorded and the work on it begun. A package of
/// deltas or a retraction is taken into the store, and the intervals that
/// have to be reprocessed for it wait behind those that wait already.
pub open spec fn dispatched(b: ComponentView, u: UpdateView, a: ComponentView) -> bool {
    if is_suppressed(b.store, u) {
        a == b
    } else {
        match u {
            UpdateView::Event(e) => event_added(b.store, e, a.store) && a.work is Some
                && is_begun(b.query, a.store, e, a.work->0) && a == (ComponentView {
                store: a.store,
                work: a.work,
                ..b
            }),
            UpdateView::Deltas(ds) => deltas_ingested(b.store, ds, a.store, added_to(b, a)) && a
                == (ComponentView {
                store: a.store,
                reprocess_intervals: b.reprocess_intervals + added_to(b, a),
                counters: CountersView { n_deltas: bumped(b.counters.n_deltas), ..b.counters },
                ..b
            }),
            UpdateView::Retractions(rs) => retractions_ingested(
                b.store,
                rs,
                a.store,
                added_to(b, a),
            ) && a == (ComponentView {
                store: a.store,
                reprocess_intervals: b.reprocess_intervals + added_to(b, a),
                counters: CountersView {
                    n_retractions: bumped(b.counters.n_retractions),
                    ..b.counters
                },
                ..b
            }),
            UpdateView::Stop => a == b,
        }
    }
}

/// The component after one more pass was counted and the last of the
/// updates that wait was taken off.
pub open spec fn taken_off(b: ComponentView) -> ComponentView {
    ComponentView {
        seq: (b.seq + 1) as u64,
        pending_updates: b.pending_updates.drop_last(),
        ..b
    }
}

/// The step between two events: where nothing waits, the run is done;
/// after too many passes it is given up; where only intervals wait, a
/// sweep over them begins, in canonical form; else the update that came
/// last is taken in, and unless that has begun the work on an event, the
/// retractions among the updates that wait are put first.
pub open spec fn passed_step(b: ComponentView, a: ComponentView, step: Option<StepView>) -> bool {
    if b.pending_updates.len() == 0 && b.reprocess_intervals.len() == 0 {
        step == Some(
            StepView::Done(
                SummaryView { counters: b.counters, open_edges: b.store.open_edges.len() as usize },
            ),
        ) && a == (ComponentView { running: false, seq: 0, ..b })
    } else if b.seq > MAX_ITERATIONS {
        step == Some(StepView::Aborted(Abort::Runaway)) && a == b.given_up()
    } else if b.pending_updates.len() == 0 {
        step is None && a == (ComponentView {
            seq: (b.seq + 1) as u64,
            reprocess_intervals: Seq::empty(),
            sweep: Some(sweep_of(non_redundant(b.reprocess_intervals))),
            ..b
        })
    } else {
        step is None && exists|m: ComponentView| #[trigger]
            dispatched(taken_off(b), b.pending_updates.last(), m) && a == (if m.work is None {
                ComponentView { pending_updates: retractions_first(m.pending_updates), ..m }
            } else {
                m
            })
    }
}

/// One step of the loop, from the component and what it has sent before to
/// the component and what it has sent after. With a `step` the loop
/// halts: for a call of the application, or at its end.
pub open spec fn advanced(
    b: ComponentView,
    a: ComponentView,
    out0: Seq<OutboundView>,
    out1: Seq<OutboundView>,
    step: Option<StepView>,
) -> bool {
    if b.work is Some {
        if b.work->0.next < b.work->0.to_call.len() {
            step is Some && asked_step(b, a, step->0) && out1 == out0
        } else {
            step is None && finished_step(b, a, out0, out1)
        }
    } else if b.sweep is Some {
        step is None && swept_step(b, a) && out1 == out0
    } else {
        passed_step(b, a, step) && out1 == out0
    }
}

/// A state of a run: the component, and what it has sent so far.
pub type RunState = (ComponentView, Seq<OutboundView>);

/// Whether the loop goes on from a state of a run to the next.
pub open spec fn goes_on(trace: Seq<RunState>, i: int) -> bool {
    advanced(trace[i].0, trace[i + 1].0, trace[i].1, trace[i + 1].1, None)
}

/// Whether a sequence of states is a run of the loop that halts with a
/// step: each state but the last two goes on to the next, and the last but
/// one halts with the step in the last.
pub open spec fn is_run(trace: Seq<RunState>, step: StepView) -> bool {
    &&& trace.len() >= 2
    &&& forall|i: int| 0 <= i < trace.len() - 2 ==> #[trigger] goes_on(trace, i)
    &&& advanced(
        trace[trace.len() - 2].0,
        trace.last().0,
        trace[trace.len() - 2].1,
        trace.last().1,
        Some(step),
    )
}

/// Whether the loop runs from one state to another and halts there with a
/// step.
pub open spec fn runs_to(from: RunState, to: RunState, step: StepView) -> bool {
    exists|trace: Seq<RunState>| #[trigger]
        is_run(trace, step) && trace[0] == from && trace.last() == to
}

/// The step with which an update that is ignored is done: nothing was
/// counted, and the open edges are those of the store.
pub open spec fn ignored(v: StoreView) -> StepView {
    StepView::Done(
        SummaryView {
            counters: CountersView {
                n_deltas: 0,
                n_events: 0,
                n_retractions: 0,
                n_reprocessing: 0,
            },
            open_edges: v.open_edges.len() as usize,
        },
    )
}

/// The component as it takes an update in: the update waits, and nothing
/// has been counted.
pub open spec fn started(b: ComponentView, u: UpdateView) -> ComponentView {
    ComponentView {
        running: true,
        seq: 0,
        counters: CountersView { n_deltas: 0, n_events: 0, n_retractions: 0, n_reprocessing: 0 },
        pending_updates: b.pending_updates.push(u),
        ..b
    }
}

impl Sweep {
    fn begin(intervals: Vec<ReprocessInterval>) -> (r: Sweep)
        ensures
            r.deep_view() == sweep_of(intervals@),
    {
        let r = Sweep {
            intervals,
            next_interval: 0,
            current: ReprocessInterval { from: 0, to: None },
            event_ids: Vec::new(),
            taken: 0,
        };
        assert(r.event_ids.deep_view() =~= Seq::<Seq<char>>::empty());
        r
    }

    /// The intervals that are left of a sweep that an event has halted.
    fn intervals_left_of(self, event_timestamp: u64) -> (r: Vec<ReprocessInterval>)
        ensures
            r@ == rest_of_sweep(self.deep_view(), event_timestamp),
    {
        proof {
            use_type_invariant(&self);
        }
        let ghost sv = self.deep_view();
        let mut remaining: Vec<ReprocessInterval> = Vec::new();
        let keep = match self.current.to {
            None => true,
            Some(to) => to > event_timestamp,
        };
        if keep && self.next_interval > 0 {
            remaining.push(ReprocessInterval { from: event_timestamp, to: self.current.to });
        }
        let ghost head = remaining@;
        let mut k: usize = self.next_interval;
        assert(remaining@ =~= head + sv.intervals.subrange(sv.next_interval, k as int));
        while k < self.intervals.len()
            invariant
                self.next_interval <= k <= self.intervals.len(),
                sv == self.deep_view(),
                remaining@ == head + sv.intervals.subrange(sv.next_interval, k as int),
            decreases self.intervals.len() - k,
        {
            remaining.push(self.intervals[k]);
            assert(remaining@ =~= head + sv.intervals.subrange(sv.next_interval, k + 1));
            k = k + 1;
        }
        assert(sv.intervals.subrange(sv.next_interval, k as int) =~= sv.intervals.skip(
            sv.next_interval,
        ));
        remaining
    }
}

impl Component {
    /// A sweep never is further on than its intervals and events reach.
    fn sweep_is_sound(&self)
        ensures
            self@.sweep is Some ==> self@.sweep_left() >= 1,
            self@.sweep_left() >= 0,
            self@.events_left() >= 0,
    {
        match &self.sweep {
            Some(sweep) => {
                proof {
                    use_type_invariant(sweep);
                }
            },
            None => {},
        }
    }

    /// Gives a run up: what waits is dropped.
    fn reset(&mut self)
        ensures
            final(self)@ == old(self)@.given_up(),
    {
        self.pending_updates = Vec::new();
        self.reprocess_intervals = Vec::new();
        self.work = None;
        self.sweep = None;
        self.running = false;
        self.seq = 0;
        assert(self.pending_updates.deep_view() =~= Seq::<UpdateView>::empty());
        assert(self.reprocess_intervals@ =~= Seq::<ReprocessInterval>::empty());
    }

    /// Whether the store remembers an update as retracted: an event by its
    /// id, a package of deltas by its id or by the id of its origin.
    fn is_retracted(&self, update: &Update) -> (r: bool)
        ensures
            r == is_suppressed(self@.store, update@),
    {
        match update {
            Update::Event(e) => self.store.is_update_rectracted(e.event_id.as_str()),
            Update::Deltas(d) => self.store.is_update_rectracted(d.deltas_id.as_str())
                || self.store.is_update_rectracted(d.origin_id.as_str()),
            _ => false,
        }
    }

    /// Takes an update in, as far as that can be done without the
    /// application.
    fn dispatch(&mut self, update: Update)
        requires
            old(self).work is None,
        ensures
            dispatched(old(self)@, update@, final(self)@),
            final(self).sweep == old(self).sweep,
    {
        if self.is_retracted(&update) {
            return ;
        }
        match &update {
            Update::Event(event) => {
                self.store.add_new_event(event);
                let work = self.begin_event(event.dup());
                self.work = Some(work);
            },
            Update::Deltas(deltas) => {
                let ghost before = self.reprocess_intervals@;
                let mut new_intervals = process_new_deltas(&mut self.store, deltas);
                let ghost added = new_intervals@;
                self.reprocess_intervals.append(&mut new_intervals);
                self.counters.n_deltas = bump(self.counters.n_deltas);
                assert(self.reprocess_intervals@ =~= before + added);
                assert(added_to(old(self)@, self@) =~= added);
            },
            Update::Retractions(retractions) => {
                let ghost before = self.reprocess_intervals@;
                let mut new_intervals = process_retractions(&mut self.store, retractions.dup());
                let ghost added = new_intervals@;
                self.reprocess_intervals.append(&mut new_intervals);
                self.counters.n_retractions = bump(self.counters.n_retractions);
                assert(self.reprocess_intervals@ =~= before + added);
                assert(added_to(old(self)@, self@) =~= added);
            },
            Update::Stop => {},
        }
    }

    fn sort_pending(&mut self)
        ensures
            final(self)@ == (ComponentView {
                pending_updates: retractions_first(old(self)@.pending_updates),
                ..old(self)@
            }),
            final(self).sweep == old(self).sweep,
            final(self).work == old(self).work,
            final(self).seq == old(self).seq,
    {
        let mut updates: Vec<Update> = Vec::new();
        core::mem::swap(&mut self.pending_updates, &mut updates);
        self.pending_updates = sort_retractions_first(updates);
    }

    /// Asks the application for the next match of the event that is being
    /// worked on.
    fn ask(&mut self) -> (step: Step)
        requires
            old(self)@.work is Some,
            old(self)@.work->0.next < old(self)@.work->0.to_call.len(),
        ensures
            asked_step(old(self)@, final(self)@, step.deep_view()),
    {
        let work = self.work.take().unwrap();
        assert(work.to_call.deep_view().len() == work.to_call.len());
        assert(work.to_call.deep_view()[work.next as int] == work.to_call[work.next as int].deep_view());
        let request = create_application_request(
            self.query.name.dup(),
            self.query.application.dup(),
            &work.to_call[work.next].1,
            &self.query.graph,
            &work.event,
        );
        self.work = Some(work);
        match request {
            Some(request) => Step::Call(request),
            None => {
                self.reset();
                Step::Aborted(Abort::Unencodable)
            },
        }
    }

    /// Finishes the work on an event whose matches have all been answered.
    fn finish(&mut self, outbound: &mut Vec<Outbound>)
        requires
            old(self)@.work is Some,
        ensures
            finished_step(
                old(self)@,
                final(self)@,
                old(outbound).deep_view(),
                final(outbound).deep_view(),
            ),
            final(self)@.running == old(self)@.running,
            final(self)@.seq == old(self)@.seq,
            final(self)@.sweep_left() >= 0,
            final(self)@.events_left() >= 0,
            final(self)@.further_than(old(self)@),
    {
        self.sweep_is_sound();
        let ghost b = self@;
        let ghost out0 = outbound.deep_view();
        let work = self.work.take().unwrap();
        let event_timestamp = work.event.timestamp;
        let ghost pending = self.pending_updates.deep_view();
        let mut updates = self.finish_event(work, outbound);
        let ghost left = updates.deep_view();
        assert(is_finished(b, self@.store, out0, outbound.deep_view(), left));
        if self.sweep.is_some() {
            self.counters.n_reprocessing = bump(self.counters.n_reprocessing);
            if updates.len() > 0 {
                let sweep = self.sweep.take().unwrap();
                self.reprocess_intervals = sweep.intervals_left_of(event_timestamp);
                self.pending_updates.append(&mut updates);
                assert(self.pending_updates.deep_view() =~= pending + left);
                self.sort_pending();
            }
        } else {
            self.counters.n_events = bump(self.counters.n_events);
            self.pending_updates.append(&mut updates);
            assert(self.pending_updates.deep_view() =~= pending + left);
            self.sort_pending();
        }
        assert(self@ == after_event(b, self@.store, left));
    }

    /// Makes the next step of a sweep.
    fn sweep_on(&mut self)
        requires
            old(self)@.work is None,
            old(self)@.sweep is Some,
        ensures
            swept_step(old(self)@, final(self)@),
            final(self)@.running == old(self)@.running,
            final(self)@.seq == old(self)@.seq,
            final(self)@.sweep_left() >= 0,
            final(self)@.events_left() >= 0,
            final(self)@.further_than(old(self)@),
    {
        let mut sweep = self.sweep.take().unwrap();
        proof {
            use_type_invariant(&sweep);
        }
        let ghost sv = sweep.deep_view();
        if sweep.taken < sweep.event_ids.len() {
            assert(sv.event_ids[sv.taken] == sweep.event_ids[sweep.taken as int]@);
            let event = match self.store.get_event_by_event_id(&sweep.event_ids[sweep.taken]) {
                Some(e) => Some(e.dup()),
                None => None,
            };
            sweep.taken = sweep.taken + 1;
            proof {
                use_type_invariant(&sweep);
            }
            self.sweep = Some(sweep);
            match event {
                Some(e) => {
                    let work = self.begin_event(e);
                    self.work = Some(work);
                },
                None => {},
            }
        } else if sweep.next_interval < sweep.intervals.len() {
            let interval = sweep.intervals[sweep.next_interval];
            let event_ids = self.store.get_event_ids_in_interval(interval.from, interval.to);
            sweep.current = interval;
            sweep.next_interval = sweep.next_interval + 1;
            sweep.taken = 0;
            sweep.event_ids = event_ids;
            proof {
                use_type_invariant(&sweep);
            }
            self.sweep = Some(sweep);
        }
    }

    /// Makes the step between two events.
    fn pass(&mut self) -> (step: Option<Step>)
        requires
            old(self)@.work is None,
            old(self)@.sweep is None,
            old(self)@.seq <= MAX_ITERATIONS + 1,
        ensures
            passed_step(old(self)@, final(self)@, step.deep_view()),
            step is None ==> final(self)@.running == old(self)@.running && final(self)@.seq
                <= MAX_ITERATIONS + 1 && final(self)@.sweep_left() >= 0 && final(self)@.events_left() >= 0 && final(self)@.further_than(old(self)@),
    {
        let ghost b = self@;
        if self.pending_updates.len() == 0 && self.reprocess_intervals.len() == 0 {
            let summary = Summary {
                counters: self.counters.dup(),
                open_edges: self.store.count_open_edges(),
            };
            self.running = false;
            self.seq = 0;
            return Some(Step::Done(summary));
        }
        if self.seq > MAX_ITERATIONS {
            self.reset();
            return Some(Step::Aborted(Abort::Runaway));
        }
        self.seq = self.seq + 1;
        if self.pending_updates.len() == 0 {
            let mut intervals: Vec<ReprocessInterval> = Vec::new();
            core::mem::swap(&mut self.reprocess_intervals, &mut intervals);
            let sweep = Sweep::begin(find_non_redundant_intervals(intervals));
            self.sweep = Some(sweep);
            assert(self.reprocess_intervals@ =~= Seq::<ReprocessInterval>::empty());
        } else {
            let ghost pending = self.pending_updates.deep_view();
            let update = self.pending_updates.pop().unwrap();
            assert(self.pending_updates.deep_view() =~= pending.drop_last());
            assert(update.deep_view() == pending.last());
            assert(self@ == taken_off(b));
            self.dispatch(update);
            let ghost m = self@;
            if self.work.is_none() {
                self.sort_pending();
            }
            assert(dispatched(taken_off(b), b.pending_updates.last(), m));
        }
        None
    }

    /// Makes one step of the loop: asks the application for a match,
    /// finishes an event, goes on with a sweep, or takes the next update
    /// in. With a step the loop halts.
    pub fn advance(&mut self, outbound: &mut Vec<Outbound>) -> (step: Option<Step>)
        requires
            old(self)@.running,
            old(self)@.seq <= MAX_ITERATIONS + 1,
        ensures
            advanced(
                old(self)@,
                final(self)@,
                old(outbound).deep_view(),
                final(outbound).deep_view(),
                step.deep_view(),
            ),
            step is None ==> final(self)@.running && final(self)@.seq <= MAX_ITERATIONS + 1
                && final(self)@.further_than(old(self)@) && final(self)@.work_left() >= 0 && final(self)@.events_left() >= 0 && final(self)@.sweep_left() >= 0,
            step is Some ==> (step->0 is Call ==> final(self)@.waiting()) && (!(step->0 is Call)
                ==> final(self)@.idle()),
    {
        if self.work.is_some() {
            let more = match &self.work {
                Some(work) => work.next < work.to_call.len(),
                None => false,
            };
            if more {
                Some(self.ask())
            } else {
                self.finish(outbound);
                None
            }
        } else if self.sweep.is_some() {
            self.sweep_on();
            None
        } else {
            self.pass()
        }
    }

    /// Runs the loop until the application is needed or nothing is left to
    /// do.
    fn run(&mut self, outbound: &mut Vec<Outbound>) -> (step: Step)
        requires
            old(self)@.running,
            old(self)@.seq <= MAX_ITERATIONS + 1,
        ensures
            runs_to(
                (old(self)@, old(outbound).deep_view()),
                (final(self)@, final(outbound).deep_view()),
                step.deep_view(),
            ),
            step is Call ==> final(self)@.waiting(),
            !(step is Call) ==> final(self)@.idle(),
    {
        self.sweep_is_sound();
        let ghost mut trace: Seq<RunState> = seq![(self@, outbound.deep_view())];
        loop
            invariant
                self@.running,
                self@.seq <= MAX_ITERATIONS + 1,
                self@.sweep_left() >= 0,
                self@.events_left() >= 0,
                trace.len() >= 1,
                trace[0] == (old(self)@, old(outbound).deep_view()),
                trace.last() == (self@, outbound.deep_view()),
                forall|i: int| 0 <= i < trace.len() - 1 ==> #[trigger] goes_on(trace, i),
            decreases
                    self@.passes_left(),
                    self@.sweep_left(),
                    self@.events_left(),
                    self@.work_left(),
        {
            let ghost before = trace;
            let step = self.advance(outbound);
            proof {
                trace = before.push((self@, outbound.deep_view()));
                assert forall|i: int| 0 <= i < trace.len() - 2 implies #[trigger] goes_on(
                    trace,
                    i,
                ) by {
                    assert(goes_on(before, i));
                }
            }
            match step {
                Some(step) => {
                    assert(is_run(trace, step.deep_view()));
                    return step;
                },
                None => {
                    assert(goes_on(trace, trace.len() - 2));
                },
            }
        }
    }

    /// Takes an update in and processes it until the store is consistent or
    /// the application is needed. An update that the store remembers as
    /// retracted is ignored: an event by its id, a package of deltas by its
    /// id or by the id of its origin. Any other update is made to wait, and
    /// the loop runs, step by step, until it halts.
    pub fn process_update_until_consistency(&mut self, update: Update) -> (r: Progress)
        ensures
            !old(self)@.idle() ==> r.step == Step::Aborted(Abort::Busy) && final(self)@ == old(self)@ && r.outbound@.len() == 0,
            old(self)@.idle() ==> (r.step is Call ==> final(self)@.waiting()) && (!(r.step is Call)
                ==> final(self)@.idle()),
            old(self)@.idle() && is_suppressed(old(self)@.store, update@) ==> r.step.deep_view()
                == ignored(old(self)@.store) && r.outbound@.len() == 0 && final(self)@.store == old(self)@.store,
            old(self)@.idle() && !is_suppressed(old(self)@.store, update@) ==> runs_to(
                (started(old(self)@, update@), Seq::empty()),
                (final(self)@, r.outbound.deep_view()),
                r.step.deep_view(),
            ),
            final(self)@.router == old(self)@.router,
            final(self)@.query == old(self)@.query,
    {
        let mut outbound: Vec<Outbound> = Vec::new();
        if !self.is_idle() {
            return Progress { outbound, step: Step::Aborted(Abort::Busy) };
        }
        self.counters = Counters { n_deltas: 0, n_events: 0, n_retractions: 0, n_reprocessing: 0 };
        self.seq = 0;
        if self.is_retracted(&update) {
            let summary = Summary {
                counters: self.counters.dup(),
                open_edges: self.store.count_open_edges(),
            };
            return Progress { outbound, step: Step::Done(summary) };
        }
        self.running = true;
        let ghost pending = self.pending_updates.deep_view();
        let ghost uv = update@;
        self.pending_updates.push(update);
        assert(self.pending_updates.deep_view() =~= pending.push(uv));
        assert(outbound.deep_view() =~= Seq::<OutboundView>::empty());
        let ghost begun = self@;
        let step = self.run(&mut outbound);
        proof {
            lemma_run_keeps(
                (begun, Seq::<OutboundView>::empty()),
                (self@, outbound.deep_view()),
                step.deep_view(),
            );
        }
        Progress { outbound, step }
    }

    /// Records what the application has answered for the match that the
    /// component has asked for, and sends what the answer gives.
    pub fn record(&mut self, deltas: Vec<Delta>, outbound: &mut Vec<Outbound>)
        requires
            old(self)@.waiting(),
        ensures
            is_recorded(
                old(self)@,
                deltas.deep_view(),
                final(self)@,
                old(outbound).deep_view(),
                final(outbound).deep_view(),
            ),
            final(self)@.running,
            final(self)@.seq == old(self)@.seq,
    {
        let work = self.work.take().unwrap();
        let work = self.record_output(work, deltas, outbound);
        self.work = Some(work);
    }

    /// Takes in what the application has answered, records it, and goes on
    /// with the loop until it halts again.
    pub fn resume(&mut self, deltas: Vec<Delta>) -> (r: Progress)
        ensures
            !old(self)@.waiting() ==> r.step == Step::Aborted(Abort::NotWaiting) && final(self)@
                == old(self)@ && r.outbound@.len() == 0,
            old(self)@.waiting() ==> (r.step is Call ==> final(self)@.waiting()) && (!(r.step
                is Call) ==> final(self)@.idle()),
            old(self)@.waiting() ==> exists|m: RunState| #[trigger]
                is_recorded(old(self)@, deltas.deep_view(), m.0, Seq::empty(), m.1) && runs_to(
                    m,
                    (final(self)@, r.outbound.deep_view()),
                    r.step.deep_view(),
                ),
            final(self)@.router == old(self)@.router,
            final(self)@.query == old(self)@.query,
    {
        let mut outbound: Vec<Outbound> = Vec::new();
        if !self.is_waiting() {
            return Progress { outbound, step: Step::Aborted(Abort::NotWaiting) };
        }
        assert(outbound.deep_view() =~= Seq::<OutboundView>::empty());
        let ghost answer = deltas.deep_view();
        self.record(deltas, &mut outbound);
        let ghost m: RunState = (self@, outbound.deep_view());
        assert(is_recorded(old(self)@, answer, m.0, Seq::empty(), m.1));
        let step = self.run(&mut outbound);
        proof {
            lemma_run_keeps(m, (self@, outbound.deep_view()), step.deep_view());
        }
        Progress { outbound, step }
    }
}

/// An event that is processed a second time in the same world gives no
/// work. The world is the same where the event has the same matches by
/// hash. A first run that asks the application for every new match leaves
/// on record, for the event, the outputs of the new matches together with
/// those of the former matches that are not stale; or, where nothing was
/// new and nothing stale, what was on record before. Against that record
/// no match is new and none is stale: the second run asks for nothing,
/// sends nothing and retracts nothing.
pub proof fn lemma_event_twice(
    by_hash: Seq<(u64, Seq<MatchEntries>)>,
    previous: Seq<(u64, Option<u64>)>,
    new_outputs: Map<u64, Option<u64>>,
    again: Seq<(u64, Option<u64>)>,
)
    requires
        strictly_sorted::<u64>(keys_of(by_hash)),
        strictly_sorted::<u64>(keys_of(again)),
        forall|k: u64| #[trigger]
            new_outputs.contains_key(k) <==> has_key(
                new_matches(by_hash, previous, by_hash.len() as int),
                k,
            ),
        as_map(again) == merged_outputs(
            new_outputs,
            previous,
            stale_matches(previous, by_hash, previous.len() as int),
            previous.len() as int,
        ) || (again == previous && new_matches(by_hash, previous, by_hash.len() as int).len() == 0
            && stale_matches(previous, by_hash, previous.len() as int).len() == 0),
    ensures
        new_matches(by_hash, again, by_hash.len() as int).len() == 0,
        stale_matches(again, by_hash, again.len() as int).len() == 0,
{
    if as_map(again) == merged_outputs(
        new_outputs,
        previous,
        stale_matches(previous, by_hash, previous.len() as int),
        previous.len() as int,
    ) {
        let a = keys_of(again);
        let b = keys_of(by_hash);
        assert forall|h: u64| a.to_set().contains(h) == b.to_set().contains(h) by {
            lemma_processed_event_is_settled(by_hash, previous, new_outputs, h);
            assert(as_map(again).contains_key(h) == has_key(again, h));
            if has_key(again, h) {
                let i = crate::ordered::index_of_key(again, h);
                assert(a[i] == h);
                assert(a.contains(h));
            }
            if a.contains(h) {
                let i = choose|i: int| 0 <= i < a.len() && a[i] == h;
                assert(again[i].0 == h);
            }
            if has_key(by_hash, h) {
                let i = crate::ordered::index_of_key(by_hash, h);
                assert(b[i] == h);
                assert(b.contains(h));
            }
            if b.contains(h) {
                let i = choose|i: int| 0 <= i < b.len() && b[i] == h;
                assert(by_hash[i].0 == h);
            }
        }
        assert(a.to_set() =~= b.to_set());
        crate::ordered::lemma_sorted_unique::<u64>(a, b);
        lemma_settled_event_gives_no_work(by_hash, again);
    }
}

/// A retraction takes effect: once a coherent store has taken it in, each
/// id that it names is remembered as retracted, the package of the id is
/// gone, no delta of the package is left in the history of any edge, and an
/// event or a package of deltas that comes later under the id, or a package
/// whose origin has the id, is ignored.
pub proof fn lemma_retraction_takes_effect(
    b: StoreView,
    rs: RetractionsView,
    a: StoreView,
    r: Seq<ReprocessInterval>,
    id: Seq<char>,
)
    requires
        coherent(b),
        retractions_ingested(b, rs, a, r),
        rs.deltas_ids.contains(id),
    ensures
        a.retracted().contains(id),
        !a.packages().contains_key(id),
        forall|shape: EdgeView, x: DeltaAndDeltasIdView| #[trigger]
            a.deltas_of(shape).contains(x) ==> x.deltas_id != id,
        forall|e: EventView| e.event_id == id ==> #[trigger] is_suppressed(a, UpdateView::Event(e)),
        forall|ds: DeltasView|
            ds.deltas_id == id || ds.origin_id == id ==> #[trigger] is_suppressed(
                a,
                UpdateView::Deltas(ds),
            ),
{
    assert(rs.deltas_ids.to_set().contains(id));
}

/// Whether an event is settled in a store: the store has an output on
/// record for exactly the matches that the event has in it, however they
/// are grouped and hashed.
pub open spec fn is_settled(q: QueryView, v: StoreView, e: EventView) -> bool {
    forall|groups: Seq<Seq<MatchEntries>>, by_hash: Seq<(u64, Seq<MatchEntries>)>|
        #![trigger is_matching(q, match_edges(v, e.timestamp), groups), keys_of(by_hash)]
        is_matching(q, match_edges(v, e.timestamp), groups) && strictly_sorted::<u64>(
            keys_of(by_hash),
        ) && as_map(by_hash) == crate::ordered::entries_map(hashed(groups)) ==> v.outputs().contains_key(
            e.event_id,
        ) && keys_of(v.outputs()[e.event_id]) == keys_of(by_hash)
}

/// The work on a settled event, as it begins, is empty: no match is to be
/// asked for, and none to be retracted.
pub proof fn lemma_settled_event_begins_empty(q: QueryView, v: StoreView, w: EventWorkView)
    requires
        is_begun(q, v, w.event, w),
        is_settled(q, v, w.event),
    ensures
        w.next == 0,
        w.to_call.len() == 0,
        w.to_retract.len() == 0,
        w.gone.len() == 0,
        w.new_outputs.len() == 0,
        w.updates.len() == 0,
{
    let e = w.event;
    let (groups, by_hash) = choose|
        groups: Seq<Seq<MatchEntries>>,
        by_hash: Seq<(u64, Seq<MatchEntries>)>,
    |
        #![trigger is_matching(q, match_edges(v, e.timestamp), groups), keys_of(by_hash)]
        is_matching(q, match_edges(v, e.timestamp), groups) && strictly_sorted::<u64>(
            keys_of(by_hash),
        ) && as_map(by_hash) == crate::ordered::entries_map(hashed(groups)) && w.to_call
            == new_matches(by_hash, w.previous, by_hash.len() as int) && w.to_retract
            == stale_matches(w.previous, by_hash, w.previous.len() as int) && w.gone
            == w.to_retract;
    lemma_settled_event_gives_no_work(by_hash, w.previous);
}

/// Finishing empty work does nothing: the step leaves the store as it is,
/// sends nothing, and lets nothing new wait; a sweep goes on.
pub proof fn lemma_empty_work_changes_nothing(
    b: ComponentView,
    a: ComponentView,
    out0: Seq<OutboundView>,
    out1: Seq<OutboundView>,
    step: Option<StepView>,
)
    requires
        b.work is Some,
        b.work->0.next == 0,
        b.work->0.to_call.len() == 0,
        b.work->0.to_retract.len() == 0,
        b.work->0.gone.len() == 0,
        b.work->0.new_outputs.len() == 0,
        b.work->0.updates.len() == 0,
        advanced(b, a, out0, out1, step),
    ensures
        step is None,
        a.store == b.store,
        out1 == out0,
        a.work is None,
        a.sweep == b.sweep,
        a.reprocess_intervals == b.reprocess_intervals,
        a.pending_updates == (if b.sweep is Some {
            b.pending_updates
        } else {
            retractions_first(b.pending_updates)
        }),
{
    assert(finished_step(b, a, out0, out1));
    let updates = choose|updates: Seq<UpdateView>| #[trigger]
        is_finished(b, a.store, out0, out1, updates) && a == after_event(b, a.store, updates);
    assert(updates =~= Seq::<UpdateView>::empty());
    assert(b.pending_updates + updates =~= b.pending_updates);
}

/// Processing an event again in a world that has not changed does nothing:
/// where the work on a settled event has just begun, the step that follows
/// finishes it without asking the application, leaves the store as it is,
/// sends nothing, and lets nothing new wait; a sweep goes on.
pub proof fn lemma_settled_event_changes_nothing(
    b: ComponentView,
    a: ComponentView,
    out0: Seq<OutboundView>,
    out1: Seq<OutboundView>,
    step: Option<StepView>,
)
    requires
        b.work is Some,
        is_begun(b.query, b.store, b.work->0.event, b.work->0),
        is_settled(b.query, b.store, b.work->0.event),
        advanced(b, a, out0, out1, step),
    ensures
        step is None,
        a.store == b.store,
        out1 == out0,
        a.work is None,
        a.sweep == b.sweep,
        a.reprocess_intervals == b.reprocess_intervals,
        a.pending_updates == (if b.sweep is Some {
            b.pending_updates
        } else {
            retractions_first(b.pending_updates)
        }),
{
    lemma_settled_event_begins_empty(b.query, b.store, b.work->0);
    lemma_empty_work_changes_nothing(b, a, out0, out1, step);
}

/// A step of the loop changes neither the router nor the query of the
/// component.
pub proof fn lemma_step_keeps(
    b: ComponentView,
    a: ComponentView,
    out0: Seq<OutboundView>,
    out1: Seq<OutboundView>,
    step: Option<StepView>,
)
    requires
        advanced(b, a, out0, out1, step),
    ensures
        a.router == b.router,
        a.query == b.query,
{
}

/// A run of the loop changes neither the router nor the query of the
/// component.
pub proof fn lemma_run_keeps(from: RunState, to: RunState, step: StepView)
    requires
        runs_to(from, to, step),
    ensures
        to.0.router == from.0.router,
        to.0.query == from.0.query,
{
    let trace = choose|trace: Seq<RunState>| #[trigger]
        is_run(trace, step) && trace[0] == from && trace.last() == to;
    lemma_trace_keeps(trace, trace.len() - 2);
    lemma_step_keeps(
        trace[trace.len() - 2].0,
        trace.last().0,
        trace[trace.len() - 2].1,
        trace.last().1,
        Some(step),
    );
}

proof fn lemma_trace_keeps(trace: Seq<RunState>, n: int)
    requires
        0 <= n <= trace.len() - 2,
        forall|i: int| 0 <= i < trace.len() - 2 ==> #[trigger] goes_on(trace, i),
    ensures
        trace[n].0.router == trace[0].0.router,
        trace[n].0.query == trace[0].0.query,
    decreases n,
{
    if n > 0 {
        lemma_trace_keeps(trace, n - 1);
        assert(goes_on(trace, n - 1));
        lemma_step_keeps(trace[n - 1].0, trace[n].0, trace[n - 1].1, trace[n].1, None);
    }
}

/// Whether a store remembers an update as retracted.
pub open spec fn is_suppressed(v: StoreView, u: UpdateView) -> bool {
    match u {
        UpdateView::Event(e) => v.retracted().contains(e.event_id),
        UpdateView::Deltas(d) => v.retracted().contains(d.deltas_id) || v.retracted().contains(
            d.origin_id,
        ),
        _ => false,
    }
}

proof fn lemma_new_matches_keys(
    by_hash: Seq<(u64, Seq<MatchEntries>)>,
    previous: Seq<(u64, Option<u64>)>,
    n: int,
    h: u64,
)
    requires
        0 <= n <= by_hash.len(),
    ensures
        has_key(new_matches(by_hash, previous, n), h) <==> (!has_key(previous, h) && has_key(
            by_hash.take(n),
            h,
        )),
    decreases n,
{
    if n > 0 {
        lemma_new_matches_keys(by_hash, previous, n - 1, h);
        let rest = new_matches(by_hash, previous, n - 1);
        let cur = new_matches(by_hash, previous, n);
        let head = by_hash.take(n - 1);
        let all = by_hash.take(n);
        if has_key(head, h) {
            let k = crate::ordered::index_of_key(head, h);
            assert(all[k].0 == h);
        }
        if has_key(all, h) {
            let k = crate::ordered::index_of_key(all, h);
            if k < n - 1 {
                assert(head[k].0 == h);
            }
        }
        if by_hash[n - 1].0 == h {
            assert(all[n - 1].0 == h);
        }
        if has_key(rest, h) {
            let k = crate::ordered::index_of_key(rest, h);
            assert(cur[k].0 == h);
        }
        if has_key(cur, h) {
            let k = crate::ordered::index_of_key(cur, h);
            if k < rest.len() {
                assert(rest[k].0 == h);
            }
        }
        if !has_key(previous, by_hash[n - 1].0) {
            assert(cur[rest.len() as int].0 == by_hash[n - 1].0);
        }
    }
}

proof fn lemma_stale_members(
    previous: Seq<(u64, Option<u64>)>,
    by_hash: Seq<(u64, Seq<MatchEntries>)>,
    n: int,
    h: u64,
)
    requires
        0 <= n <= previous.len(),
    ensures
        stale_matches(previous, by_hash, n).contains(h) <==> (!has_key(by_hash, h) && has_key(
            previous.take(n),
            h,
        )),
    decreases n,
{
    if n > 0 {
        lemma_stale_members(previous, by_hash, n - 1, h);
        let rest = stale_matches(previous, by_hash, n - 1);
        let head = previous.take(n - 1);
        let all = previous.take(n);
        if has_key(head, h) {
            let k = crate::ordered::index_of_key(head, h);
            assert(all[k].0 == h);
        }
        if has_key(all, h) {
            let k = crate::ordered::index_of_key(all, h);
            if k < n - 1 {
                assert(head[k].0 == h);
            }
        }
        if previous[n - 1].0 == h {
            assert(all[n - 1].0 == h);
        }
        if !has_key(by_hash, previous[n - 1].0) {
            crate::ordered::lemma_insert_contains(rest, rest.len() as int, previous[n - 1].0, h);
            assert(rest.insert(rest.len() as int, previous[n - 1].0) =~= rest.push(
                previous[n - 1].0,
            ));
        }
    }
}

proof fn lemma_merged_keys(
    new_outputs: Map<u64, Option<u64>>,
    previous: Seq<(u64, Option<u64>)>,
    gone: Seq<u64>,
    n: int,
    h: u64,
)
    requires
        0 <= n <= previous.len(),
    ensures
        merged_outputs(new_outputs, previous, gone, n).contains_key(h) <==> (
        new_outputs.contains_key(h) || (!gone.contains(h) && has_key(previous.take(n), h))),
    decreases n,
{
    if n > 0 {
        lemma_merged_keys(new_outputs, previous, gone, n - 1, h);
        let head = previous.take(n - 1);
        let all = previous.take(n);
        if has_key(head, h) {
            let k = crate::ordered::index_of_key(head, h);
            assert(all[k].0 == h);
        }
        if has_key(all, h) {
            let k = crate::ordered::index_of_key(all, h);
            if k < n - 1 {
                assert(head[k].0 == h);
            }
        }
        if previous[n - 1].0 == h {
            assert(all[n - 1].0 == h);
        }
    }
}

/// An event that has been processed is settled: once the application has
/// been asked for every new match, the outputs on record are those of
/// exactly the matches that the event has.
pub proof fn lemma_processed_event_is_settled(
    by_hash: Seq<(u64, Seq<MatchEntries>)>,
    previous: Seq<(u64, Option<u64>)>,
    new_outputs: Map<u64, Option<u64>>,
    h: u64,
)
    requires
        forall|k: u64| #[trigger]
            new_outputs.contains_key(k) <==> has_key(
                new_matches(by_hash, previous, by_hash.len() as int),
                k,
            ),
    ensures
        merged_outputs(
            new_outputs,
            previous,
            stale_matches(previous, by_hash, previous.len() as int),
            previous.len() as int,
        ).contains_key(h) <==> has_key(by_hash, h),
{
    let gone = stale_matches(previous, by_hash, previous.len() as int);
    lemma_merged_keys(new_outputs, previous, gone, previous.len() as int, h);
    lemma_stale_members(previous, by_hash, previous.len() as int, h);
    lemma_new_matches_keys(by_hash, previous, by_hash.len() as int, h);
    assert(previous.take(previous.len() as int) =~= previous);
    assert(by_hash.take(by_hash.len() as int) =~= by_hash);
}

} // verus!
