//! The router of a component: which peers must see a delta that the
//! component emits, and the packages and retractions that it sends them.

use crate::event::{Deltas, DeltasView, Retractions, RetractionsView, Update, UpdateView};
use crate::graph::{
    edge_without_particulars, edge_without_query_names, shape_of, Delta, DeltaView, Edge, EdgeView,
};
use crate::order::{same, Sortable, Value};
use crate::ordered::{
    add_to_set_at, as_map, has_key, index_of_key, keys_of, lemma_entry_at, lemma_insert_contains,
    set_at, strictly_sorted, value_of, OrderedMap, OrderedSet,
};
use crate::query::{passes, passes_filter, Query, QueryView};
use crate::store::{count_unset, lemma_set_flag, TopicNameAndDeltasId, TopicNameAndDeltasIdView};
use vstd::prelude::*;

verus! {

/// Whether a pattern has an edge that an output edge can stand for: same
/// edge type and node classes, and the node types and instance names that
/// the pattern edge names.
pub open spec fn admits(pattern: Seq<EdgeView>, o: EdgeView) -> bool {
    exists|k: int| 0 <= k < pattern.len() && passes_filter(#[trigger] pattern[k], o)
}

/// The output edges that a pattern admits, in their order.
pub open spec fn admitted(outputs: Seq<EdgeView>, pattern: Seq<EdgeView>) -> Seq<EdgeView>
    decreases outputs.len(),
{
    if outputs.len() == 0 {
        outputs
    } else {
        let rest = admitted(outputs.drop_last(), pattern);
        if admits(pattern, outputs.last()) {
            rest.push(outputs.last())
        } else {
            rest
        }
    }
}

/// The queries by name.
pub type Queries = Seq<(Seq<char>, QueryView)>;

/// Whether a query of the given name admits an output edge with the given
/// shape, its query-side names forgotten.
pub open spec fn forwards(outputs: Seq<EdgeView>, all: Queries, key: EdgeView, name: Seq<char>) -> bool {
    has_key(all, name) && exists|k: int|
        0 <= k < outputs.len() && edge_without_query_names(#[trigger] outputs[k]) == key && admits(
            value_of(all, name).graph.edges,
            outputs[k],
        )
}

/// Whether an output edge has the given shape, its query-side names
/// forgotten.
pub open spec fn is_output_shape(outputs: Seq<EdgeView>, key: EdgeView) -> bool {
    exists|k: int| 0 <= k < outputs.len() && edge_without_query_names(#[trigger] outputs[k]) == key
}

/// The edge-forward map of a query: for each shape of its output edges, the
/// queries whose pattern admits it.
pub open spec fn is_forward_map(
    outputs: Seq<EdgeView>,
    all: Queries,
    m: Seq<(EdgeView, Seq<Seq<char>>)>,
) -> bool {
    &&& strictly_sorted::<Edge>(keys_of(m))
    &&& forall|key: EdgeView| #[trigger] has_key(m, key) <==> is_output_shape(outputs, key)
    &&& forall|key: EdgeView, name: Seq<char>| #[trigger]
        set_at(m, key).contains(name) <==> forwards(outputs, all, key, name)
}

fn pattern_admits(pattern: &Vec<Edge>, o: &Edge) -> (r: bool)
    ensures
        r == admits(pattern.deep_view(), o@),
{
    let ghost pv = pattern.deep_view();
    let mut k: usize = 0;
    while k < pattern.len()
        invariant
            k <= pattern.len(),
            pv == pattern.deep_view(),
            forall|j: int| 0 <= j < k ==> !passes_filter(#[trigger] pv[j], o@),
        decreases pattern.len() - k,
    {
        if passes(&pattern[k], o) {
            assert(passes_filter(pv[k as int], o@));
            return true;
        }
        k = k + 1;
    }
    false
}

/// The output edges of one query that the pattern of another admits.
pub fn find_output_edges<'a>(src_query: &'a Query, trg_query: &Query) -> (r: Vec<&'a Edge>)
    ensures
        r.deep_view() == admitted(src_query@.output_edges, trg_query@.graph.edges),
{
    let mut edges: Vec<&Edge> = Vec::new();
    let ghost ov = src_query@.output_edges;
    let ghost pv = trg_query@.graph.edges;
    let mut i: usize = 0;
    assert(edges.deep_view() =~= admitted(ov.take(0), pv));
    while i < src_query.output_edges.len()
        invariant
            i <= ov.len(),
            ov == src_query.output_edges@,
            pv == trg_query.graph.edges.deep_view(),
            edges.deep_view() == admitted(ov.take(i as int), pv),
        decreases ov.len() - i,
    {
        let o = src_query.output_edges.at(i);
        proof {
            let cur = ov.take(i + 1);
            assert(cur.drop_last() =~= ov.take(i as int));
            assert(cur.last() == ov[i as int]);
        }
        if pattern_admits(&trg_query.graph.edges, o) {
            let ghost prev = edges.deep_view();
            edges.push(o);
            assert(edges.deep_view() =~= prev.push(o@));
        }
        i = i + 1;
    }
    assert(ov.take(i as int) =~= ov);
    edges
}

proof fn lemma_admitted_members(outputs: Seq<EdgeView>, pattern: Seq<EdgeView>, x: EdgeView)
    ensures
        admitted(outputs, pattern).contains(x) <==> (outputs.contains(x) && admits(pattern, x)),
    decreases outputs.len(),
{
    if outputs.len() > 0 {
        let head = outputs.drop_last();
        lemma_admitted_members(head, pattern, x);
        assert(outputs =~= head.push(outputs.last()));
        lemma_insert_contains(head, head.len() as int, outputs.last(), x);
        assert(head.insert(head.len() as int, outputs.last()) =~= outputs);
        let rest = admitted(head, pattern);
        if admits(pattern, outputs.last()) {
            lemma_insert_contains(rest, rest.len() as int, outputs.last(), x);
            assert(rest.insert(rest.len() as int, outputs.last()) =~= rest.push(outputs.last()));
        }
    }
}

/// The edge-forward map of a query among all queries: for each shape of its
/// output edges, the names of the queries whose pattern admits it. A name
/// that is not among the queries has an empty map.
pub fn compute_edge_forward_map(
    query_name: String,
    all_queries_by_name: &OrderedMap<String, Query>,
) -> (r: OrderedMap<Edge, OrderedSet<String>>)
    ensures
        has_key(all_queries_by_name@, query_name@) ==> is_forward_map(
            value_of(all_queries_by_name@, query_name@).output_edges,
            all_queries_by_name@,
            r@,
        ),
        !has_key(all_queries_by_name@, query_name@) ==> r@.len() == 0,
{
    let mut edge_forward_map: OrderedMap<Edge, OrderedSet<String>> = OrderedMap::new();
    let my_query = match all_queries_by_name.get(&query_name) {
        Some(q) => q,
        None => {
            return edge_forward_map;
        },
    };
    let ghost all = all_queries_by_name@;
    let ghost ov = my_query@.output_edges;
    let mut i: usize = 0;
    proof {
        assert(keys_of(edge_forward_map@) =~= Seq::<EdgeView>::empty());
    }
    while i < my_query.output_edges.len()
        invariant
            i <= ov.len(),
            ov == my_query.output_edges@,
            strictly_sorted::<Edge>(keys_of(edge_forward_map@)),
            forall|key: EdgeView| #[trigger]
                has_key(edge_forward_map@, key) <==> is_output_shape(ov.take(i as int), key),
            forall|key: EdgeView| #[trigger]
                has_key(edge_forward_map@, key) ==> value_of(edge_forward_map@, key).len() == 0,
        decreases ov.len() - i,
    {
        let mut o_without_query_name = my_query.output_edges.at(i).dup();
        o_without_query_name.forget_query_node_name();
        let ghost before = edge_forward_map@;
        let ghost kv = o_without_query_name@;
        edge_forward_map.insert(o_without_query_name, OrderedSet::new());
        proof {
            let cur = ov.take(i + 1);
            let head = ov.take(i as int);
            assert forall|key: EdgeView| #[trigger]
                has_key(edge_forward_map@, key) <==> is_output_shape(cur, key) by {
                assert(has_key(edge_forward_map@, key) == as_map(edge_forward_map@).dom().contains(
                    key,
                ));
                assert(has_key(before, key) == as_map(before).dom().contains(key));
                if is_output_shape(cur, key) {
                    let k = choose|k: int|
                        0 <= k < cur.len() && edge_without_query_names(#[trigger] cur[k]) == key;
                    if k < i {
                        assert(head[k] == cur[k]);
                        assert(is_output_shape(head, key));
                    }
                }
                if is_output_shape(head, key) {
                    let k = choose|k: int|
                        0 <= k < head.len() && edge_without_query_names(#[trigger] head[k]) == key;
                    assert(cur[k] == head[k]);
                }
                if key == kv {
                    assert(edge_without_query_names(cur[i as int]) == key);
                }
            }
            assert forall|key: EdgeView| #[trigger]
                has_key(edge_forward_map@, key) implies value_of(edge_forward_map@, key).len()
                == 0 by {
                assert(has_key(edge_forward_map@, key) == as_map(edge_forward_map@).dom().contains(
                    key,
                ));
                assert(has_key(before, key) == as_map(before).dom().contains(key));
                assert(value_of(edge_forward_map@, key) == as_map(edge_forward_map@)[key]);
                if key != kv {
                    assert(value_of(before, key) == as_map(before)[key]);
                }
            }
        }
        i = i + 1;
    }
    assert(ov.take(i as int) =~= ov);
    let ghost shapes = edge_forward_map@;
    let mut q: usize = 0;
    proof {
        use_type_invariant(all_queries_by_name);
        assert forall|key: EdgeView, name: Seq<char>| #[trigger]
            set_at(edge_forward_map@, key).contains(name) <==> (forwards(ov, all.take(0), key, name))
        by {
            if has_key(edge_forward_map@, key) {
                assert(value_of(edge_forward_map@, key).len() == 0);
                assert(value_of(edge_forward_map@, key).to_set() =~= Set::<Seq<char>>::empty());
            }
            assert(!has_key(all.take(0), name));
        }
    }
    while q < all_queries_by_name.len()
        invariant
            q <= all.len(),
            all == all_queries_by_name@,
            ov == my_query.output_edges@,
            ov == my_query@.output_edges,
            strictly_sorted::<String>(keys_of(all)),
            strictly_sorted::<Edge>(keys_of(edge_forward_map@)),
            forall|key: EdgeView| #[trigger]
                has_key(edge_forward_map@, key) <==> is_output_shape(ov, key),
            forall|key: EdgeView, name: Seq<char>| #[trigger]
                set_at(edge_forward_map@, key).contains(name) <==> forwards(
                    ov,
                    all.take(q as int),
                    key,
                    name,
                ),
        decreases all.len() - q,
    {
        let name = all_queries_by_name.key_at(q);
        let query = all_queries_by_name.value_at(q);
        let output_edges = find_output_edges(my_query, query);
        let ghost av = output_edges.deep_view();
        let ghost start = edge_forward_map@;
        let ghost nv = name@;
        let ghost pv = query@.graph.edges;
        let mut k: usize = 0;
        while k < output_edges.len()
            invariant
                k <= output_edges.len(),
                av == output_edges.deep_view(),
                av == admitted(ov, pv),
                nv == name@,
                strictly_sorted::<Edge>(keys_of(edge_forward_map@)),
                forall|key: EdgeView| #[trigger]
                    has_key(edge_forward_map@, key) <==> is_output_shape(ov, key),
                forall|key: EdgeView, n: Seq<char>| #[trigger]
                    set_at(edge_forward_map@, key).contains(n) <==> (set_at(start, key).contains(n)
                        || (n == nv && exists|j: int|
                        0 <= j < k && edge_without_query_names(#[trigger] av[j]) == key)),
            decreases output_edges.len() - k,
        {
            let mut o_without_query_name = output_edges[k].dup();
            o_without_query_name.forget_query_node_name();
            let ghost before = edge_forward_map@;
            let ghost kv = o_without_query_name@;
            proof {
                assert(av.contains(av[k as int]));
                lemma_admitted_members(ov, pv, av[k as int]);
                let j = choose|j: int| 0 <= j < ov.len() && ov[j] == av[k as int];
                assert(edge_without_query_names(ov[j]) == kv);
                assert(is_output_shape(ov, kv));
            }
            add_to_set_at(&mut edge_forward_map, o_without_query_name, name.dup());
            proof {
                assert forall|key: EdgeView| #[trigger]
                    has_key(edge_forward_map@, key) <==> is_output_shape(ov, key) by {
                    assert(has_key(edge_forward_map@, key) == as_map(
                        edge_forward_map@,
                    ).dom().contains(key));
                    assert(has_key(before, key) == as_map(before).dom().contains(key));
                }
                assert forall|key: EdgeView, n: Seq<char>| #[trigger]
                    set_at(edge_forward_map@, key).contains(n) <==> (set_at(start, key).contains(n)
                        || (n == nv && exists|j: int|
                        0 <= j < k + 1 && edge_without_query_names(#[trigger] av[j]) == key)) by {
                    assert(set_at(before, key).contains(n) <==> (set_at(start, key).contains(n) || (
                    n == nv && exists|j: int|
                        0 <= j < k && edge_without_query_names(#[trigger] av[j]) == key)));
                    if exists|j: int|
                        0 <= j < k && edge_without_query_names(#[trigger] av[j]) == key {
                        let j = choose|j: int|
                            0 <= j < k && edge_without_query_names(#[trigger] av[j]) == key;
                        assert(0 <= j < k + 1);
                    }
                    if key == kv {
                        assert(edge_without_query_names(av[k as int]) == key);
                    }
                    if exists|j: int|
                        0 <= j < k + 1 && edge_without_query_names(#[trigger] av[j]) == key {
                        let j = choose|j: int|
                            0 <= j < k + 1 && edge_without_query_names(#[trigger] av[j]) == key;
                        if j < k {
                        } else {
                            assert(key == kv);
                        }
                    }
                }
            }
            k = k + 1;
        }
        proof {
            lemma_entry_at::<String, QueryView>(all, q as int);
            let cur = all.take(q + 1);
            let head = all.take(q as int);
            assert forall|key: EdgeView, n: Seq<char>| #[trigger]
                set_at(edge_forward_map@, key).contains(n) <==> forwards(ov, cur, key, n) by {
                assert(set_at(start, key).contains(n) <==> forwards(ov, head, key, n));
                lemma_take_queries(all, q as int, n);
                if n == nv {
                    if forwards(ov, cur, key, n) {
                        let j = choose|j: int|
                            0 <= j < ov.len() && edge_without_query_names(#[trigger] ov[j]) == key
                                && admits(value_of(cur, n).graph.edges, ov[j]);
                        lemma_admitted_members(ov, pv, ov[j]);
                        assert(ov.contains(ov[j]));
                        let x = choose|x: int| 0 <= x < av.len() && av[x] == ov[j];
                        assert(edge_without_query_names(av[x]) == key);
                    }
                    if exists|j: int|
                        0 <= j < av.len() && edge_without_query_names(#[trigger] av[j]) == key {
                        let j = choose|j: int|
                            0 <= j < av.len() && edge_without_query_names(#[trigger] av[j]) == key;
                        assert(av.contains(av[j]));
                        lemma_admitted_members(ov, pv, av[j]);
                        let x = choose|x: int| 0 <= x < ov.len() && ov[x] == av[j];
                        assert(edge_without_query_names(ov[x]) == key);
                    }
                    assert(!forwards(ov, head, key, n));
                } else {
                    if has_key(head, n) {
                        assert(value_of(cur, n) == value_of(head, n));
                    }
                }
            }
        }
        q = q + 1;
    }
    assert(all.take(q as int) =~= all);
    edge_forward_map
}

/// What the first entries and the next one give a name.
proof fn lemma_take_queries(s: Queries, i: int, name: Seq<char>)
    requires
        strictly_sorted::<String>(keys_of(s)),
        0 <= i < s.len(),
    ensures
        has_key(s.take(i + 1), name) <==> (name == s[i].0 || has_key(s.take(i), name)),
        name == s[i].0 ==> !has_key(s.take(i), name) && value_of(s.take(i + 1), name) == s[i].1,
        has_key(s.take(i), name) ==> value_of(s.take(i + 1), name) == value_of(s.take(i), name),
{
    let head = s.take(i);
    let cur = s.take(i + 1);
    assert(strictly_sorted::<String>(keys_of(cur))) by {
        assert forall|a: int, b: int| 0 <= a < b < keys_of(cur).len() implies String::before(
            #[trigger] keys_of(cur)[a],
            #[trigger] keys_of(cur)[b],
        ) by {
            assert(String::before(keys_of(s)[a], keys_of(s)[b]));
        }
    }
    assert(strictly_sorted::<String>(keys_of(head))) by {
        assert forall|a: int, b: int| 0 <= a < b < keys_of(head).len() implies String::before(
            #[trigger] keys_of(head)[a],
            #[trigger] keys_of(head)[b],
        ) by {
            assert(String::before(keys_of(s)[a], keys_of(s)[b]));
        }
    }
    if has_key(head, name) {
        let j = index_of_key(head, name);
        assert(cur[j].0 == name);
        lemma_entry_at::<String, QueryView>(cur, j);
        lemma_entry_at::<String, QueryView>(head, j);
        if name == s[i].0 {
            assert(keys_of(s)[j] == keys_of(s)[i]);
            crate::ordered::lemma_sorted_distinct::<String>(keys_of(s), i, j);
        }
    }
    if has_key(cur, name) {
        let j = index_of_key(cur, name);
        if j < i {
            assert(head[j].0 == name);
        }
    }
    if name == s[i].0 {
        assert(cur[i].0 == name);
        lemma_entry_at::<String, QueryView>(cur, i);
    }
}

/// An edge-forward map: for each output shape, the names of the queries that
/// must see a delta of that shape.
pub type ForwardMap = Seq<(EdgeView, Seq<Seq<char>>)>;

/// Whether an edge-forward map reaches a query: some shape is forwarded to
/// it.
pub open spec fn reaches(fm: ForwardMap, name: Seq<char>) -> bool {
    exists|key: EdgeView| #[trigger] set_at(fm, key).contains(name)
}

/// The edge-forward maps of all queries.
pub fn compute_edge_forward_maps(all_queries_by_name: &OrderedMap<String, Query>) -> (r: OrderedMap<
    String,
    OrderedMap<Edge, OrderedSet<String>>,
>)
    ensures
        strictly_sorted::<String>(keys_of(r@)),
        forall|name: Seq<char>| #[trigger]
            has_key(r@, name) <==> has_key(all_queries_by_name@, name),
        forall|name: Seq<char>| #[trigger]
            has_key(r@, name) ==> is_forward_map(
                value_of(all_queries_by_name@, name).output_edges,
                all_queries_by_name@,
                value_of(r@, name),
            ),
{
    let mut all_maps: OrderedMap<String, OrderedMap<Edge, OrderedSet<String>>> = OrderedMap::new();
    let ghost all = all_queries_by_name@;
    let mut i: usize = 0;
    proof {
        use_type_invariant(all_queries_by_name);
        assert(keys_of(all_maps@) =~= Seq::<Seq<char>>::empty());
    }
    while i < all_queries_by_name.len()
        invariant
            i <= all.len(),
            all == all_queries_by_name@,
            strictly_sorted::<String>(keys_of(all)),
            strictly_sorted::<String>(keys_of(all_maps@)),
            forall|name: Seq<char>| #[trigger]
                has_key(all_maps@, name) <==> exists|j: int| 0 <= j < i && (#[trigger] all[j]).0 == name,
            forall|name: Seq<char>| #[trigger]
                has_key(all_maps@, name) ==> is_forward_map(
                    value_of(all, name).output_edges,
                    all,
                    value_of(all_maps@, name),
                ),
        decreases all.len() - i,
    {
        let q = all_queries_by_name.key_at(i);
        let ghost before = all_maps@;
        let map = compute_edge_forward_map(q.dup(), all_queries_by_name);
        let ghost mv = map@;
        proof {
            lemma_entry_at::<String, QueryView>(all, i as int);
        }
        all_maps.insert(q.dup(), map);
        proof {
            assert forall|name: Seq<char>| #[trigger]
                has_key(all_maps@, name) <==> exists|j: int|
                    0 <= j < i + 1 && (#[trigger] all[j]).0 == name by {
                assert(has_key(all_maps@, name) == as_map(all_maps@).dom().contains(name));
                assert(has_key(before, name) == as_map(before).dom().contains(name));
                if has_key(before, name) {
                    let j = choose|j: int| 0 <= j < i && (#[trigger] all[j]).0 == name;
                    assert(0 <= j < i + 1);
                }
                if exists|j: int| 0 <= j < i + 1 && (#[trigger] all[j]).0 == name {
                    let j = choose|j: int| 0 <= j < i + 1 && (#[trigger] all[j]).0 == name;
                    if j < i {
                        assert(has_key(before, name));
                    }
                }
                if name == q@ {
                    assert(all[i as int].0 == name);
                }
            }
            assert forall|name: Seq<char>| #[trigger] has_key(all_maps@, name) implies is_forward_map(
                value_of(all, name).output_edges,
                all,
                value_of(all_maps@, name),
            ) by {
                assert(has_key(all_maps@, name) == as_map(all_maps@).dom().contains(name));
                assert(has_key(before, name) == as_map(before).dom().contains(name));
                assert(value_of(all_maps@, name) == as_map(all_maps@)[name]);
                if name != q@ {
                    assert(value_of(before, name) == as_map(before)[name]);
                }
            }
        }
        i = i + 1;
    }
    proof {
        assert forall|name: Seq<char>| #[trigger] has_key(all_maps@, name) <==> has_key(
            all,
            name,
        ) by {
            if has_key(all, name) {
                let j = index_of_key(all, name);
                assert(all[j].0 == name);
            }
        }
    }
    all_maps
}

/// The queries that each query reaches: those that some shape of its
/// edge-forward map is forwarded to.
pub fn compute_reachable_map(
    edge_forward_maps: &OrderedMap<String, OrderedMap<Edge, OrderedSet<String>>>,
) -> (r: OrderedMap<String, OrderedSet<String>>)
    ensures
        strictly_sorted::<String>(keys_of(r@)),
        forall|name: Seq<char>| #[trigger]
            has_key(r@, name) <==> has_key(edge_forward_maps@, name),
        forall|name: Seq<char>, p: Seq<char>|
            has_key(r@, name) ==> (#[trigger] value_of(r@, name).contains(p) <==> reaches(
                value_of(edge_forward_maps@, name),
                p,
            )),
{
    let mut reachable_maps: OrderedMap<String, OrderedSet<String>> = OrderedMap::new();
    let ghost maps = edge_forward_maps@;
    let mut i: usize = 0;
    proof {
        use_type_invariant(edge_forward_maps);
        assert(keys_of(reachable_maps@) =~= Seq::<Seq<char>>::empty());
    }
    while i < edge_forward_maps.len()
        invariant
            i <= maps.len(),
            maps == edge_forward_maps@,
            strictly_sorted::<String>(keys_of(maps)),
            strictly_sorted::<String>(keys_of(reachable_maps@)),
            forall|name: Seq<char>| #[trigger]
                has_key(reachable_maps@, name) <==> exists|j: int|
                    0 <= j < i && (#[trigger] maps[j]).0 == name,
            forall|name: Seq<char>, p: Seq<char>|
                has_key(reachable_maps@, name) ==> (#[trigger] value_of(
                    reachable_maps@,
                    name,
                ).contains(p) <==> reaches(value_of(maps, name), p)),
        decreases maps.len() - i,
    {
        let q = edge_forward_maps.key_at(i);
        let edge_forward_map = edge_forward_maps.value_at(i);
        let reached = reached_by(edge_forward_map);
        let ghost rv = reached@;
        let ghost before = reachable_maps@;
        proof {
            lemma_entry_at::<String, ForwardMap>(maps, i as int);
        }
        reachable_maps.insert(q.dup(), reached);
        proof {
            assert forall|name: Seq<char>| #[trigger]
                has_key(reachable_maps@, name) <==> exists|j: int|
                    0 <= j < i + 1 && (#[trigger] maps[j]).0 == name by {
                assert(has_key(reachable_maps@, name) == as_map(reachable_maps@).dom().contains(
                    name,
                ));
                assert(has_key(before, name) == as_map(before).dom().contains(name));
                if has_key(before, name) {
                    let j = choose|j: int| 0 <= j < i && (#[trigger] maps[j]).0 == name;
                    assert(0 <= j < i + 1);
                }
                if exists|j: int| 0 <= j < i + 1 && (#[trigger] maps[j]).0 == name {
                    let j = choose|j: int| 0 <= j < i + 1 && (#[trigger] maps[j]).0 == name;
                    if j < i {
                        assert(has_key(before, name));
                    }
                }
                if name == q@ {
                    assert(maps[i as int].0 == name);
                }
            }
            assert forall|name: Seq<char>, p: Seq<char>|
                has_key(reachable_maps@, name) implies (#[trigger] value_of(
                reachable_maps@,
                name,
            ).contains(p) <==> reaches(value_of(maps, name), p)) by {
                assert(has_key(reachable_maps@, name) == as_map(reachable_maps@).dom().contains(
                    name,
                ));
                assert(has_key(before, name) == as_map(before).dom().contains(name));
                assert(value_of(reachable_maps@, name) == as_map(reachable_maps@)[name]);
                if name != q@ {
                    assert(value_of(before, name) == as_map(before)[name]);
                    assert(value_of(before, name).contains(p) <==> reaches(
                        value_of(maps, name),
                        p,
                    ));
                }
            }
        }
        i = i + 1;
    }
    proof {
        assert forall|name: Seq<char>| #[trigger] has_key(reachable_maps@, name) <==> has_key(
            maps,
            name,
        ) by {
            if has_key(maps, name) {
                let j = index_of_key(maps, name);
                assert(maps[j].0 == name);
            }
        }
    }
    reachable_maps
}

/// The queries that an edge-forward map reaches.
pub fn reached_by(edge_forward_map: &OrderedMap<Edge, OrderedSet<String>>) -> (r: OrderedSet<String>)
    ensures
        strictly_sorted::<String>(r@),
        forall|p: Seq<char>| #[trigger] r@.contains(p) <==> reaches(edge_forward_map@, p),
{
    let mut reached: OrderedSet<String> = OrderedSet::new();
    let ghost fm = edge_forward_map@;
    let mut i: usize = 0;
    proof {
        use_type_invariant(edge_forward_map);
    }
    while i < edge_forward_map.len()
        invariant
            i <= fm.len(),
            fm == edge_forward_map@,
            strictly_sorted::<Edge>(keys_of(fm)),
            strictly_sorted::<String>(reached@),
            forall|p: Seq<char>| #[trigger]
                reached@.contains(p) <==> exists|j: int|
                    0 <= j < i && (#[trigger] fm[j]).1.contains(p),
        decreases fm.len() - i,
    {
        let ghost before = reached@;
        reached.extend(edge_forward_map.value_at(i));
        proof {
            assert forall|p: Seq<char>| #[trigger]
                reached@.contains(p) <==> exists|j: int|
                    0 <= j < i + 1 && (#[trigger] fm[j]).1.contains(p) by {
                assert(reached@.to_set().contains(p) == reached@.contains(p));
                assert(before.to_set().contains(p) == before.contains(p));
                assert(fm[i as int].1.to_set().contains(p) == fm[i as int].1.contains(p));
                if before.contains(p) {
                    let j = choose|j: int| 0 <= j < i && (#[trigger] fm[j]).1.contains(p);
                    assert(0 <= j < i + 1);
                }
                if exists|j: int| 0 <= j < i + 1 && (#[trigger] fm[j]).1.contains(p) {
                    let j = choose|j: int| 0 <= j < i + 1 && (#[trigger] fm[j]).1.contains(p);
                    if j < i {
                        assert(before.contains(p));
                    }
                }
            }
        }
        i = i + 1;
    }
    proof {
        assert forall|p: Seq<char>| #[trigger] reached@.contains(p) <==> reaches(fm, p) by {
            if reached@.contains(p) {
                let j = choose|j: int| 0 <= j < fm.len() && (#[trigger] fm[j]).1.contains(p);
                lemma_entry_at::<Edge, Seq<Seq<char>>>(fm, j);
                assert(fm[j].1.to_set().contains(p));
                assert(set_at(fm, fm[j].0).contains(p));
            }
            if reaches(fm, p) {
                let key = choose|key: EdgeView| #[trigger] set_at(fm, key).contains(p);
                let j = index_of_key(fm, key);
                assert(fm[j].1.to_set().contains(p));
                assert(fm[j].1.contains(p));
            }
        }
    }
    reached
}

/// The router of a component.
pub struct Router {
    pub query_name: String,
    pub edge_forward_map: OrderedMap<Edge, OrderedSet<String>>,
    pub reached_set: OrderedSet<String>,
    pub use_central: bool,
}

/// What a router holds.
pub struct RouterView {
    pub query_name: Seq<char>,
    pub edge_forward_map: ForwardMap,
    pub reached_set: Seq<Seq<char>>,
    pub use_central: bool,
}

impl DeepView for Router {
    type V = RouterView;

    open spec fn deep_view(&self) -> RouterView {
        RouterView {
            query_name: self.query_name@,
            edge_forward_map: self.edge_forward_map@,
            reached_set: self.reached_set@,
            use_central: self.use_central,
        }
    }
}

impl View for Router {
    type V = RouterView;

    open spec fn view(&self) -> RouterView {
        self.deep_view()
    }
}

/// An update that is to be sent to a peer.
#[derive(Debug, PartialEq, Eq)]
pub struct Outbound {
    pub topic: String,
    pub update: Update,
}

/// What an outbound update holds.
pub struct OutboundView {
    pub topic: Seq<char>,
    pub update: UpdateView,
}

impl DeepView for Outbound {
    type V = OutboundView;

    open spec fn deep_view(&self) -> OutboundView {
        OutboundView { topic: self.topic@, update: self.update@ }
    }
}

impl View for Outbound {
    type V = OutboundView;

    open spec fn view(&self) -> OutboundView {
        self.deep_view()
    }
}

/// What routing a package of deltas gives: the package for the component
/// itself, if it is among the targets; the packages that were made, by
/// target; and the updates that are to be sent.
#[derive(Debug, PartialEq, Eq)]
pub struct Route {
    pub internal_update: Option<Update>,
    pub bindings: Vec<TopicNameAndDeltasId>,
    pub outbound: Vec<Outbound>,
}

/// Whether a query must see a delta: the edge-forward map forwards the shape
/// of the delta, its particulars forgotten, to the query.
pub open spec fn wants(fm: ForwardMap, name: Seq<char>, d: DeltaView) -> bool {
    set_at(fm, edge_without_particulars(shape_of(d))).contains(name)
}

/// The targets of a package of deltas: each query that must see one of the
/// deltas, with the deltas that it must see.
pub open spec fn is_targets(
    fm: ForwardMap,
    ds: Seq<DeltaView>,
    t: Seq<(Seq<char>, Seq<DeltaView>)>,
) -> bool {
    &&& strictly_sorted::<String>(keys_of(t))
    &&& forall|k: int| 0 <= k < t.len() ==> strictly_sorted::<Delta>((#[trigger] t[k]).1)
    &&& forall|name: Seq<char>| #[trigger]
        has_key(t, name) <==> exists|j: int| 0 <= j < ds.len() && wants(fm, name, #[trigger] ds[j])
    &&& forall|name: Seq<char>, d: DeltaView| #[trigger]
        set_at(t, name).contains(d) <==> (ds.contains(d) && wants(fm, name, d))
}

/// The package for a target.
pub open spec fn package(ds: DeltasView, id: Seq<char>, part: Seq<DeltaView>) -> DeltasView {
    DeltasView {
        deltas_id: id,
        origin_id: ds.origin_id,
        origin_timestamp: ds.origin_timestamp,
        deltas: part,
    }
}

/// The binding of each target to the id of its package.
pub open spec fn target_bindings(t: Seq<(Seq<char>, Seq<DeltaView>)>, ids: Seq<Seq<char>>) -> Seq<
    TopicNameAndDeltasIdView,
> {
    Seq::new(t.len(), |k: int| TopicNameAndDeltasIdView { topic_name: t[k].0, deltas_id: ids[k] })
}

/// The packages for the first `n` targets other than the component itself.
pub open spec fn peer_packages(
    t: Seq<(Seq<char>, Seq<DeltaView>)>,
    ids: Seq<Seq<char>>,
    ds: DeltasView,
    me: Seq<char>,
    n: int,
) -> Seq<OutboundView>
    decreases n,
{
    if n <= 0 {
        Seq::empty()
    } else {
        let rest = peer_packages(t, ids, ds, me, n - 1);
        if t[n - 1].0 == me {
            rest
        } else {
            rest.push(
                OutboundView {
                    topic: t[n - 1].0,
                    update: UpdateView::Deltas(package(ds, ids[n - 1], t[n - 1].1)),
                },
            )
        }
    }
}

/// The package for the component itself, if it is among the first `n`
/// targets.
pub open spec fn own_package(
    t: Seq<(Seq<char>, Seq<DeltaView>)>,
    ids: Seq<Seq<char>>,
    ds: DeltasView,
    me: Seq<char>,
    n: int,
) -> Option<UpdateView>
    decreases n,
{
    if n <= 0 {
        None
    } else if t[n - 1].0 == me {
        Some(UpdateView::Deltas(package(ds, ids[n - 1], t[n - 1].1)))
    } else {
        own_package(t, ids, ds, me, n - 1)
    }
}

/// Whether a route is the one for a package of deltas with given targets and
/// ids: with a central store, the package goes there as it is; each target
/// gets a package of its own under the next id, in increasing order of the
/// targets' names.
pub open spec fn is_route(
    router: RouterView,
    ds: DeltasView,
    t: Seq<(Seq<char>, Seq<DeltaView>)>,
    ids: Seq<Seq<char>>,
    internal: Option<UpdateView>,
    bindings: Seq<TopicNameAndDeltasIdView>,
    outbound: Seq<OutboundView>,
) -> bool {
    &&& bindings == (if router.use_central {
        seq![TopicNameAndDeltasIdView { topic_name: "central"@, deltas_id: ds.deltas_id }]
    } else {
        Seq::empty()
    }) + target_bindings(t, ids)
    &&& outbound == (if router.use_central {
        seq![OutboundView { topic: "central"@, update: UpdateView::Deltas(ds) }]
    } else {
        Seq::empty()
    }) + peer_packages(t, ids, ds, router.query_name, t.len() as int)
    &&& internal == own_package(t, ids, ds, router.query_name, t.len() as int)
}

/// The retraction of one package.
pub open spec fn retraction_of(id: Seq<char>, timestamp: u64, deltas_id: Seq<char>) -> UpdateView {
    UpdateView::Retractions(
        RetractionsView { retraction_id: id, timestamp, deltas_ids: seq![deltas_id] },
    )
}

/// The retractions of the first `n` bindings that go to the component
/// itself.
pub open spec fn own_retractions(
    bindings: Seq<TopicNameAndDeltasIdView>,
    ids: Seq<Seq<char>>,
    timestamp: u64,
    me: Seq<char>,
    n: int,
) -> Seq<UpdateView>
    decreases n,
{
    if n <= 0 {
        Seq::empty()
    } else {
        let rest = own_retractions(bindings, ids, timestamp, me, n - 1);
        if bindings[n - 1].topic_name == me {
            rest.push(retraction_of(ids[n - 1], timestamp, bindings[n - 1].deltas_id))
        } else {
            rest
        }
    }
}

/// The retractions of the first `n` bindings that go to peers.
pub open spec fn peer_retractions(
    bindings: Seq<TopicNameAndDeltasIdView>,
    ids: Seq<Seq<char>>,
    timestamp: u64,
    me: Seq<char>,
    n: int,
) -> Seq<OutboundView>
    decreases n,
{
    if n <= 0 {
        Seq::empty()
    } else {
        let rest = peer_retractions(bindings, ids, timestamp, me, n - 1);
        if bindings[n - 1].topic_name == me {
            rest
        } else {
            rest.push(
                OutboundView {
                    topic: bindings[n - 1].topic_name,
                    update: retraction_of(ids[n - 1], timestamp, bindings[n - 1].deltas_id),
                },
            )
        }
    }
}

/// `Uuid::new_v4`, written out with hyphens: a random id. Nothing is
/// promised of it.
#[verifier::external_body]
pub(crate) fn fresh_id() -> (r: String) {
    uuid::Uuid::new_v4().to_hyphenated().to_string()
}

/// A list of fresh ids.
pub fn fresh_ids(n: usize) -> (r: Vec<String>)
    ensures
        r@.len() == n,
{
    let mut ids: Vec<String> = Vec::new();
    let mut i: usize = 0;
    while i < n
        invariant
            i <= n,
            ids@.len() == i,
        decreases n - i,
    {
        ids.push(fresh_id());
        i = i + 1;
    }
    ids
}

impl Router {
    /// The router of one of the queries: its row of the closed
    /// edge-forward maps of all queries, and the queries that it reaches. The
    /// row forwards each output shape of the query to the queries whose
    /// pattern admits it. A name that is not among the queries forwards
    /// nothing.
    pub fn new(
        query_name: String,
        all_queries_by_name: &OrderedMap<String, Query>,
        use_central: bool,
    ) -> (r: Router)
        ensures
            r@.query_name == query_name@,
            r@.use_central == use_central,
            has_key(all_queries_by_name@, query_name@) ==> forall|key: EdgeView, name: Seq<char>| #[trigger]
                set_at(r@.edge_forward_map, key).contains(name) <==> forwards(
                    value_of(all_queries_by_name@, query_name@).output_edges,
                    all_queries_by_name@,
                    key,
                    name,
                ),
            !has_key(all_queries_by_name@, query_name@) ==> r@.edge_forward_map.len() == 0,
            forall|p: Seq<char>| #[trigger]
                r@.reached_set.contains(p) <==> reaches(r@.edge_forward_map, p),
    {
        let ghost all = all_queries_by_name@;
        let all_edge_forward_maps = compute_edge_forward_maps(all_queries_by_name);
        let ghost direct = all_edge_forward_maps@;
        let mut closed = compute_edge_forward_closure(all_edge_forward_maps, all_queries_by_name);
        let ghost cv = closed@;
        let edge_forward_map = match closed.remove(&query_name) {
            Some(row) => row,
            None => OrderedMap::new(),
        };
        proof {
            assert(keys_of(direct).len() == direct.len());
            assert(keys_of(cv).len() == cv.len());
            if has_key(all, query_name@) {
                assert(has_key(direct, query_name@));
                let i = index_of_key(direct, query_name@);
                lemma_entry_at::<String, ForwardMap>(direct, i);
                assert(keys_of(cv)[i] == keys_of(direct)[i]);
                assert(keys_of(cv)[i] == cv[i].0);
                lemma_entry_at::<String, ForwardMap>(cv, i);
                assert(edge_forward_map@ == cv[i].1);
                assert forall|key: EdgeView, name: Seq<char>| #[trigger]
                    set_at(edge_forward_map@, key).contains(name) <==> forwards(
                        value_of(all, query_name@).output_edges,
                        all,
                        key,
                        name,
                    ) by {
                    assert(set_at(direct[i].1, key).contains(name) <==> forwards(
                        value_of(all, query_name@).output_edges,
                        all,
                        key,
                        name,
                    ));
                    if set_at(cv[i].1, key).contains(name) {
                        assert(set_at(direct[i].1, key).contains(name) || belongs_to(
                            all,
                            cv[i].0,
                            key,
                            name,
                        ));
                    }
                    if set_at(direct[i].1, key).contains(name) {
                        assert(set_at(cv[i].1, key).contains(name));
                    }
                }
            } else {
                assert(!has_key(direct, query_name@));
                if has_key(cv, query_name@) {
                    let i = index_of_key(cv, query_name@);
                    assert(keys_of(cv)[i] == keys_of(direct)[i]);
                    assert(keys_of(direct)[i] == direct[i].0);
                    assert(direct[i].0 == query_name@);
                }
            }
        }
        let reached_set = reached_by(&edge_forward_map);
        Router { query_name, edge_forward_map, reached_set, use_central }
    }

    /// The targets of a package of deltas.
    pub fn find_targets(&self, deltas: &Deltas) -> (r: OrderedMap<String, OrderedSet<Delta>>)
        ensures
            is_targets(self@.edge_forward_map, deltas@.deltas, r@),
    {
        let mut targets: OrderedMap<String, OrderedSet<Delta>> = OrderedMap::new();
        let ghost fm = self@.edge_forward_map;
        let ghost dv = deltas@.deltas;
        let mut i: usize = 0;
        proof {
            assert(keys_of(targets@) =~= Seq::<Seq<char>>::empty());
            assert forall|name: Seq<char>, d: DeltaView| #[trigger]
                set_at(targets@, name).contains(d) <==> (dv.take(0).contains(d) && wants(
                    fm,
                    name,
                    d,
                )) by {}
        }
        while i < deltas.deltas.len()
            invariant
                i <= dv.len(),
                dv == deltas.deltas@,
                fm == self.edge_forward_map@,
                strictly_sorted::<String>(keys_of(targets@)),
                forall|name: Seq<char>| #[trigger]
                    has_key(targets@, name) <==> exists|j: int|
                        0 <= j < i && wants(fm, name, #[trigger] dv[j]),
                forall|name: Seq<char>, d: DeltaView| #[trigger]
                    set_at(targets@, name).contains(d) <==> (dv.take(i as int).contains(d) && wants(
                        fm,
                        name,
                        d,
                    )),
            decreases dv.len() - i,
        {
            let d = deltas.deltas.at(i);
            let mut edge_without_particulars = d.to_edge();
            edge_without_particulars.forget_particulars();
            let ghost key = edge_without_particulars@;
            let ghost start = targets@;
            let ghost x = dv[i as int];
            match self.edge_forward_map.get(&edge_without_particulars) {
                Some(queries) => {
                    let ghost qs = queries@;
                    let mut k: usize = 0;
                    proof {
                        use_type_invariant(queries);
                        assert forall|name: Seq<char>| wants(fm, name, x) == qs.contains(name) by {
                            assert(qs.to_set().contains(name) == qs.contains(name));
                        }
                    }
                    while k < queries.len()
                        invariant
                            k <= qs.len(),
                            qs == queries@,
                            x == d@,
                            strictly_sorted::<String>(keys_of(targets@)),
                            forall|name: Seq<char>| #[trigger]
                                has_key(targets@, name) <==> (has_key(start, name) || qs.take(
                                    k as int,
                                ).contains(name)),
                            forall|name: Seq<char>, y: DeltaView| #[trigger]
                                set_at(targets@, name).contains(y) <==> (set_at(
                                    start,
                                    name,
                                ).contains(y) || (y == x && qs.take(k as int).contains(name))),
                        decreases qs.len() - k,
                    {
                        let ghost before = targets@;
                        add_to_set_at(&mut targets, queries.at(k).dup(), d.dup());
                        proof {
                            let cur = qs.take(k + 1);
                            assert(cur =~= qs.take(k as int).push(qs[k as int]));
                            assert forall|name: Seq<char>|
                                cur.contains(name) == (qs.take(k as int).contains(name) || name
                                    == qs[k as int]) by {
                                lemma_insert_contains(
                                    qs.take(k as int),
                                    k as int,
                                    qs[k as int],
                                    name,
                                );
                                assert(qs.take(k as int).insert(k as int, qs[k as int]) =~= cur);
                            }
                            assert forall|name: Seq<char>| #[trigger]
                                has_key(targets@, name) <==> (has_key(start, name) || cur.contains(
                                    name,
                                )) by {
                                assert(has_key(targets@, name) == as_map(targets@).dom().contains(
                                    name,
                                ));
                                assert(has_key(before, name) == as_map(before).dom().contains(name));
                            }
                            assert forall|name: Seq<char>, y: DeltaView| #[trigger]
                                set_at(targets@, name).contains(y) <==> (set_at(
                                    start,
                                    name,
                                ).contains(y) || (y == x && cur.contains(name))) by {
                                assert(set_at(before, name).contains(y) <==> (set_at(
                                    start,
                                    name,
                                ).contains(y) || (y == x && qs.take(k as int).contains(name))));
                            }
                        }
                        k = k + 1;
                    }
                    assert(qs.take(k as int) =~= qs);
                },
                None => {
                    proof {
                        assert forall|name: Seq<char>| !wants(fm, name, x) by {}
                    }
                },
            }
            proof {
                let cur = dv.take(i + 1);
                let head = dv.take(i as int);
                assert(cur =~= head.push(x));
                assert forall|y: DeltaView| cur.contains(y) == (head.contains(y) || y == x) by {
                    lemma_insert_contains(head, i as int, x, y);
                    assert(head.insert(i as int, x) =~= cur);
                }
                assert forall|name: Seq<char>| #[trigger]
                    has_key(targets@, name) <==> exists|j: int|
                        0 <= j < i + 1 && wants(fm, name, #[trigger] dv[j]) by {
                    assert(has_key(start, name) <==> exists|j: int|
                        0 <= j < i && wants(fm, name, #[trigger] dv[j]));
                    if has_key(start, name) {
                        let j = choose|j: int| 0 <= j < i && wants(fm, name, #[trigger] dv[j]);
                        assert(0 <= j < i + 1);
                    }
                    if wants(fm, name, x) {
                        assert(wants(fm, name, dv[i as int]));
                    }
                    if exists|j: int| 0 <= j < i + 1 && wants(fm, name, #[trigger] dv[j]) {
                        let j = choose|j: int| 0 <= j < i + 1 && wants(fm, name, #[trigger] dv[j]);
                        if j < i {
                            assert(has_key(start, name));
                        }
                    }
                }
                assert forall|name: Seq<char>, y: DeltaView| #[trigger]
                    set_at(targets@, name).contains(y) <==> (cur.contains(y) && wants(
                        fm,
                        name,
                        y,
                    )) by {
                    assert(set_at(start, name).contains(y) <==> (head.contains(y) && wants(
                        fm,
                        name,
                        y,
                    )));
                }
            }
            i = i + 1;
        }
        assert(dv.take(i as int) =~= dv);
        let mut k: usize = 0;
        while k < targets.len()
            invariant
                k <= targets@.len(),
                forall|j: int| 0 <= j < k ==> strictly_sorted::<Delta>((#[trigger] targets@[j]).1),
            decreases targets@.len() - k,
        {
            let set = targets.value_at(k);
            proof {
                use_type_invariant(set);
            }
            k = k + 1;
        }
        targets
    }

    /// Routes a package of deltas that this component has made, with the
    /// ids for the packages of the targets given.
    pub fn route_deltas_update_with_ids(&self, deltas: Deltas, ids: Vec<String>) -> (r: Option<Route>)
        ensures
            r is Some <==> enough_ids(self@.edge_forward_map, deltas@.deltas, ids.len() as int),
            r is Some ==> routed(
                self@,
                deltas@,
                ids.deep_view(),
                r->0.internal_update.deep_view(),
                r->0.bindings.deep_view(),
                r->0.outbound.deep_view(),
            ),
    {
        let targets = self.find_targets(&deltas);
        let ghost t = targets@;
        let ghost ds = deltas@;
        let ghost iv = ids.deep_view();
        let ghost me = self@.query_name;
        proof {
            assert(is_targets(self@.edge_forward_map, ds.deltas, t));
            if enough_ids(self@.edge_forward_map, ds.deltas, ids.len() as int) {
                let u = choose|u: Seq<(Seq<char>, Seq<DeltaView>)>| #[trigger]
                    is_targets(self@.edge_forward_map, ds.deltas, u) && u.len() <= ids.len();
                assert(is_count_of_targets(self@.edge_forward_map, ds.deltas, u.len() as int));
                lemma_targets_unique(self@.edge_forward_map, ds.deltas, t, u.len() as int);
            }
        }
        if targets.len() > ids.len() {
            return None;
        }
        let mut outbound: Vec<Outbound> = Vec::new();
        let mut bindings: Vec<TopicNameAndDeltasId> = Vec::new();
        if self.use_central {
            outbound.push(
                Outbound { topic: "central".to_owned(), update: Update::Deltas(deltas.dup()) },
            );
            bindings.push(
                TopicNameAndDeltasId {
                    topic_name: "central".to_owned(),
                    deltas_id: deltas.deltas_id.dup(),
                },
            );
        }
        let ghost ob = outbound.deep_view();
        let ghost bb = bindings.deep_view();
        proof {
            assert(ob =~= (if self.use_central {
                seq![OutboundView { topic: "central"@, update: UpdateView::Deltas(ds) }]
            } else {
                Seq::empty()
            }));
            assert(bb =~= (if self.use_central {
                seq![TopicNameAndDeltasIdView { topic_name: "central"@, deltas_id: ds.deltas_id }]
            } else {
                Seq::empty()
            }));
            assert(outbound.deep_view() =~= ob + peer_packages(t, iv, ds, me, 0));
            assert(bindings.deep_view() =~= bb + target_bindings(t, iv).take(0));
        }
        let mut internal_update: Option<Update> = None;
        let mut k: usize = 0;
        while k < targets.len()
            invariant
                k <= t.len(),
                t == targets@,
                t.len() <= ids.len(),
                iv == ids.deep_view(),
                ds == deltas@,
                me == self.query_name@,
                outbound.deep_view() == ob + peer_packages(t, iv, ds, me, k as int),
                bindings.deep_view() == bb + target_bindings(t, iv).take(k as int),
                internal_update.deep_view() == own_package(t, iv, ds, me, k as int),
            decreases t.len() - k,
        {
            let q = targets.key_at(k);
            let part = targets.value_at(k);
            let new_update = Update::Deltas(
                Deltas {
                    deltas_id: ids[k].dup(),
                    origin_id: deltas.origin_id.dup(),
                    origin_timestamp: deltas.origin_timestamp,
                    deltas: part.dup(),
                },
            );
            assert(new_update@ == UpdateView::Deltas(package(ds, iv[k as int], t[k as int].1)));
            let ghost pb = bindings.deep_view();
            bindings.push(TopicNameAndDeltasId { topic_name: q.dup(), deltas_id: ids[k].dup() });
            proof {
                let tb = target_bindings(t, iv);
                assert(bindings.deep_view() =~= pb.push(tb[k as int]));
                assert(tb.take(k + 1) =~= tb.take(k as int).push(tb[k as int]));
                assert(bindings.deep_view() =~= bb + tb.take(k + 1));
            }
            if same(q, &self.query_name) {
                internal_update = Some(new_update);
            } else {
                let ghost po = outbound.deep_view();
                let ghost uv = new_update@;
                outbound.push(Outbound { topic: q.dup(), update: new_update });
                proof {
                    let item = OutboundView { topic: t[k as int].0, update: uv };
                    assert(outbound.deep_view() =~= po.push(item));
                    assert(po.push(item) =~= ob + peer_packages(t, iv, ds, me, k as int).push(item));
                }
            }
            k = k + 1;
        }
        proof {
            let tb = target_bindings(t, iv);
            assert(tb.take(k as int) =~= tb);
            assert(is_targets(self@.edge_forward_map, ds.deltas, t) && is_route(
                self@,
                ds,
                t,
                iv,
                internal_update.deep_view(),
                bindings.deep_view(),
                outbound.deep_view(),
            ));
        }
        Some(Route { internal_update, bindings, outbound })
    }

    /// Routes a package of deltas that this component has made: to the
    /// central store, if there is one, and to each query that must see one of
    /// its deltas, in a package of its own under a fresh id.
    pub fn route_deltas_update(&self, deltas: Deltas) -> (r: Route)
        ensures
            exists|ids: Seq<Seq<char>>|
                is_count_of_targets(self@.edge_forward_map, deltas@.deltas, ids.len() as int)
                    && #[trigger] routed(
                    self@,
                    deltas@,
                    ids,
                    r.internal_update.deep_view(),
                    r.bindings.deep_view(),
                    r.outbound.deep_view(),
                ),
    {
        let n = self.count_targets(&deltas);
        let ids = fresh_ids(n);
        let ghost iv = ids.deep_view();
        let ghost dv = deltas@;
        proof {
            let t = choose|t: Seq<(Seq<char>, Seq<DeltaView>)>| #[trigger]
                is_targets(self@.edge_forward_map, dv.deltas, t) && t.len() == n;
            assert(is_targets(self@.edge_forward_map, dv.deltas, t) && t.len() <= n);
            assert(enough_ids(self@.edge_forward_map, dv.deltas, n as int));
        }
        match self.route_deltas_update_with_ids(deltas, ids) {
            Some(route) => {
                proof {
                    assert(routed(
                        self@,
                        dv,
                        iv,
                        route.internal_update.deep_view(),
                        route.bindings.deep_view(),
                        route.outbound.deep_view(),
                    ));
                }
                route
            },
            None => Route { internal_update: None, bindings: Vec::new(), outbound: Vec::new() },
        }
    }

    /// Whether the router needs a connection to a topic: to the central
    /// store, and to each query that it reaches.
    pub fn connects_to(&self, topic: &String) -> (r: bool)
        ensures
            r == (topic@ == "central"@ || self@.reached_set.contains(topic@)),
    {
        same(topic, &"central".to_owned()) || self.reached_set.contains(topic)
    }

    /// The number of targets of a package of deltas.
    pub fn count_targets(&self, deltas: &Deltas) -> (n: usize)
        ensures
            is_count_of_targets(self@.edge_forward_map, deltas@.deltas, n as int),
    {
        let targets = self.find_targets(deltas);
        targets.len()
    }

    /// Makes the retractions of packages that were sent, with the ids of the
    /// retractions given: one retraction for each package, with the given
    /// timestamp; those for the component itself are handed back, the others
    /// go to the peers.
    pub fn route_retractions_with_ids(
        &self,
        query_names_and_update_ids: Vec<TopicNameAndDeltasId>,
        event_timestamp: &u64,
        ids: Vec<String>,
    ) -> (r: (Vec<Update>, Vec<Outbound>))
        requires
            ids.len() == query_names_and_update_ids.len(),
        ensures
            r.0.deep_view() == own_retractions(
                query_names_and_update_ids.deep_view(),
                ids.deep_view(),
                *event_timestamp,
                self@.query_name,
                ids.len() as int,
            ),
            r.1.deep_view() == peer_retractions(
                query_names_and_update_ids.deep_view(),
                ids.deep_view(),
                *event_timestamp,
                self@.query_name,
                ids.len() as int,
            ),
    {
        let mut internal_updates: Vec<Update> = Vec::new();
        let mut outbound: Vec<Outbound> = Vec::new();
        let ghost bv = query_names_and_update_ids.deep_view();
        let ghost iv = ids.deep_view();
        let ghost me = self@.query_name;
        let ghost ts = *event_timestamp;
        let mut k: usize = 0;
        proof {
            assert(internal_updates.deep_view() =~= own_retractions(bv, iv, ts, me, 0));
            assert(outbound.deep_view() =~= peer_retractions(bv, iv, ts, me, 0));
        }
        while k < query_names_and_update_ids.len()
            invariant
                k <= bv.len(),
                bv == query_names_and_update_ids.deep_view(),
                iv == ids.deep_view(),
                ids.len() == bv.len(),
                me == self.query_name@,
                ts == *event_timestamp,
                internal_updates.deep_view() == own_retractions(bv, iv, ts, me, k as int),
                outbound.deep_view() == peer_retractions(bv, iv, ts, me, k as int),
            decreases bv.len() - k,
        {
            let qnid = &query_names_and_update_ids[k];
            let mut deltas_ids: Vec<String> = Vec::new();
            deltas_ids.push(qnid.deltas_id.dup());
            assert(deltas_ids.deep_view() =~= seq![bv[k as int].deltas_id]);
            let retraction_update = Update::Retractions(
                Retractions {
                    retraction_id: ids[k].dup(),
                    timestamp: *event_timestamp,
                    deltas_ids,
                },
            );
            let ghost uv = retraction_update@;
            assert(uv == retraction_of(iv[k as int], ts, bv[k as int].deltas_id));
            if same(&qnid.topic_name, &self.query_name) {
                let ghost prev = internal_updates.deep_view();
                internal_updates.push(retraction_update);
                assert(internal_updates.deep_view() =~= prev.push(uv));
            } else {
                let ghost prev = outbound.deep_view();
                outbound.push(Outbound { topic: qnid.topic_name.dup(), update: retraction_update });
                assert(outbound.deep_view() =~= prev.push(
                    OutboundView { topic: bv[k as int].topic_name, update: uv },
                ));
            }
            k = k + 1;
        }
        (internal_updates, outbound)
    }

    /// Makes the retractions of packages that were sent, each under a fresh
    /// id.
    pub fn route_retractions(
        &self,
        query_names_and_update_ids: Vec<TopicNameAndDeltasId>,
        event_timestamp: &u64,
    ) -> (r: (Vec<Update>, Vec<Outbound>))
        ensures
            exists|ids: Seq<Seq<char>>|
                ids.len() == query_names_and_update_ids.len() && r.0.deep_view()
                    == #[trigger] own_retractions(
                    query_names_and_update_ids.deep_view(),
                    ids,
                    *event_timestamp,
                    self@.query_name,
                    ids.len() as int,
                ) && r.1.deep_view() == peer_retractions(
                    query_names_and_update_ids.deep_view(),
                    ids,
                    *event_timestamp,
                    self@.query_name,
                    ids.len() as int,
                ),
    {
        let ids = fresh_ids(query_names_and_update_ids.len());
        let ghost iv = ids.deep_view();
        let r = self.route_retractions_with_ids(query_names_and_update_ids, event_timestamp, ids);
        proof {
            assert(r.0.deep_view() == own_retractions(
                query_names_and_update_ids.deep_view(),
                iv,
                *event_timestamp,
                self@.query_name,
                iv.len() as int,
            ));
        }
        r
    }
}

/// Whether there is an id for each target of a package of deltas.
pub open spec fn enough_ids(fm: ForwardMap, ds: Seq<DeltaView>, n: int) -> bool {
    exists|t: Seq<(Seq<char>, Seq<DeltaView>)>| #[trigger] is_targets(fm, ds, t) && t.len() <= n
}

/// Whether a route is the one for a package of deltas with given ids.
pub open spec fn routed(
    router: RouterView,
    ds: DeltasView,
    ids: Seq<Seq<char>>,
    internal: Option<UpdateView>,
    bindings: Seq<TopicNameAndDeltasIdView>,
    outbound: Seq<OutboundView>,
) -> bool {
    exists|t: Seq<(Seq<char>, Seq<DeltaView>)>| #[trigger]
        is_targets(router.edge_forward_map, ds.deltas, t) && is_route(
            router,
            ds,
            t,
            ids,
            internal,
            bindings,
            outbound,
        )
}

/// The number of targets of a package of deltas.
pub open spec fn is_count_of_targets(fm: ForwardMap, ds: Seq<DeltaView>, n: int) -> bool {
    exists|t: Seq<(Seq<char>, Seq<DeltaView>)>| #[trigger] is_targets(fm, ds, t) && t.len() == n
}

/// A package of deltas has one list of targets.
pub proof fn lemma_targets_unique(
    fm: ForwardMap,
    ds: Seq<DeltaView>,
    t: Seq<(Seq<char>, Seq<DeltaView>)>,
    n: int,
)
    requires
        is_targets(fm, ds, t),
        is_count_of_targets(fm, ds, n),
    ensures
        t.len() == n,
{
    let u = choose|u: Seq<(Seq<char>, Seq<DeltaView>)>| #[trigger] is_targets(fm, ds, u) && u.len() == n;
    let kt = keys_of(t);
    let ku = keys_of(u);
    assert forall|name: Seq<char>| kt.to_set().contains(name) == ku.to_set().contains(name) by {
        assert(has_key(t, name) == has_key(u, name));
        if kt.contains(name) {
            let i = choose|i: int| 0 <= i < kt.len() && kt[i] == name;
            assert(t[i].0 == name);
        }
        if ku.contains(name) {
            let i = choose|i: int| 0 <= i < ku.len() && ku[i] == name;
            assert(u[i].0 == name);
        }
        if has_key(t, name) {
            assert(kt[index_of_key(t, name)] == name);
        }
        if has_key(u, name) {
            assert(ku[index_of_key(u, name)] == name);
        }
        assert(kt.to_set().contains(name) == kt.contains(name));
        assert(ku.to_set().contains(name) == ku.contains(name));
    }
    assert(kt.to_set() =~= ku.to_set());
    crate::ordered::lemma_sorted_unique::<String>(kt, ku);
}

/// The edge-forward maps of the queries, by name.
pub type ForwardMaps = Seq<(Seq<char>, ForwardMap)>;

/// Whether the output edges of a query feed the pattern of another.
pub open spec fn feeds(q: QueryView, p: QueryView) -> bool {
    admitted(q.output_edges, p.graph.edges).len() > 0
}

/// Adds a query to an edge-forward map, under every output shape that its
/// pattern admits; says whether there is one.
fn add_pair(
    row: &mut OrderedMap<Edge, OrderedSet<String>>,
    q_query: &Query,
    p_query: &Query,
    p_name: &String,
) -> (fed: bool)
    requires
        strictly_sorted::<Edge>(keys_of(old(row)@)),
    ensures
        strictly_sorted::<Edge>(keys_of(final(row)@)),
        fed == feeds(q_query@, p_query@),
        fed ==> reaches(final(row)@, p_name@),
        forall|key: EdgeView, name: Seq<char>| #[trigger]
            set_at(final(row)@, key).contains(name) <==> (set_at(old(row)@, key).contains(name) || (
            name == p_name@ && exists|k: int|
                0 <= k < q_query@.output_edges.len() && edge_without_query_names(
                    #[trigger] q_query@.output_edges[k],
                ) == key && admits(p_query@.graph.edges, q_query@.output_edges[k]))),
{
    let output_edges = find_output_edges(q_query, p_query);
    let ghost av = output_edges.deep_view();
    let ghost ov = q_query@.output_edges;
    let ghost pv = p_query@.graph.edges;
    let ghost start = row@;
    let ghost nv = p_name@;
    let mut k: usize = 0;
    while k < output_edges.len()
        invariant
            k <= output_edges.len(),
            av == output_edges.deep_view(),
            av == admitted(ov, pv),
            nv == p_name@,
            strictly_sorted::<Edge>(keys_of(row@)),
            forall|key: EdgeView, n: Seq<char>| #[trigger]
                set_at(row@, key).contains(n) <==> (set_at(start, key).contains(n) || (n == nv
                    && exists|j: int| 0 <= j < k && edge_without_query_names(#[trigger] av[j]) == key)),
        decreases output_edges.len() - k,
    {
        let mut o_without_query_name = output_edges[k].dup();
        o_without_query_name.forget_query_node_name();
        let ghost before = row@;
        let ghost kv = o_without_query_name@;
        add_to_set_at(row, o_without_query_name, p_name.dup());
        proof {
            assert forall|key: EdgeView, n: Seq<char>| #[trigger]
                set_at(row@, key).contains(n) <==> (set_at(start, key).contains(n) || (n == nv
                    && exists|j: int|
                    0 <= j < k + 1 && edge_without_query_names(#[trigger] av[j]) == key)) by {
                assert(set_at(before, key).contains(n) <==> (set_at(start, key).contains(n) || (n
                    == nv && exists|j: int|
                    0 <= j < k && edge_without_query_names(#[trigger] av[j]) == key)));
                if exists|j: int| 0 <= j < k && edge_without_query_names(#[trigger] av[j]) == key {
                    let j = choose|j: int|
                        0 <= j < k && edge_without_query_names(#[trigger] av[j]) == key;
                    assert(0 <= j < k + 1);
                }
                if key == kv {
                    assert(edge_without_query_names(av[k as int]) == key);
                }
                if exists|j: int|
                    0 <= j < k + 1 && edge_without_query_names(#[trigger] av[j]) == key {
                    let j = choose|j: int|
                        0 <= j < k + 1 && edge_without_query_names(#[trigger] av[j]) == key;
                    if j < k {
                    } else {
                        assert(key == kv);
                    }
                }
            }
        }
        k = k + 1;
    }
    proof {
        assert forall|key: EdgeView, name: Seq<char>| #[trigger]
            set_at(row@, key).contains(name) <==> (set_at(start, key).contains(name) || (name == nv
                && exists|k: int|
                0 <= k < ov.len() && edge_without_query_names(#[trigger] ov[k]) == key && admits(
                    pv,
                    ov[k],
                ))) by {
            if exists|j: int| 0 <= j < av.len() && edge_without_query_names(#[trigger] av[j]) == key {
                let j = choose|j: int|
                    0 <= j < av.len() && edge_without_query_names(#[trigger] av[j]) == key;
                assert(av.contains(av[j]));
                lemma_admitted_members(ov, pv, av[j]);
                let x = choose|x: int| 0 <= x < ov.len() && ov[x] == av[j];
                assert(edge_without_query_names(ov[x]) == key);
            }
            if exists|k: int|
                0 <= k < ov.len() && edge_without_query_names(#[trigger] ov[k]) == key && admits(
                    pv,
                    ov[k],
                ) {
                let k = choose|k: int|
                    0 <= k < ov.len() && edge_without_query_names(#[trigger] ov[k]) == key
                        && admits(pv, ov[k]);
                lemma_admitted_members(ov, pv, ov[k]);
                assert(ov.contains(ov[k]));
                let x = choose|x: int| 0 <= x < av.len() && av[x] == ov[k];
                assert(edge_without_query_names(av[x]) == key);
            }
        }
    }
    proof {
        if av.len() > 0 {
            let key = edge_without_query_names(av[0]);
            assert(set_at(row@, key).contains(nv));
        }
    }
    output_edges.len() > 0
}

/// Whether a query of the given name belongs in an edge-forward map under a
/// shape, by what the queries are: the query whose map it is has an output
/// edge of the shape that the pattern of the named query admits.
pub open spec fn belongs_to(all: Queries, q: Seq<char>, key: EdgeView, name: Seq<char>) -> bool {
    has_key(all, q) && forwards(value_of(all, q).output_edges, all, key, name)
}

/// Whether maps have grown from others by nothing but entries that belong:
/// the names are the same, nothing is lost, and whatever is new belongs.
pub open spec fn grown_soundly(all: Queries, before: ForwardMaps, after: ForwardMaps) -> bool {
    &&& keys_of(after) == keys_of(before)
    &&& strictly_sorted::<String>(keys_of(after))
    &&& forall|i: int, key: EdgeView, name: Seq<char>|
        0 <= i < before.len() && #[trigger] set_at(before[i].1, key).contains(name) ==> set_at(
            after[i].1,
            key,
        ).contains(name)
    &&& forall|i: int, key: EdgeView, name: Seq<char>|
        0 <= i < after.len() && #[trigger] set_at(after[i].1, key).contains(name) ==> set_at(
            before[i].1,
            key,
        ).contains(name) || belongs_to(all, after[i].0, key, name)
}

/// Whether the maps hold every entry that belongs, by what the queries are.
pub open spec fn complete(all: Queries, maps: ForwardMaps) -> bool {
    forall|i: int, key: EdgeView, name: Seq<char>|
        0 <= i < maps.len() && #[trigger] belongs_to(all, maps[i].0, key, name) ==> set_at(
            maps[i].1,
            key,
        ).contains(name)
}

/// Whether two collections of maps hold the same, name for name.
pub open spec fn same_entries(a: ForwardMaps, b: ForwardMaps) -> bool {
    &&& keys_of(a) == keys_of(b)
    &&& forall|i: int, key: EdgeView, name: Seq<char>|
        0 <= i < a.len() ==> #[trigger] set_at(a[i].1, key).contains(name) == set_at(
            b[i].1,
            key,
        ).contains(name)
}

/// Maps that are complete do not grow: closing them changes nothing, and so
/// closing them twice gives what closing them once gives.
pub proof fn lemma_closure_of_complete_maps(
    all: Queries,
    maps: ForwardMaps,
    once: ForwardMaps,
    twice: ForwardMaps,
)
    requires
        complete(all, maps),
        grown_soundly(all, maps, once),
        grown_soundly(all, once, twice),
    ensures
        same_entries(maps, once),
        same_entries(once, twice),
{
    assert(keys_of(once).len() == once.len());
    assert(keys_of(maps).len() == maps.len());
    assert(keys_of(twice).len() == twice.len());
    assert forall|i: int, key: EdgeView, name: Seq<char>| 0 <= i < maps.len() implies #[trigger] set_at(
        maps[i].1,
        key,
    ).contains(name) == set_at(once[i].1, key).contains(name) by {
        assert(keys_of(once)[i] == keys_of(maps)[i]);
        assert(once[i].0 == maps[i].0);
        if set_at(once[i].1, key).contains(name) && !set_at(maps[i].1, key).contains(name) {
            assert(belongs_to(all, maps[i].0, key, name));
        }
    }
    assert forall|i: int, key: EdgeView, name: Seq<char>| 0 <= i < once.len() implies #[trigger] set_at(
        once[i].1,
        key,
    ).contains(name) == set_at(twice[i].1, key).contains(name) by {
        assert(keys_of(once)[i] == keys_of(maps)[i]);
        assert(keys_of(twice)[i] == keys_of(once)[i]);
        assert(once[i].0 == maps[i].0);
        assert(twice[i].0 == once[i].0);
        if set_at(twice[i].1, key).contains(name) && !set_at(once[i].1, key).contains(name) {
            assert(belongs_to(all, maps[i].0, key, name));
            assert(set_at(maps[i].1, key).contains(name));
        }
    }
}

/// Whether an edge-forward map reaches a query.
fn row_reaches(row: &OrderedMap<Edge, OrderedSet<String>>, name: &String) -> (r: bool)
    ensures
        r == reaches(row@, name@),
{
    let ghost fm = row@;
    let mut i: usize = 0;
    proof {
        use_type_invariant(row);
    }
    while i < row.len()
        invariant
            i <= fm.len(),
            fm == row@,
            strictly_sorted::<Edge>(keys_of(fm)),
            forall|j: int| 0 <= j < i ==> !(#[trigger] fm[j]).1.contains(name@),
        decreases fm.len() - i,
    {
        if row.value_at(i).contains(name) {
            proof {
                lemma_entry_at::<Edge, Seq<Seq<char>>>(fm, i as int);
                assert(fm[i as int].1.to_set().contains(name@));
                assert(set_at(fm, fm[i as int].0).contains(name@));
            }
            return true;
        }
        i = i + 1;
    }
    proof {
        if reaches(fm, name@) {
            let key = choose|key: EdgeView| #[trigger] set_at(fm, key).contains(name@);
            let j = index_of_key(fm, key);
            assert(fm[j].1.to_set().contains(name@));
            assert(fm[j].1.contains(name@));
        }
    }
    false
}

/// Whether one of the first `n` maps reaches two queries.
pub open spec fn reached_together(maps: ForwardMaps, a: Seq<char>, b: Seq<char>, n: int) -> bool {
    exists|i: int| 0 <= i < n && reaches((#[trigger] maps[i]).1, a) && reaches(maps[i].1, b)
}

/// Whether one of the maps reaches two queries.
fn are_reached_together(
    maps: &OrderedMap<String, OrderedMap<Edge, OrderedSet<String>>>,
    a: &String,
    b: &String,
) -> (r: bool)
    ensures
        r == reached_together(maps@, a@, b@, maps@.len() as int),
{
    let ghost m = maps@;
    let mut i: usize = 0;
    while i < maps.len()
        invariant
            i <= m.len(),
            m == maps@,
            !reached_together(m, a@, b@, i as int),
        decreases m.len() - i,
    {
        let row = maps.value_at(i);
        if row_reaches(row, a) && row_reaches(row, b) {
            assert(reaches(m[i as int].1, a@) && reaches(m[i as int].1, b@));
            return true;
        }
        proof {
            if reached_together(m, a@, b@, i + 1) {
                let k = choose|k: int|
                    0 <= k < i + 1 && reaches((#[trigger] m[k]).1, a@) && reaches(m[k].1, b@);
                if k < i {
                    assert(reached_together(m, a@, b@, i as int));
                }
            }
        }
        i = i + 1;
    }
    false
}

/// Whether a map reaches a query by way of another: it reaches a query
/// among the first `n` whose map reaches the query.
pub open spec fn reaches_via(maps: ForwardMaps, row: ForwardMap, p: Seq<char>, n: int) -> bool {
    exists|i: int| 0 <= i < n && reaches(row, (#[trigger] maps[i]).0) && reaches(maps[i].1, p)
}

fn row_reaches_via(
    maps: &OrderedMap<String, OrderedMap<Edge, OrderedSet<String>>>,
    row: &OrderedMap<Edge, OrderedSet<String>>,
    p: &String,
) -> (r: bool)
    ensures
        r == reaches_via(maps@, row@, p@, maps@.len() as int),
{
    let ghost m = maps@;
    let mut i: usize = 0;
    while i < maps.len()
        invariant
            i <= m.len(),
            m == maps@,
            !reaches_via(m, row@, p@, i as int),
        decreases m.len() - i,
    {
        if row_reaches(row, maps.key_at(i)) && row_reaches(maps.value_at(i), p) {
            assert(reaches(row@, m[i as int].0) && reaches(m[i as int].1, p@));
            return true;
        }
        proof {
            if reaches_via(m, row@, p@, i + 1) {
                let k = choose|k: int|
                    0 <= k < i + 1 && reaches(row@, (#[trigger] m[k]).0) && reaches(m[k].1, p@);
                if k < i {
                    assert(reaches_via(m, row@, p@, i as int));
                }
            }
        }
        i = i + 1;
    }
    false
}

/// The triangle closure of edge-forward maps: a query that is reached
/// together with another gets the other under every output shape of its own
/// that the pattern of the other admits.
pub open spec fn is_triangle_closure(all: Queries, before: ForwardMaps, after: ForwardMaps) -> bool {
    &&& keys_of(after) == keys_of(before)
    &&& strictly_sorted::<String>(keys_of(after))
    &&& forall|i: int, key: EdgeView, name: Seq<char>|
        0 <= i < after.len() ==> (#[trigger] set_at(after[i].1, key).contains(name) <==> (set_at(
            before[i].1,
            key,
        ).contains(name) || (name != before[i].0 && reached_together(
            before,
            before[i].0,
            name,
            before.len() as int,
        ) && belongs_to(all, before[i].0, key, name))))
}

/// Closes edge-forward maps under the triangle rule: of two queries that
/// some query reaches, each gets the other where its outputs feed the
/// pattern of the other.
pub fn compute_edge_forward_triangle_closure(
    edge_forward_maps: OrderedMap<String, OrderedMap<Edge, OrderedSet<String>>>,
    all_queries_by_name: &OrderedMap<String, Query>,
) -> (r: OrderedMap<String, OrderedMap<Edge, OrderedSet<String>>>)
    ensures
        is_triangle_closure(all_queries_by_name@, edge_forward_maps@, r@),
        grown_soundly(all_queries_by_name@, edge_forward_maps@, r@),
{
    let ghost m0 = edge_forward_maps@;
    let ghost all = all_queries_by_name@;
    let mut maps = edge_forward_maps.dup();
    let mut i: usize = 0;
    proof {
        use_type_invariant(&edge_forward_maps);
        use_type_invariant(all_queries_by_name);
    }
    while i < edge_forward_maps.len()
        invariant
            i <= m0.len(),
            m0 == edge_forward_maps@,
            all == all_queries_by_name@,
            strictly_sorted::<String>(keys_of(m0)),
            strictly_sorted::<String>(keys_of(all)),
            maps@.len() == m0.len(),
            keys_of(maps@) == keys_of(m0),
            forall|k: int| i <= k < m0.len() ==> #[trigger] maps@[k] == m0[k],
            forall|k: int, key: EdgeView, name: Seq<char>|
                0 <= k < i ==> (#[trigger] set_at(maps@[k].1, key).contains(name) <==> (set_at(
                    m0[k].1,
                    key,
                ).contains(name) || (name != m0[k].0 && reached_together(
                    m0,
                    m0[k].0,
                    name,
                    m0.len() as int,
                ) && belongs_to(all, m0[k].0, key, name)))),
        decreases m0.len() - i,
    {
        let r1 = edge_forward_maps.key_at(i);
        let ghost r1v = r1@;
        let ghost before = maps@;
        match all_queries_by_name.get(r1) {
            Some(r1_query) => {
                let mut row = edge_forward_maps.value_at(i).dup();
                let ghost row0 = row@;
                assert(row0 == m0[i as int].1);
                let mut p: usize = 0;
                proof {
                    use_type_invariant(&row);
                    assert(value_of(all, r1v) == r1_query@);
                }
                while p < all_queries_by_name.len()
                    invariant
                        p <= all.len(),
                        i < m0.len(),
                        m0 == edge_forward_maps@,
                        all == all_queries_by_name@,
                        r1v == r1@,
                        r1v == m0[i as int].0,
                        has_key(all, r1v),
                        value_of(all, r1v) == r1_query@,
                        strictly_sorted::<String>(keys_of(all)),
                        strictly_sorted::<Edge>(keys_of(row@)),
                        forall|key: EdgeView, name: Seq<char>| #[trigger]
                            set_at(row@, key).contains(name) <==> (set_at(row0, key).contains(name)
                                || (name != r1v && reached_together(
                                m0,
                                r1v,
                                name,
                                m0.len() as int,
                            ) && has_key(all.take(p as int), name) && belongs_to(
                                all,
                                r1v,
                                key,
                                name,
                            ))),
                    decreases all.len() - p,
                {
                    let r2 = all_queries_by_name.key_at(p);
                    let ghost rb = row@;
                    let ghost r2v = r2@;
                    proof {
                        lemma_entry_at::<String, QueryView>(all, p as int);
                    }
                    if !same(r1, r2) && are_reached_together(&edge_forward_maps, r1, r2) {
                        let _ = add_pair(&mut row, r1_query, all_queries_by_name.value_at(p), r2);
                    }
                    proof {
                        assert forall|key: EdgeView, name: Seq<char>| #[trigger]
                            set_at(row@, key).contains(name) <==> (set_at(row0, key).contains(name)
                                || (name != r1v && reached_together(
                                m0,
                                r1v,
                                name,
                                m0.len() as int,
                            ) && has_key(all.take(p + 1), name) && belongs_to(
                                all,
                                r1v,
                                key,
                                name,
                            ))) by {
                            lemma_take_queries(all, p as int, name);
                            assert(set_at(rb, key).contains(name) <==> (set_at(row0, key).contains(
                                name,
                            ) || (name != r1v && reached_together(
                                m0,
                                r1v,
                                name,
                                m0.len() as int,
                            ) && has_key(all.take(p as int), name) && belongs_to(
                                all,
                                r1v,
                                key,
                                name,
                            ))));
                        }
                    }
                    p = p + 1;
                }
                assert(all.take(p as int) =~= all);
                maps.set_value_at(i, row);
            },
            None => {},
        }
        proof {
            let after = maps@;
            assert(keys_of(after) =~= keys_of(before));
            assert forall|k: int| i + 1 <= k < m0.len() implies #[trigger] after[k] == m0[k] by {
                assert(before[k] == m0[k]);
            }
            assert forall|k: int, key: EdgeView, name: Seq<char>| 0 <= k < i + 1 implies (
            #[trigger] set_at(after[k].1, key).contains(name) <==> (set_at(m0[k].1, key).contains(
                name,
            ) || (name != m0[k].0 && reached_together(m0, m0[k].0, name, m0.len() as int)
                && belongs_to(all, m0[k].0, key, name)))) by {
                if k < i {
                    assert(after[k] == before[k]);
                    assert(set_at(before[k].1, key).contains(name) <==> (set_at(
                        m0[k].1,
                        key,
                    ).contains(name) || (name != m0[k].0 && reached_together(
                        m0,
                        m0[k].0,
                        name,
                        m0.len() as int,
                    ) && belongs_to(all, m0[k].0, key, name))));
                } else {
                    assert(before[k] == m0[k]);
                }
            }
        }
        i = i + 1;
    }
    proof {
        assert(keys_of(maps@).len() == maps@.len());
        assert forall|k: int, key: EdgeView, name: Seq<char>|
            0 <= k < maps@.len() && #[trigger] set_at(maps@[k].1, key).contains(name) implies set_at(
            m0[k].1,
            key,
        ).contains(name) || belongs_to(all, maps@[k].0, key, name) by {
            assert(keys_of(maps@)[k] == keys_of(m0)[k]);
            assert(maps@[k].0 == m0[k].0);
        }
        assert(grown_soundly(all, m0, maps@));
    }
    maps
}

/// Whether a row of the maps is closed under the transitive rule: a query
/// that the row reaches by way of another, and whose pattern the outputs of
/// the query of the row feed, is reached by the row.
pub open spec fn closed_row(all: Queries, maps: ForwardMaps, i: int, upto: int) -> bool {
    has_key(all, maps[i].0) ==> forall|p: int|
        0 <= p < upto && reaches_via(maps, maps[i].1, (#[trigger] all[p]).0, maps.len() as int)
            && feeds(value_of(all, maps[i].0), all[p].1) ==> reaches(maps[i].1, all[p].0)
}

/// The transitive closure of edge-forward maps: they have grown soundly,
/// and every row is closed under the transitive rule.
pub open spec fn is_transitive_closure(all: Queries, before: ForwardMaps, after: ForwardMaps) -> bool {
    &&& grown_soundly(all, before, after)
    &&& forall|i: int| 0 <= i < after.len() ==> #[trigger] closed_row(all, after, i, all.len() as int)
}

/// The flags of the pairs of a query and a target that have got their
/// entries: a flagged target is reached.
pub open spec fn pairs_sound(all: Queries, maps: ForwardMaps, flags: Seq<bool>) -> bool {
    &&& flags.len() == maps.len() * all.len()
    &&& forall|i: int, p: int|
        0 <= i < maps.len() && 0 <= p < all.len() && #[trigger] flags[i * all.len() + p]
            ==> reaches(maps[i].1, all[p].0)
}

proof fn lemma_pair_index(i: int, p: int, n: int, a: int)
    requires
        0 <= i < n,
        0 <= p < a,
    ensures
        0 <= i * a + p < n * a,
        i * a >= 0,
{
    assert(i * a + p < n * a) by (nonlinear_arith)
        requires
            0 <= i < n,
            0 <= p < a,
    ;
    assert(i * a >= 0) by (nonlinear_arith)
        requires
            0 <= i,
            0 <= a,
    ;
}

proof fn lemma_pair_unique(i: int, p: int, j: int, q: int, a: int)
    requires
        0 <= p < a,
        0 <= q < a,
        0 <= i,
        0 <= j,
        i * a + p == j * a + q,
    ensures
        i == j && p == q,
{
    assert(i == j) by (nonlinear_arith)
        requires
            0 <= p < a,
            0 <= q < a,
            0 <= i,
            0 <= j,
            i * a + p == j * a + q,
    ;
}

/// Closes edge-forward maps under the transitive rule: whenever a query
/// reaches another and that one reaches a third which the first does not
/// reach, the first gets the third under every output shape of its own that
/// the pattern of the third admits; and so on until nothing changes.
pub fn compute_edge_forward_transitive_closure(
    edge_forward_maps: OrderedMap<String, OrderedMap<Edge, OrderedSet<String>>>,
    all_queries_by_name: &OrderedMap<String, Query>,
) -> (r: OrderedMap<String, OrderedMap<Edge, OrderedSet<String>>>)
    ensures
        is_transitive_closure(all_queries_by_name@, edge_forward_maps@, r@),
{
    let ghost m0 = edge_forward_maps@;
    let ghost all = all_queries_by_name@;
    let mut maps = edge_forward_maps;
    let n = maps.len();
    let a = all_queries_by_name.len();
    let mut flags: Vec<bool> = Vec::new();
    let mut i: usize = 0;
    proof {
        use_type_invariant(&maps);
        use_type_invariant(all_queries_by_name);
    }
    while i < n
        invariant
            i <= n,
            flags@.len() == i * a,
            forall|k: int| 0 <= k < flags@.len() ==> !#[trigger] flags@[k],
        decreases n - i,
    {
        let mut p: usize = 0;
        while p < a
            invariant
                p <= a,
                flags@.len() == i * a + p,
                forall|k: int| 0 <= k < flags@.len() ==> !#[trigger] flags@[k],
            decreases a - p,
        {
            flags.push(false);
            p = p + 1;
        }
        assert(i * a + a == (i + 1) * a) by (nonlinear_arith);
        i = i + 1;
    }
    proof {
        assert(keys_of(maps@).len() == maps@.len());
        assert(flags@.len() == maps@.len() * all.len());
        assert(pairs_sound(all, maps@, flags@)) by {
            assert forall|i: int, p: int|
                0 <= i < maps@.len() && 0 <= p < all.len() && #[trigger] flags@[i * all.len() + p]
                implies reaches(maps@[i].1, all[p].0) by {
                lemma_pair_index(i, p, maps@.len() as int, all.len() as int);
            }
        }
    }
    let mut changed = true;
    while changed
        invariant
            n == maps@.len(),
            a == all.len(),
            all == all_queries_by_name@,
            strictly_sorted::<String>(keys_of(all)),
            grown_soundly(all, m0, maps@),
            pairs_sound(all, maps@, flags@),
            !changed ==> forall|k: int|
                0 <= k < n ==> #[trigger] closed_row(all, maps@, k, all.len() as int),
        decreases count_unset(flags@) + (if changed { 1nat } else { 0nat }),
    {
        changed = false;
        let ghost pass_flags = flags@;
        let ghost pass_maps = maps@;
        let mut i: usize = 0;
        while i < n
            invariant
                i <= n,
                n == maps@.len(),
                a == all.len(),
                all == all_queries_by_name@,
                strictly_sorted::<String>(keys_of(all)),
                grown_soundly(all, m0, maps@),
                pairs_sound(all, maps@, flags@),
                !changed ==> flags@ == pass_flags && maps@ == pass_maps,
                changed ==> count_unset(flags@) < count_unset(pass_flags),
                !changed ==> forall|k: int|
                    0 <= k < i ==> #[trigger] closed_row(all, maps@, k, all.len() as int),
            decreases n - i,
        {
            let q = maps.key_at(i).dup();
            let ghost qv = q@;
            match all_queries_by_name.get(&q) {
                Some(q_query) => {
                    let ghost row_start_changed = changed;
                    let mut p: usize = 0;
                    while p < a
                        invariant
                            p <= a,
                            i < n,
                            n == maps@.len(),
                            a == all.len(),
                            all == all_queries_by_name@,
                            qv == q@,
                            qv == maps@[i as int].0,
                            has_key(all, qv),
                            value_of(all, qv) == q_query@,
                            strictly_sorted::<String>(keys_of(all)),
                            grown_soundly(all, m0, maps@),
                            pairs_sound(all, maps@, flags@),
                            !changed ==> flags@ == pass_flags && maps@ == pass_maps,
                            changed ==> count_unset(flags@) < count_unset(pass_flags),
                            !changed ==> forall|k: int|
                                0 <= k < i ==> #[trigger] closed_row(
                                    all,
                                    maps@,
                                    k,
                                    all.len() as int,
                                ),
                            !changed ==> closed_row(all, maps@, i as int, p as int),
                        decreases a - p,
                    {
                        let pn = all_queries_by_name.key_at(p);
                        let p_query = all_queries_by_name.value_at(p);
                        let ghost before = maps@;
                        let ghost fb = flags@;
                        let mut new_row: Option<OrderedMap<Edge, OrderedSet<String>>> = None;
                        {
                            let row = maps.value_at(i);
                            if !row_reaches(row, pn) && row_reaches_via(&maps, row, pn) {
                                let mut grown = row.dup();
                                proof {
                                    use_type_invariant(&grown);
                                }
                                let fed = add_pair(&mut grown, q_query, p_query, pn);
                                if fed {
                                    new_row = Some(grown);
                                }
                            }
                        }
                        proof {
                            lemma_entry_at::<String, QueryView>(all, p as int);
                        }
                        match new_row {
                            Some(grown) => {
                                let ghost gv = grown@;
                                proof {
                                    lemma_pair_index(i as int, p as int, n as int, a as int);
                                    assert(fb.len() == n * a);
                                    assert(!fb[(i * a + p) as int]);
                                    lemma_set_flag(fb, (i * a + p) as int);
                                    assert(i * a + p < flags@.len());
                                    assert(i * a <= i * a + p);
                                }
                                maps.set_value_at(i, grown);
                                let total = flags.len();
                                assert(i * a + p < total);
                                let at = i * a + p;
                                flags.set(at, true);
                                changed = true;
                                proof {
                                    let after = maps@;
                                    assert(keys_of(after) =~= keys_of(before));
                                    assert forall|k: int, key: EdgeView, name: Seq<char>|
                                        0 <= k < before.len() && #[trigger] set_at(
                                            before[k].1,
                                            key,
                                        ).contains(name) implies set_at(after[k].1, key).contains(
                                        name,
                                    ) by {
                                        if k != i {
                                            assert(after[k] == before[k]);
                                        }
                                    }
                                    assert forall|k: int, key: EdgeView, name: Seq<char>|
                                        0 <= k < after.len() && #[trigger] set_at(
                                            after[k].1,
                                            key,
                                        ).contains(name) implies set_at(m0[k].1, key).contains(name)
                                        || belongs_to(all, after[k].0, key, name) by {
                                        assert(keys_of(before)[k] == before[k].0);
                                        assert(keys_of(after)[k] == after[k].0);
                                        if k != i {
                                            assert(after[k] == before[k]);
                                            assert(set_at(before[k].1, key).contains(name));
                                        } else {
                                            if set_at(before[k].1, key).contains(name) {
                                            } else {
                                                assert(name == pn@);
                                                assert(value_of(all, pn@) == p_query@);
                                            }
                                        }
                                    }
                                    assert(flags@.len() == after.len() * all.len());
                                    assert forall|k: int, j: int|
                                        0 <= k < after.len() && 0 <= j < all.len()
                                            && #[trigger] flags@[k * all.len() + j] implies reaches(
                                        after[k].1,
                                        all[j].0,
                                    ) by {
                                        lemma_pair_index(k, j, n as int, a as int);
                                        if k * all.len() + j == i * a + p {
                                            lemma_pair_unique(k, j, i as int, p as int, a as int);
                                        } else {
                                            assert(fb[k * all.len() + j]);
                                            assert(reaches(before[k].1, all[j].0));
                                            let key = choose|key: EdgeView| #[trigger]
                                                set_at(before[k].1, key).contains(all[j].0);
                                            assert(set_at(after[k].1, key).contains(all[j].0));
                                        }
                                    }
                                    assert(grown_soundly(all, m0, after)) by {
                                        assert forall|k: int, key: EdgeView, name: Seq<char>|
                                            0 <= k < m0.len() && #[trigger] set_at(
                                                m0[k].1,
                                                key,
                                            ).contains(name) implies set_at(
                                            after[k].1,
                                            key,
                                        ).contains(name) by {
                                            assert(set_at(before[k].1, key).contains(name));
                                        }
                                    }
                                }
                            },
                            None => {
                                proof {
                                    if !changed {
                                        assert forall|j: int|
                                            0 <= j < p + 1 && reaches_via(
                                                maps@,
                                                maps@[i as int].1,
                                                (#[trigger] all[j]).0,
                                                maps@.len() as int,
                                            ) && feeds(
                                                value_of(all, maps@[i as int].0),
                                                all[j].1,
                                            ) implies reaches(maps@[i as int].1, all[j].0) by {
                                            if j < p {
                                                assert(closed_row(all, maps@, i as int, p as int));
                                            }
                                        }
                                    }
                                }
                            },
                        }
                        p = p + 1;
                    }
                },
                None => {},
            }
            i = i + 1;
        }
    }
    maps
}

/// Closes edge-forward maps under the transitive rule and then under the
/// triangle rule.
pub fn compute_edge_forward_closure(
    edge_forward_maps: OrderedMap<String, OrderedMap<Edge, OrderedSet<String>>>,
    all_queries_by_name: &OrderedMap<String, Query>,
) -> (r: OrderedMap<String, OrderedMap<Edge, OrderedSet<String>>>)
    ensures
        is_closure(all_queries_by_name@, edge_forward_maps@, r@),
        grown_soundly(all_queries_by_name@, edge_forward_maps@, r@),
{
    let transitive = compute_edge_forward_transitive_closure(edge_forward_maps, all_queries_by_name);
    let ghost t = transitive@;
    let r = compute_edge_forward_triangle_closure(transitive, all_queries_by_name);
    proof {
        let all = all_queries_by_name@;
        let m0 = edge_forward_maps@;
        assert(is_transitive_closure(all, m0, t) && is_triangle_closure(all, t, r@));
        assert(keys_of(t).len() == t.len());
        assert(keys_of(r@).len() == r@.len());
        assert(keys_of(m0).len() == m0.len());
        assert forall|i: int, key: EdgeView, name: Seq<char>|
            0 <= i < r@.len() && #[trigger] set_at(r@[i].1, key).contains(name) implies set_at(
            m0[i].1,
            key,
        ).contains(name) || belongs_to(all, r@[i].0, key, name) by {
            assert(keys_of(r@)[i] == keys_of(t)[i]);
            assert(r@[i].0 == t[i].0);
            if set_at(t[i].1, key).contains(name) {
            }
        }
        assert forall|i: int, key: EdgeView, name: Seq<char>|
            0 <= i < m0.len() && #[trigger] set_at(m0[i].1, key).contains(name) implies set_at(
            r@[i].1,
            key,
        ).contains(name) by {
            assert(set_at(t[i].1, key).contains(name));
        }
    }
    r
}

/// The closure of edge-forward maps: the triangle closure of their
/// transitive closure.
pub open spec fn is_closure(all: Queries, before: ForwardMaps, after: ForwardMaps) -> bool {
    exists|t: ForwardMaps|
        is_transitive_closure(all, before, t) && #[trigger] is_triangle_closure(all, t, after)
}

impl Router {
    /// The edge-forward maps of all queries.
    pub fn compute_edge_forward_maps(all_queries_by_name: &OrderedMap<String, Query>) -> (r:
        OrderedMap<String, OrderedMap<Edge, OrderedSet<String>>>)
        ensures
            strictly_sorted::<String>(keys_of(r@)),
            forall|name: Seq<char>| #[trigger]
                has_key(r@, name) <==> has_key(all_queries_by_name@, name),
            forall|name: Seq<char>| #[trigger]
                has_key(r@, name) ==> is_forward_map(
                    value_of(all_queries_by_name@, name).output_edges,
                    all_queries_by_name@,
                    value_of(r@, name),
                ),
    {
        compute_edge_forward_maps(all_queries_by_name)
    }

    /// The queries that each query reaches.
    pub fn compute_reachable_map(
        edge_forward_maps: &OrderedMap<String, OrderedMap<Edge, OrderedSet<String>>>,
    ) -> (r: OrderedMap<String, OrderedSet<String>>)
        ensures
            strictly_sorted::<String>(keys_of(r@)),
            forall|name: Seq<char>| #[trigger]
                has_key(r@, name) <==> has_key(edge_forward_maps@, name),
            forall|name: Seq<char>, p: Seq<char>|
                has_key(r@, name) ==> (#[trigger] value_of(r@, name).contains(p) <==> reaches(
                    value_of(edge_forward_maps@, name),
                    p,
                )),
    {
        compute_reachable_map(edge_forward_maps)
    }

    /// Closes edge-forward maps under the transitive rule and then under
    /// the triangle rule.
    pub fn compute_edge_forward_closure(
        edge_forward_maps: OrderedMap<String, OrderedMap<Edge, OrderedSet<String>>>,
        all_queries_by_name: &OrderedMap<String, Query>,
    ) -> (r: OrderedMap<String, OrderedMap<Edge, OrderedSet<String>>>)
        ensures
            is_closure(all_queries_by_name@, edge_forward_maps@, r@),
            grown_soundly(all_queries_by_name@, edge_forward_maps@, r@),
    {
        compute_edge_forward_closure(edge_forward_maps, all_queries_by_name)
    }
}

} // verus!
