//! Queries and their matcher: the homomorphisms of a labelled graph pattern,
//! with optional edges and grouping nodes, into a working graph.

use crate::graph::{end_of, Edge, EdgeView, Graph, GraphView, Node, NodeView};
use crate::order::{same, Sortable, Value};
use crate::ordered::{
    add_to_set_at, as_map, has_key, index_of_key, keys_of, lemma_entry_at, lemma_sorted_unique,
    set_at, strictly_sorted, value_of, OrderedMap, OrderedSet,
};
use vstd::prelude::*;

verus! {

/// A labelled graph pattern with optional edges, grouping nodes, the edge
/// shapes that it may emit and the nodes at which its events arrive.
#[derive(Debug, PartialEq, Eq)]
pub struct Query {
    pub name: String,
    pub application: String,
    pub graph: Graph,
    pub optional_edges: OrderedSet<Edge>,
    pub group: OrderedSet<Node>,
    pub output_edges: OrderedSet<Edge>,
    pub input_nodes: OrderedSet<Node>,
}

/// What a query holds.
pub struct QueryView {
    pub name: Seq<char>,
    pub application: Seq<char>,
    pub graph: GraphView,
    pub optional_edges: Seq<EdgeView>,
    pub group: Seq<NodeView>,
    pub output_edges: Seq<EdgeView>,
    pub input_nodes: Seq<NodeView>,
}

impl DeepView for Query {
    type V = QueryView;

    open spec fn deep_view(&self) -> QueryView {
        QueryView {
            name: self.name@,
            application: self.application@,
            graph: self.graph@,
            optional_edges: self.optional_edges@,
            group: self.group@,
            output_edges: self.output_edges@,
            input_nodes: self.input_nodes@,
        }
    }
}

impl View for Query {
    type V = QueryView;

    open spec fn view(&self) -> QueryView {
        self.deep_view()
    }
}

impl Value for Query {
    fn dup(&self) -> (r: Self) {
        Query {
            name: self.name.dup(),
            application: self.application.dup(),
            graph: self.graph.dup(),
            optional_edges: self.optional_edges.dup(),
            group: self.group.dup(),
            output_edges: self.output_edges.dup(),
            input_nodes: self.input_nodes.dup(),
        }
    }
}

impl Clone for Query {
    fn clone(&self) -> (r: Self)
        ensures
            r@ == self@,
    {
        self.dup()
    }
}

/// The entries of a match: each bound query edge with the graph edge that it
/// is mapped to, if any.
pub type MatchEntries = Seq<(EdgeView, Option<EdgeView>)>;

/// A match as a map from query edges to graph edges.
pub type MatchMap = Map<EdgeView, Option<EdgeView>>;

/// A mapping from the edges of a query to edges of a graph; an optional edge
/// may be mapped to nothing.
#[derive(Debug, PartialEq, Eq)]
pub struct QueryMatch {
    pub homomorphism: OrderedMap<Edge, Option<Edge>>,
}

impl DeepView for QueryMatch {
    type V = MatchEntries;

    open spec fn deep_view(&self) -> MatchEntries {
        self.homomorphism@
    }
}

impl View for QueryMatch {
    type V = MatchEntries;

    open spec fn view(&self) -> MatchEntries {
        self.homomorphism@
    }
}

impl Value for QueryMatch {
    fn dup(&self) -> (r: Self) {
        QueryMatch { homomorphism: self.homomorphism.dup() }
    }
}

impl Clone for QueryMatch {
    fn clone(&self) -> (r: Self)
        ensures
            r@ == self@,
    {
        self.dup()
    }
}

/// The matches that agree on the images of the grouping nodes.
#[derive(Debug, PartialEq, Eq)]
pub struct GroupedQueryMatch {
    pub grouped_matches: Vec<QueryMatch>,
}

impl DeepView for GroupedQueryMatch {
    type V = Seq<MatchEntries>;

    open spec fn deep_view(&self) -> Seq<MatchEntries> {
        self.grouped_matches.deep_view()
    }
}

impl View for GroupedQueryMatch {
    type V = Seq<MatchEntries>;

    open spec fn view(&self) -> Seq<MatchEntries> {
        self.grouped_matches.deep_view()
    }
}

impl Value for GroupedQueryMatch {
    fn dup(&self) -> (r: Self) {
        GroupedQueryMatch { grouped_matches: self.grouped_matches.dup() }
    }
}

impl Clone for GroupedQueryMatch {
    fn clone(&self) -> (r: Self)
        ensures
            r@ == self@,
    {
        self.dup()
    }
}

/// The matches of a list, each as a map.
pub open spec fn maps_of(s: Seq<MatchEntries>) -> Seq<MatchMap> {
    Seq::new(s.len(), |i: int| as_map(s[i]))
}

/// Whether a graph edge can stand for a query edge, by itself: the edge
/// types and the classes of the nodes agree, and where the query edge names a
/// node's type or instance, the graph edge has the same.
pub open spec fn passes_filter(e: EdgeView, t: EdgeView) -> bool {
    &&& t.edge_type == e.edge_type
    &&& e.src.node_class == t.src.node_class
    &&& e.trg.node_class == t.trg.node_class
    &&& (e.src.node_type is None || e.src.node_type == t.src.node_type)
    &&& (e.trg.node_type is None || e.trg.node_type == t.trg.node_type)
    &&& (e.src.instance_node_name is None || e.src.instance_node_name == t.src.instance_node_name)
    &&& (e.trg.instance_node_name is None || e.trg.instance_node_name == t.trg.instance_node_name)
}

/// The graph edges that can stand for a query edge, in their order.
pub open spec fn candidates(e: EdgeView, edges: Seq<EdgeView>) -> Seq<EdgeView>
    decreases edges.len(),
{
    if edges.len() == 0 {
        edges
    } else {
        let rest = candidates(e, edges.drop_last());
        if passes_filter(e, edges.last()) {
            rest.push(edges.last())
        } else {
            rest
        }
    }
}

/// The edges that an adjacency gives a node; none where it does not know the
/// node.
pub open spec fn neighbours(adj: Seq<(NodeView, Seq<EdgeView>)>, n: NodeView) -> Seq<EdgeView> {
    if has_key(adj, n) {
        value_of(adj, n)
    } else {
        Seq::empty()
    }
}

/// Whether a query edge other than `e` is bound by the match, and how.
pub open spec fn bound_image(m: MatchMap, e: EdgeView, x: EdgeView) -> Option<EdgeView> {
    if x != e && m.contains_key(x) {
        m[x]
    } else {
        None
    }
}

/// Every edge around a node that the match has bound, other than `e`, is
/// mapped to an edge that meets `image` at the same end.
pub open spec fn agrees(
    m: MatchMap,
    e: EdgeView,
    around: Seq<EdgeView>,
    incoming: bool,
    image: NodeView,
) -> bool {
    forall|i: int|
        0 <= i < around.len() && bound_image(m, e, #[trigger] around[i]) is Some ==> end_of(
            bound_image(m, e, around[i])->0,
            incoming,
        ) == image
}

/// Whether mapping `e` to `c` is consistent with what the match has bound:
/// at each end of `e` that the query leaves open, the bound neighbours meet
/// the corresponding end of `c`.
pub open spec fn consistent(q: QueryView, e: EdgeView, m: MatchMap, c: EdgeView) -> bool {
    &&& e.src.instance_node_name is None ==> agrees(
        m,
        e,
        neighbours(q.graph.incoming, e.src),
        true,
        c.src,
    ) && agrees(m, e, neighbours(q.graph.outgoing, e.src), false, c.src)
    &&& e.trg.instance_node_name is None ==> agrees(
        m,
        e,
        neighbours(q.graph.incoming, e.trg),
        true,
        c.trg,
    ) && agrees(m, e, neighbours(q.graph.outgoing, e.trg), false, c.trg)
}

/// The match extended by each candidate that is consistent with it.
pub open spec fn with_candidates(q: QueryView, e: EdgeView, m: MatchMap, cands: Seq<EdgeView>) -> Seq<
    MatchMap,
>
    decreases cands.len(),
{
    if cands.len() == 0 {
        Seq::empty()
    } else {
        let rest = with_candidates(q, e, m, cands.drop_last());
        if consistent(q, e, m, cands.last()) {
            rest.push(m.insert(e, Some(cands.last())))
        } else {
            rest
        }
    }
}

/// The extensions of one match by a query edge: one for each consistent
/// candidate and, where the edge is optional, one that leaves it unmatched.
pub open spec fn extensions(q: QueryView, e: EdgeView, m: MatchMap, cands: Seq<EdgeView>) -> Seq<
    MatchMap,
> {
    with_candidates(q, e, m, cands) + (if q.optional_edges.contains(e) {
        seq![m.insert(e, None)]
    } else {
        Seq::empty()
    })
}

/// The extensions of every match of a list, in the order of the list.
pub open spec fn extend_all(q: QueryView, e: EdgeView, ms: Seq<MatchMap>, cands: Seq<EdgeView>) -> Seq<
    MatchMap,
>
    decreases ms.len(),
{
    if ms.len() == 0 {
        Seq::empty()
    } else {
        extend_all(q, e, ms.drop_last(), cands) + extensions(q, e, ms.last(), cands)
    }
}

pub(crate) fn passes(e: &Edge, t: &Edge) -> (r: bool)
    ensures
        r == passes_filter(e@, t@),
{
    same(&t.edge_type, &e.edge_type) && same(&e.src.node_class, &t.src.node_class) && same(
        &e.trg.node_class,
        &t.trg.node_class,
    ) && (e.src.node_type.is_none() || same(&e.src.node_type, &t.src.node_type)) && (
    e.trg.node_type.is_none() || same(&e.trg.node_type, &t.trg.node_type)) && (
    e.src.instance_node_name.is_none() || same(&e.src.instance_node_name, &t.src.instance_node_name))
        && (e.trg.instance_node_name.is_none() || same(
        &e.trg.instance_node_name,
        &t.trg.instance_node_name,
    ))
}

fn find_candidates<'a>(e: &Edge, edges: &'a Vec<Edge>) -> (r: Vec<&'a Edge>)
    ensures
        r.deep_view() == candidates(e@, edges.deep_view()),
{
    let mut out: Vec<&Edge> = Vec::new();
    let ghost ev = edges.deep_view();
    let mut i: usize = 0;
    assert(out.deep_view() =~= candidates(e@, ev.take(0)));
    while i < edges.len()
        invariant
            i <= edges.len(),
            ev == edges.deep_view(),
            out.deep_view() == candidates(e@, ev.take(i as int)),
        decreases edges.len() - i,
    {
        proof {
            let cur = ev.take(i + 1);
            assert(cur.drop_last() =~= ev.take(i as int));
            assert(cur.last() == ev[i as int]);
        }
        if passes(e, &edges[i]) {
            let ghost prev = out.deep_view();
            out.push(&edges[i]);
            assert(out.deep_view() =~= prev.push(ev[i as int]));
        }
        i = i + 1;
    }
    assert(ev.take(i as int) =~= ev);
    out
}

fn check_agrees(
    m: &QueryMatch,
    e: &Edge,
    adjacency: &OrderedMap<Node, Vec<Edge>>,
    node: &Node,
    incoming: bool,
    image: &Node,
) -> (r: bool)
    ensures
        r == agrees(as_map(m@), e@, neighbours(adjacency@, node@), incoming, image@),
{
    let around = match adjacency.get(node) {
        Some(list) => list,
        None => {
            return true;
        },
    };
    let ghost av = around.deep_view();
    let ghost mm = as_map(m@);
    assert(av == neighbours(adjacency@, node@));
    let mut i: usize = 0;
    while i < around.len()
        invariant
            i <= around.len(),
            av == around.deep_view(),
            av == neighbours(adjacency@, node@),
            mm == as_map(m@),
            forall|j: int|
                0 <= j < i && bound_image(mm, e@, #[trigger] av[j]) is Some ==> end_of(
                    bound_image(mm, e@, av[j])->0,
                    incoming,
                ) == image@,
        decreases around.len() - i,
    {
        let x = &around[i];
        assert(av[i as int] == x@);
        if !same(x, e) {
            match m.homomorphism.get(x) {
                Some(Some(mapped)) => {
                    let end = if incoming {
                        &mapped.trg
                    } else {
                        &mapped.src
                    };
                    if !same(end, image) {
                        proof {
                            assert(mm.contains_key(x@));
                            assert(mm[x@] == Some(mapped@));
                            assert(end@ == end_of(mapped@, incoming));
                            assert(bound_image(mm, e@, av[i as int]) == Some(mapped@));
                        }
                        return false;
                    }
                },
                _ => {},
            }
        }
        i = i + 1;
    }
    true
}

impl Query {
    fn is_consistent(&self, e: &Edge, m: &QueryMatch, c: &Edge) -> (r: bool)
        ensures
            r == consistent(self@, e@, as_map(m@), c@),
    {
        if e.src.instance_node_name.is_none() {
            if !check_agrees(m, e, &self.graph.incoming, &e.src, true, &c.src) {
                return false;
            }
            if !check_agrees(m, e, &self.graph.outgoing, &e.src, false, &c.src) {
                return false;
            }
        }
        if e.trg.instance_node_name.is_none() {
            if !check_agrees(m, e, &self.graph.incoming, &e.trg, true, &c.trg) {
                return false;
            }
            if !check_agrees(m, e, &self.graph.outgoing, &e.trg, false, &c.trg) {
                return false;
            }
        }
        true
    }

    /// Extends every match by a query edge: with each graph edge that passes
    /// the edge's own filter and is consistent with what the match has bound,
    /// and, where the edge is optional, with nothing.
    pub fn extend_matches(&self, e: &Edge, matches: Vec<QueryMatch>, g: &Graph) -> (r: Vec<
        QueryMatch,
    >)
        ensures
            maps_of(r.deep_view()) == extend_all(
                self@,
                e@,
                maps_of(matches.deep_view()),
                candidates(e@, g@.edges),
            ),
    {
        let cands = find_candidates(e, &g.edges);
        let ghost cv = cands.deep_view();
        let ghost ms = maps_of(matches.deep_view());
        let mut new_matches: Vec<QueryMatch> = Vec::new();
        let optional = self.optional_edges.contains(e);
        let mut i: usize = 0;
        assert(maps_of(new_matches.deep_view()) =~= extend_all(self@, e@, ms.take(0), cv));
        while i < matches.len()
            invariant
                i <= matches.len(),
                cv == cands.deep_view(),
                ms == maps_of(matches.deep_view()),
                optional == self@.optional_edges.contains(e@),
                maps_of(new_matches.deep_view()) == extend_all(self@, e@, ms.take(i as int), cv),
            decreases matches.len() - i,
        {
            let m = &matches[i];
            let ghost mm = as_map(m@);
            let ghost base = maps_of(new_matches.deep_view());
            proof {
                let cur = ms.take(i + 1);
                assert(cur.drop_last() =~= ms.take(i as int));
                assert(cur.last() == ms[i as int]);
                assert(ms[i as int] == mm);
                assert(base + with_candidates(self@, e@, mm, cv.take(0)) =~= base);
            }
            let mut k: usize = 0;
            while k < cands.len()
                invariant
                    k <= cands.len(),
                    cv == cands.deep_view(),
                    mm == as_map(m@),
                    maps_of(new_matches.deep_view()) == base + with_candidates(
                        self@,
                        e@,
                        mm,
                        cv.take(k as int),
                    ),
                decreases cands.len() - k,
            {
                let c = cands[k];
                proof {
                    let cur = cv.take(k + 1);
                    assert(cur.drop_last() =~= cv.take(k as int));
                    assert(cur.last() == cv[k as int]);
                    assert(cv[k as int] == c@);
                }
                if self.is_consistent(e, m, c) {
                    let mut new_match = m.dup();
                    new_match.homomorphism.insert(e.dup(), Some(c.dup()));
                    let ghost prev = maps_of(new_matches.deep_view());
                    let ghost added = as_map(new_match@);
                    new_matches.push(new_match);
                    proof {
                        assert(added == mm.insert(e@, Some(c@)));
                        assert(maps_of(new_matches.deep_view()) =~= prev.push(added));
                        let w = with_candidates(self@, e@, mm, cv.take(k as int));
                        assert((base + w).push(added) =~= base + w.push(added));
                    }
                }
                k = k + 1;
            }
            assert(cv.take(k as int) =~= cv);
            if optional {
                let mut empty_extension = m.dup();
                empty_extension.homomorphism.insert(e.dup(), None);
                let ghost prev = maps_of(new_matches.deep_view());
                let ghost added = as_map(empty_extension@);
                new_matches.push(empty_extension);
                proof {
                    assert(added == mm.insert(e@, None));
                    assert(maps_of(new_matches.deep_view()) =~= prev.push(added));
                    let w = with_candidates(self@, e@, mm, cv);
                    assert((base + w).push(added) =~= base + (w + seq![added]));
                }
            } else {
                proof {
                    let w = with_candidates(self@, e@, mm, cv);
                    assert(base + w =~= base + (w + Seq::<MatchMap>::empty()));
                }
            }
            i = i + 1;
        }
        assert(ms.take(i as int) =~= ms);
        new_matches
    }
}

/// Whether the matcher has to bind a query edge: one whose ends both name
/// their instance is bound already.
pub open spec fn is_open(e: EdgeView) -> bool {
    e.src.instance_node_name is None || e.trg.instance_node_name is None
}

/// The matches after the first `n` edges of the query have been looked at.
pub open spec fn matched_upto(q: QueryView, g: GraphView, n: int) -> Seq<MatchMap>
    decreases n,
{
    if n <= 0 {
        seq![Map::empty()]
    } else {
        let prev = matched_upto(q, g, n - 1);
        let e = q.graph.edges[n - 1];
        if is_open(e) {
            extend_all(q, e, prev, candidates(e, g.edges))
        } else {
            prev
        }
    }
}

/// Whether every edge that `m` maps is mapped by `k` in the same way.
pub open spec fn included(m: MatchMap, k: MatchMap) -> bool {
    forall|x: EdgeView|
        m.contains_key(x) && (#[trigger] m[x]) is Some ==> k.contains_key(x) && k[x] == m[x]
}

/// The excluded positions after match `i` has been held against match `j`:
/// of two matches of which one includes the other, the included one is
/// excluded; of two that include each other, the first.
pub open spec fn exclude_step(ms: Seq<MatchMap>, ex: Set<int>, i: int, j: int) -> Set<int> {
    if ex.contains(j) {
        ex
    } else if included(ms[j], ms[i]) && !included(ms[i], ms[j]) {
        ex.insert(j)
    } else if included(ms[i], ms[j]) {
        ex.insert(i)
    } else {
        ex
    }
}

/// The excluded positions after match `i` has been held against the matches
/// from position `j` on.
pub open spec fn exclude_row(ms: Seq<MatchMap>, ex: Set<int>, i: int, j: int) -> Set<int>
    decreases ms.len() - j,
{
    if j < 0 || j >= ms.len() {
        ex
    } else {
        exclude_row(ms, exclude_step(ms, ex, i, j), i, j + 1)
    }
}

/// The excluded positions after every match from position `i` on that is not
/// excluded has been held against the matches behind it.
pub open spec fn exclude_from(ms: Seq<MatchMap>, ex: Set<int>, i: int) -> Set<int>
    decreases ms.len() - i,
{
    if i < 0 || i >= ms.len() {
        ex
    } else if ex.contains(i) {
        exclude_from(ms, ex, i + 1)
    } else {
        exclude_from(ms, exclude_row(ms, ex, i, i + 1), i + 1)
    }
}

/// The first `n` matches without the excluded ones.
pub open spec fn kept(ms: Seq<MatchMap>, ex: Set<int>, n: int) -> Seq<MatchMap>
    decreases n,
{
    if n <= 0 {
        Seq::empty()
    } else {
        let rest = kept(ms, ex, n - 1);
        if ex.contains(n - 1) {
            rest
        } else {
            rest.push(ms[n - 1])
        }
    }
}

/// Whether a match that is excluded is included in one that is not.
pub open spec fn has_keeper(ms: Seq<MatchMap>, ex: Set<int>, x: int) -> bool {
    exists|y: int| 0 <= y < ms.len() && !(#[trigger] ex.contains(y)) && included(ms[x], ms[y])
}

/// Whether every excluded match is included in one that is not excluded.
pub open spec fn all_covered(ms: Seq<MatchMap>, ex: Set<int>) -> bool {
    forall|x: int| 0 <= x < ms.len() && ex.contains(x) ==> #[trigger] has_keeper(ms, ex, x)
}

/// Whether neither of two matches includes the other.
pub open spec fn apart(m: MatchMap, k: MatchMap) -> bool {
    !included(m, k) && !included(k, m)
}

/// Whether the matches that are not excluded are apart, as far as they
/// have been held against each other: every match before position `i`
/// against every later one, and match `i` against those before `upto`.
pub open spec fn apart_upto(ms: Seq<MatchMap>, ex: Set<int>, i: int, upto: int) -> bool {
    forall|a: int, b: int|
        0 <= a < b < ms.len() && !ex.contains(a) && !ex.contains(b) && (a < i || (a == i && b
            < upto)) ==> #[trigger] apart(ms[a], ms[b])
}

proof fn lemma_included_transitive(m: MatchMap, k: MatchMap, l: MatchMap)
    requires
        included(m, k),
        included(k, l),
    ensures
        included(m, l),
{
    assert forall|x: EdgeView| m.contains_key(x) && (#[trigger] m[x]) is Some implies l.contains_key(
        x,
    ) && l[x] == m[x] by {
        assert(k.contains_key(x) && k[x] == m[x]);
    }
}

proof fn lemma_exclude_step(ms: Seq<MatchMap>, ex: Set<int>, i: int, j: int)
    requires
        0 <= i < j < ms.len(),
        all_covered(ms, ex),
        apart_upto(ms, ex, i, j),
    ensures
        ex.subset_of(exclude_step(ms, ex, i, j)),
        all_covered(ms, exclude_step(ms, ex, i, j)),
        apart_upto(ms, exclude_step(ms, ex, i, j), i, j + 1),
{
    let after = exclude_step(ms, ex, i, j);
    if ex.contains(j) {
    } else if included(ms[j], ms[i]) && !included(ms[i], ms[j]) {
        // j is excluded; what includes i, or i itself, keeps it
        let keeper = if ex.contains(i) {
            assert(has_keeper(ms, ex, i));
            choose|y: int| 0 <= y < ms.len() && !(#[trigger] ex.contains(y)) && included(ms[i], ms[y])
        } else {
            i
        };
        if ex.contains(i) {
            lemma_included_transitive(ms[j], ms[i], ms[keeper]);
        }
        assert(keeper != j);
        assert forall|x: int| 0 <= x < ms.len() && after.contains(x) implies #[trigger] has_keeper(
            ms,
            after,
            x,
        ) by {
            if x == j {
                assert(!after.contains(keeper));
            } else {
                assert(has_keeper(ms, ex, x));
                let y = choose|y: int|
                    0 <= y < ms.len() && !(#[trigger] ex.contains(y)) && included(ms[x], ms[y]);
                if y == j {
                    lemma_included_transitive(ms[x], ms[j], ms[keeper]);
                    assert(!after.contains(keeper));
                } else {
                    assert(!after.contains(y));
                }
            }
        }
    } else if included(ms[i], ms[j]) {
        // i is excluded; j keeps it
        assert forall|x: int| 0 <= x < ms.len() && after.contains(x) implies #[trigger] has_keeper(
            ms,
            after,
            x,
        ) by {
            if x == i {
                assert(!after.contains(j));
            } else {
                assert(has_keeper(ms, ex, x));
                let y = choose|y: int|
                    0 <= y < ms.len() && !(#[trigger] ex.contains(y)) && included(ms[x], ms[y]);
                if y == i {
                    lemma_included_transitive(ms[x], ms[i], ms[j]);
                    assert(!after.contains(j));
                } else {
                    assert(!after.contains(y));
                }
            }
        }
    } else {
        assert(apart(ms[i], ms[j]));
    }
}

proof fn lemma_exclude_row(ms: Seq<MatchMap>, ex: Set<int>, i: int, j: int)
    requires
        0 <= i < j <= ms.len(),
        all_covered(ms, ex),
        apart_upto(ms, ex, i, j),
    ensures
        ex.subset_of(exclude_row(ms, ex, i, j)),
        all_covered(ms, exclude_row(ms, ex, i, j)),
        apart_upto(ms, exclude_row(ms, ex, i, j), i, ms.len() as int),
    decreases ms.len() - j,
{
    if j < ms.len() {
        lemma_exclude_step(ms, ex, i, j);
        lemma_exclude_row(ms, exclude_step(ms, ex, i, j), i, j + 1);
    }
}

proof fn lemma_exclude_from(ms: Seq<MatchMap>, ex: Set<int>, i: int)
    requires
        0 <= i <= ms.len(),
        all_covered(ms, ex),
        apart_upto(ms, ex, i, i + 1),
    ensures
        ex.subset_of(exclude_from(ms, ex, i)),
        all_covered(ms, exclude_from(ms, ex, i)),
        apart_upto(ms, exclude_from(ms, ex, i), ms.len() as int, 0),
    decreases ms.len() - i,
{
    if i < ms.len() {
        if ex.contains(i) {
            lemma_exclude_from(ms, ex, i + 1);
        } else {
            lemma_exclude_row(ms, ex, i, i + 1);
            lemma_exclude_from(ms, exclude_row(ms, ex, i, i + 1), i + 1);
        }
    }
}

/// The members of the matches that are kept: those at the positions that
/// are not excluded.
pub proof fn lemma_kept_members(ms: Seq<MatchMap>, ex: Set<int>, n: int, m: MatchMap)
    requires
        0 <= n <= ms.len(),
    ensures
        kept(ms, ex, n).contains(m) <==> exists|i: int|
            0 <= i < n && !(#[trigger] ex.contains(i)) && ms[i] == m,
    decreases n,
{
    if n > 0 {
        let rest = kept(ms, ex, n - 1);
        let all = kept(ms, ex, n);
        lemma_kept_members(ms, ex, n - 1, m);
        if all.contains(m) {
            let k = choose|k: int| 0 <= k < all.len() && all[k] == m;
            if k < rest.len() {
                assert(rest[k] == m);
                assert(rest.contains(m));
            } else {
                assert(!ex.contains(n - 1) && ms[n - 1] == m);
            }
        }
        if exists|i: int| 0 <= i < n && !(#[trigger] ex.contains(i)) && ms[i] == m {
            let i = choose|i: int| 0 <= i < n && !(#[trigger] ex.contains(i)) && ms[i] == m;
            if i < n - 1 {
                assert(rest.contains(m));
                let k = choose|k: int| 0 <= k < rest.len() && rest[k] == m;
                assert(all[k] == m);
            } else {
                assert(all[all.len() - 1] == m);
            }
        }
    }
}

/// What the removal of redundant matches leaves: of the matches that are
/// kept none includes another, and every match, kept or dropped, is
/// included in one that is kept.
pub proof fn lemma_redundancy_removed(ms: Seq<MatchMap>)
    ensures
        ({
            let ex = exclude_from(ms, Set::empty(), 0);
            let nr = kept(ms, ex, ms.len() as int);
            &&& forall|a: int, b: int|
                0 <= a < b < ms.len() && !ex.contains(a) && !ex.contains(b) ==> #[trigger] apart(
                    ms[a],
                    ms[b],
                )
            &&& forall|x: int|
                0 <= x < ms.len() ==> exists|k: int|
                    0 <= k < nr.len() && included(#[trigger] ms[x], #[trigger] nr[k])
        }),
{
    let none = Set::<int>::empty();
    lemma_exclude_from(ms, none, 0);
    let ex = exclude_from(ms, none, 0);
    let nr = kept(ms, ex, ms.len() as int);
    assert forall|x: int| 0 <= x < ms.len() implies exists|k: int|
        0 <= k < nr.len() && included(#[trigger] ms[x], #[trigger] nr[k]) by {
        let y = if ex.contains(x) {
            assert(has_keeper(ms, ex, x));
            choose|y: int| 0 <= y < ms.len() && !(#[trigger] ex.contains(y)) && included(ms[x], ms[y])
        } else {
            x
        };
        lemma_kept_members(ms, ex, ms.len() as int, ms[y]);
        assert(!ex.contains(y) && ms[y] == ms[y]);
        assert(nr.contains(ms[y]));
        let k = choose|k: int| 0 <= k < nr.len() && nr[k] == ms[y];
        assert(included(ms[x], nr[k]));
    }
}

/// Whether a match maps no edge to anything.
pub open spec fn all_unmatched(m: MatchMap) -> bool {
    forall|x: EdgeView| m.contains_key(x) ==> (#[trigger] m[x]) is None
}

/// The matches without the redundant ones; a single match that maps nothing
/// is no match.
pub open spec fn without_redundant(ms: Seq<MatchMap>) -> Seq<MatchMap> {
    let nr = kept(ms, exclude_from(ms, Set::empty(), 0), ms.len() as int);
    if nr.len() == 1 && all_unmatched(nr[0]) {
        Seq::empty()
    } else {
        nr
    }
}

/// All matches of a query in a graph.
pub open spec fn all_matches(q: QueryView, g: GraphView) -> Seq<MatchMap> {
    without_redundant(matched_upto(q, g, q.graph.edges.len() as int))
}

proof fn lemma_map_entry(s: MatchEntries, x: EdgeView)
    requires
        as_map(s).contains_key(x),
    ensures
        0 <= crate::ordered::index_of_key(s, x) < s.len(),
        s[crate::ordered::index_of_key(s, x)].0 == x,
        as_map(s)[x] == s[crate::ordered::index_of_key(s, x)].1,
{
}

fn is_included(m: &QueryMatch, k: &QueryMatch) -> (r: bool)
    ensures
        r == included(as_map(m@), as_map(k@)),
{
    let ghost mm = as_map(m@);
    let ghost km = as_map(k@);
    let mut i: usize = 0;
    while i < m.homomorphism.len()
        invariant
            i <= m@.len(),
            mm == as_map(m@),
            km == as_map(k@),
            forall|j: int|
                0 <= j < i && (#[trigger] m@[j]).1 is Some ==> km.contains_key(m@[j].0) && km[m@[j].0]
                    == m@[j].1,
        decreases m@.len() - i,
    {
        let src = m.homomorphism.key_at(i);
        let trg = m.homomorphism.value_at(i);
        proof {
            crate::ordered::lemma_entry_at::<Edge, Option<EdgeView>>(m@, i as int);
        }
        if trg.is_some() {
            let other = k.homomorphism.get(src);
            let agree = match other {
                Some(image) => same(image, trg),
                None => false,
            };
            if !agree {
                proof {
                    let x = m@[i as int].0;
                    assert(mm.contains_key(x));
                    assert(mm[x] == m@[i as int].1);
                    assert(mm[x] is Some);
                }
                return false;
            }
        }
        i = i + 1;
    }
    proof {
        assert forall|x: EdgeView| mm.contains_key(x) && (#[trigger] mm[x]) is Some implies km.contains_key(
            x,
        ) && km[x] == mm[x] by {
            lemma_map_entry(m@, x);
            let j = crate::ordered::index_of_key(m@, x);
            assert(m@[j].1 is Some);
        }
    }
    true
}

fn maps_nothing(m: &QueryMatch) -> (r: bool)
    ensures
        r == all_unmatched(as_map(m@)),
{
    let ghost mm = as_map(m@);
    let mut i: usize = 0;
    while i < m.homomorphism.len()
        invariant
            i <= m@.len(),
            mm == as_map(m@),
            forall|j: int| 0 <= j < i ==> (#[trigger] m@[j]).1 is None,
        decreases m@.len() - i,
    {
        let trg = m.homomorphism.value_at(i);
        proof {
            crate::ordered::lemma_entry_at::<Edge, Option<EdgeView>>(m@, i as int);
        }
        if trg.is_some() {
            proof {
                let x = m@[i as int].0;
                assert(mm.contains_key(x));
                assert(mm[x] is Some);
            }
            return false;
        }
        i = i + 1;
    }
    proof {
        assert forall|x: EdgeView| mm.contains_key(x) implies (#[trigger] mm[x]) is None by {
            lemma_map_entry(m@, x);
        }
    }
    true
}

/// Drops the redundant matches.
fn remove_redundant(matches: Vec<QueryMatch>) -> (r: Vec<QueryMatch>)
    ensures
        maps_of(r.deep_view()) == without_redundant(maps_of(matches.deep_view())),
{
    let ghost ms = maps_of(matches.deep_view());
    let n = matches.len();
    let mut flags: Vec<bool> = Vec::new();
    let mut f: usize = 0;
    while f < n
        invariant
            f <= n,
            flags@.len() == f,
            forall|k: int| 0 <= k < f ==> !flags@[k],
        decreases n - f,
    {
        flags.push(false);
        f = f + 1;
    }
    let ghost mut ex: Set<int> = Set::empty();
    let mut i: usize = 0;
    while i < n
        invariant
            i <= n,
            n == matches.len(),
            ms == maps_of(matches.deep_view()),
            flags@.len() == n,
            forall|k: int| 0 <= k < n ==> flags@[k] == ex.contains(k),
            exclude_from(ms, Set::empty(), 0) == exclude_from(ms, ex, i as int),
        decreases n - i,
    {
        if !flags[i] {
            let mut j: usize = i + 1;
            let ghost start = ex;
            while j < n
                invariant
                    i < j <= n,
                    n == matches.len(),
                    ms == maps_of(matches.deep_view()),
                    flags@.len() == n,
                    forall|k: int| 0 <= k < n ==> flags@[k] == ex.contains(k),
                    exclude_row(ms, start, i as int, i + 1) == exclude_row(ms, ex, i as int, j as int),
                decreases n - j,
            {
                if !flags[j] {
                    let m = &matches[i];
                    let k = &matches[j];
                    assert(ms[i as int] == as_map(m@));
                    assert(ms[j as int] == as_map(k@));
                    let m_included_in_k = is_included(m, k);
                    let k_included_in_m = is_included(k, m);
                    if k_included_in_m && !m_included_in_k {
                        flags.set(j, true);
                        proof {
                            ex = ex.insert(j as int);
                        }
                    } else if m_included_in_k {
                        flags.set(i, true);
                        proof {
                            ex = ex.insert(i as int);
                        }
                    }
                }
                j = j + 1;
            }
        }
        i = i + 1;
    }
    let mut out: Vec<QueryMatch> = Vec::new();
    let mut p: usize = 0;
    assert(maps_of(out.deep_view()) =~= kept(ms, ex, 0));
    while p < n
        invariant
            p <= n,
            n == matches.len(),
            ms == maps_of(matches.deep_view()),
            flags@.len() == n,
            forall|k: int| 0 <= k < n ==> flags@[k] == ex.contains(k),
            maps_of(out.deep_view()) == kept(ms, ex, p as int),
        decreases n - p,
    {
        if !flags[p] {
            let ghost prev = maps_of(out.deep_view());
            out.push(matches[p].dup());
            assert(maps_of(out.deep_view()) =~= prev.push(ms[p as int]));
        }
        p = p + 1;
    }
    if out.len() == 1 {
        assert(maps_of(out.deep_view())[0] == as_map(out[0]@));
        if maps_nothing(&out[0]) {
            let empty: Vec<QueryMatch> = Vec::new();
            assert(maps_of(empty.deep_view()) =~= Seq::<MatchMap>::empty());
            return empty;
        }
    }
    out
}

impl Query {
    /// Finds all matches of the query in a graph: the homomorphisms that bind
    /// every edge of the pattern that is not bound already, without those
    /// that another match includes.
    pub fn find_all_matches(&self, g: &Graph) -> (r: Vec<QueryMatch>)
        ensures
            maps_of(r.deep_view()) == all_matches(self@, g@),
    {
        let mut matches: Vec<QueryMatch> = Vec::new();
        matches.push(QueryMatch { homomorphism: OrderedMap::new() });
        proof {
            assert(as_map(matches[0]@) =~= Map::<EdgeView, Option<EdgeView>>::empty());
            assert(maps_of(matches.deep_view()) =~= seq![Map::<EdgeView, Option<EdgeView>>::empty()]);
        }
        let mut n: usize = 0;
        while n < self.graph.edges.len()
            invariant
                n <= self.graph.edges.len(),
                maps_of(matches.deep_view()) == matched_upto(self@, g@, n as int),
            decreases self.graph.edges.len() - n,
        {
            let e = &self.graph.edges[n];
            assert(self@.graph.edges[n as int] == e@);
            if e.src.instance_node_name.is_none() || e.trg.instance_node_name.is_none() {
                matches = self.extend_matches(e, matches, g);
            }
            n = n + 1;
        }
        remove_redundant(matches)
    }
}

/// A grouping node with its image under a match.
pub type Binding = (NodeView, NodeView);

/// Whether a match binds a grouping node to an image: some edge that it maps
/// has the node at one end and is mapped to an edge with the image at that
/// end.
pub open spec fn binds(m: MatchMap, group: Seq<NodeView>, pair: Binding) -> bool {
    exists|x: EdgeView|
        m.contains_key(x) && (#[trigger] m[x]) is Some && ((group.contains(x.src) && pair == (
            x.src,
            m[x]->0.src,
        )) || (group.contains(x.trg) && pair == (x.trg, m[x]->0.trg)))
}

/// The bindings of the grouping nodes under a match.
pub open spec fn group_key(m: MatchMap, group: Seq<NodeView>) -> Set<Binding> {
    Set::new(|pair: Binding| binds(m, group, pair))
}

/// The matches with given bindings of the grouping nodes, in their order.
pub open spec fn with_key(ms: Seq<MatchMap>, group: Seq<NodeView>, key: Set<Binding>) -> Seq<
    MatchMap,
>
    decreases ms.len(),
{
    if ms.len() == 0 {
        ms
    } else {
        let rest = with_key(ms.drop_last(), group, key);
        if group_key(ms.last(), group) == key {
            rest.push(ms.last())
        } else {
            rest
        }
    }
}

/// Buckets of matches by the bindings of the grouping nodes: every match is
/// in the bucket of its bindings, a bucket holds the matches with its
/// bindings in their order, none is empty, and the buckets are in increasing
/// order of their bindings.
pub open spec fn is_grouping(
    ms: Seq<MatchMap>,
    group: Seq<NodeView>,
    buckets: Seq<(Seq<Binding>, Seq<MatchMap>)>,
) -> bool {
    &&& strictly_sorted::<Vec<(Node, Node)>>(keys_of(buckets))
    &&& forall|b: int|
        0 <= b < buckets.len() ==> strictly_sorted::<(Node, Node)>((#[trigger] buckets[b]).0)
            && buckets[b].1.len() > 0 && buckets[b].1 == with_key(
            ms,
            group,
            buckets[b].0.to_set(),
        )
    &&& forall|i: int| 0 <= i < ms.len() ==> has_bucket(buckets, group_key(#[trigger] ms[i], group))
}

/// Whether one of the buckets has given bindings.
pub open spec fn has_bucket(buckets: Seq<(Seq<Binding>, Seq<MatchMap>)>, key: Set<Binding>) -> bool {
    exists|b: int| 0 <= b < buckets.len() && (#[trigger] buckets[b]).0.to_set() == key
}

/// The grouped matches of a query in a graph: without grouping nodes every
/// match is a group of its own.
pub open spec fn is_grouped(q: QueryView, ms: Seq<MatchMap>, r: Seq<Seq<MatchMap>>) -> bool {
    if q.group.len() == 0 {
        r == Seq::new(ms.len(), |i: int| seq![ms[i]])
    } else {
        exists|buckets: Seq<(Seq<Binding>, Seq<MatchMap>)>|
            is_grouping(ms, q.group, buckets) && r == Seq::new(
                buckets.len(),
                |b: int| buckets[b].1,
            )
    }
}

/// Whether one of the first `n` entries of a match binds a grouping node to
/// an image.
pub open spec fn binds_upto(s: MatchEntries, group: Seq<NodeView>, n: int, pair: Binding) -> bool {
    exists|j: int|
        0 <= j < n && (#[trigger] s[j]).1 is Some && ((group.contains(s[j].0.src) && pair == (
            s[j].0.src,
            s[j].1->0.src,
        )) || (group.contains(s[j].0.trg) && pair == (s[j].0.trg, s[j].1->0.trg)))
}

proof fn lemma_binds_all(s: MatchEntries, group: Seq<NodeView>, pair: Binding)
    requires
        strictly_sorted::<Edge>(keys_of(s)),
    ensures
        binds_upto(s, group, s.len() as int, pair) == binds(as_map(s), group, pair),
{
    let m = as_map(s);
    if binds_upto(s, group, s.len() as int, pair) {
        let j = choose|j: int|
            0 <= j < s.len() && (#[trigger] s[j]).1 is Some && ((group.contains(s[j].0.src) && pair
                == (s[j].0.src, s[j].1->0.src)) || (group.contains(s[j].0.trg) && pair == (
                s[j].0.trg,
                s[j].1->0.trg,
            )));
        lemma_entry_at::<Edge, Option<EdgeView>>(s, j);
        let x = s[j].0;
        assert(m.contains_key(x) && m[x] == s[j].1);
    }
    if binds(m, group, pair) {
        let x = choose|x: EdgeView|
            m.contains_key(x) && (#[trigger] m[x]) is Some && ((group.contains(x.src) && pair == (
                x.src,
                m[x]->0.src,
            )) || (group.contains(x.trg) && pair == (x.trg, m[x]->0.trg)));
        lemma_map_entry(s, x);
        let j = index_of_key(s, x);
        assert(s[j].1 is Some);
    }
}

impl Query {
    /// The bindings of the grouping nodes under a match, in increasing order.
    fn bindings_of(&self, m: &QueryMatch) -> (r: Vec<(Node, Node)>)
        ensures
            r.deep_view().to_set() == group_key(as_map(m@), self@.group),
            strictly_sorted::<(Node, Node)>(r.deep_view()),
    {
        let mut key: OrderedSet<(Node, Node)> = OrderedSet::new();
        let ghost s = m@;
        let ghost group = self@.group;
        let mut i: usize = 0;
        assert(key@.to_set() =~= Set::new(|pair: Binding| binds_upto(s, group, 0, pair)));
        while i < m.homomorphism.len()
            invariant
                i <= s.len(),
                s == m@,
                group == self@.group,
                key@.to_set() == Set::new(|pair: Binding| binds_upto(s, group, i as int, pair)),
            decreases s.len() - i,
        {
            let q_edge = m.homomorphism.key_at(i);
            let ghost before = key@.to_set();
            let ghost qe = s[i as int].0;
            let ghost img = s[i as int].1;
            let ghost src_in = img is Some && group.contains(qe.src);
            let ghost trg_in = img is Some && group.contains(qe.trg);
            match m.homomorphism.value_at(i) {
                Some(m_edge) => {
                    if self.group.contains(&q_edge.src) {
                        key.insert((q_edge.src.dup(), m_edge.src.dup()));
                    }
                    if self.group.contains(&q_edge.trg) {
                        key.insert((q_edge.trg.dup(), m_edge.trg.dup()));
                    }
                },
                None => {},
            }
            proof {
                let target = Set::new(|pair: Binding| binds_upto(s, group, i + 1, pair));
                assert forall|pair: Binding| key@.to_set().contains(pair) == target.contains(
                    pair,
                ) by {
                    let here = (src_in && pair == (qe.src, img->0.src)) || (trg_in && pair == (
                        qe.trg,
                        img->0.trg,
                    ));
                    assert(key@.to_set().contains(pair) == (before.contains(pair) || here));
                    assert(before.contains(pair) == binds_upto(s, group, i as int, pair));
                    if binds_upto(s, group, i + 1, pair) {
                        let j = choose|j: int|
                            0 <= j < i + 1 && (#[trigger] s[j]).1 is Some && ((group.contains(
                                s[j].0.src,
                            ) && pair == (s[j].0.src, s[j].1->0.src)) || (group.contains(s[j].0.trg)
                                && pair == (s[j].0.trg, s[j].1->0.trg)));
                        if j < i {
                            assert(binds_upto(s, group, i as int, pair));
                        }
                    }
                    if binds_upto(s, group, i as int, pair) {
                        let j = choose|j: int|
                            0 <= j < i && (#[trigger] s[j]).1 is Some && ((group.contains(
                                s[j].0.src,
                            ) && pair == (s[j].0.src, s[j].1->0.src)) || (group.contains(s[j].0.trg)
                                && pair == (s[j].0.trg, s[j].1->0.trg)));
                        assert(0 <= j < i + 1);
                    }
                    if here {
                        assert(s[i as int].1 is Some);
                    }
                }
                assert(key@.to_set() =~= target);
            }
            i = i + 1;
        }
        let r = key.to_vec();
        proof {
            use_type_invariant(&m.homomorphism);
            assert forall|pair: Binding| r.deep_view().to_set().contains(pair) == group_key(
                as_map(s),
                group,
            ).contains(pair) by {
                lemma_binds_all(s, group, pair);
            }
            assert(r.deep_view().to_set() =~= group_key(as_map(s), group));
        }
        r
    }
}

/// The groups of a list, each as a list of maps.
pub open spec fn groups_of(r: Seq<Seq<MatchEntries>>) -> Seq<Seq<MatchMap>> {
    Seq::new(r.len(), |i: int| maps_of(r[i]))
}

/// The buckets that a map from bindings to matches holds in the first `i`
/// matches' grouping.
pub open spec fn groups_so_far(
    ms: Seq<MatchMap>,
    group: Seq<NodeView>,
    gm: Map<Seq<Binding>, Seq<MatchEntries>>,
) -> bool {
    &&& forall|k: Seq<Binding>| #[trigger]
        gm.contains_key(k) ==> strictly_sorted::<(Node, Node)>(k) && gm[k].len() > 0 && maps_of(
            gm[k],
        ) == with_key(ms, group, k.to_set())
    &&& forall|j: int| 0 <= j < ms.len() ==> has_group(gm, group_key(#[trigger] ms[j], group))
}

/// Whether the map has a group with given bindings.
pub open spec fn has_group(gm: Map<Seq<Binding>, Seq<MatchEntries>>, key: Set<Binding>) -> bool {
    exists|k: Seq<Binding>| #[trigger] gm.contains_key(k) && k.to_set() == key
}

proof fn lemma_no_match_with_key(ms: Seq<MatchMap>, group: Seq<NodeView>, key: Set<Binding>)
    requires
        forall|j: int| 0 <= j < ms.len() ==> group_key(#[trigger] ms[j], group) != key,
    ensures
        with_key(ms, group, key).len() == 0,
    decreases ms.len(),
{
    if ms.len() > 0 {
        let head = ms.drop_last();
        assert(ms[ms.len() - 1] == ms.last());
        assert forall|j: int| 0 <= j < head.len() implies group_key(#[trigger] head[j], group)
            != key by {
            assert(head[j] == ms[j]);
        }
        lemma_no_match_with_key(head, group, key);
    }
}

impl Query {
    /// Groups matches by the bindings of the grouping nodes.
    fn group_matches(&self, matches: &Vec<QueryMatch>) -> (r: OrderedMap<
        Vec<(Node, Node)>,
        Vec<QueryMatch>,
    >)
        ensures
            groups_so_far(maps_of(matches.deep_view()), self@.group, r.map()),
            strictly_sorted::<Vec<(Node, Node)>>(keys_of(r@)),
    {
        let ghost ms = maps_of(matches.deep_view());
        let ghost group = self@.group;
        let mut grouped: OrderedMap<Vec<(Node, Node)>, Vec<QueryMatch>> = OrderedMap::new();
        let mut i: usize = 0;
        proof {
            assert(keys_of(grouped@) =~= Seq::<Seq<Binding>>::empty());
            assert(grouped.map() =~= Map::<Seq<Binding>, Seq<MatchEntries>>::empty());
        }
        while i < matches.len()
            invariant
                i <= matches.len(),
                ms == maps_of(matches.deep_view()),
                group == self@.group,
                groups_so_far(ms.take(i as int), group, grouped.map()),
                strictly_sorted::<Vec<(Node, Node)>>(keys_of(grouped@)),
            decreases matches.len() - i,
        {
            let m = &matches[i];
            let key = self.bindings_of(m);
            let ghost k0 = key.deep_view();
            let ghost before = grouped.map();
            let ghost head = ms.take(i as int);
            let ghost cur = ms.take(i + 1);
            proof {
                assert(cur.drop_last() =~= head);
                assert(cur.last() == ms[i as int]);
                assert(ms[i as int] == as_map(m@));
                assert(k0.to_set() == group_key(ms[i as int], group));
            }
            let found = grouped.remove(&key);
            let mut list: Vec<QueryMatch> = match found {
                Some(l) => {
                    assert(before.contains_key(k0));
                    assert(l.deep_view() == before[k0]);
                    l
                },
                None => {
                    let l: Vec<QueryMatch> = Vec::new();
                    proof {
                        assert(!before.contains_key(k0));
                        assert(l.deep_view() =~= Seq::<MatchEntries>::empty());
                        assert forall|j: int| 0 <= j < head.len() implies group_key(
                            #[trigger] head[j],
                            group,
                        ) != k0.to_set() by {
                            if group_key(head[j], group) == k0.to_set() {
                                assert(has_group(before, group_key(head[j], group)));
                                let k = choose|k: Seq<Binding>| #[trigger]
                                    before.contains_key(k) && k.to_set() == group_key(
                                        head[j],
                                        group,
                                    );
                                lemma_sorted_unique::<(Node, Node)>(k, k0);
                            }
                        }
                        lemma_no_match_with_key(head, group, k0.to_set());
                        assert(maps_of(l.deep_view()) =~= with_key(head, group, k0.to_set()));
                    }
                    l
                },
            };
            let ghost lv = list.deep_view();
            assert(maps_of(lv) == with_key(head, group, k0.to_set()));
            list.push(m.dup());
            proof {
                assert(list.deep_view() =~= lv.push(m@));
                assert(maps_of(list.deep_view()) =~= maps_of(lv).push(ms[i as int]));
            }
            let ghost nv = list.deep_view();
            grouped.insert(key, list);
            proof {
                let after = grouped.map();
                assert(after == before.remove(k0).insert(k0, nv));
                assert forall|k: Seq<Binding>| #[trigger] after.contains_key(k) implies strictly_sorted::<
                    (Node, Node),
                >(k) && after[k].len() > 0 && maps_of(after[k]) == with_key(
                    cur,
                    group,
                    k.to_set(),
                ) by {
                    if k != k0 {
                        assert(before.contains_key(k));
                        assert(after[k] == before[k]);
                        if group_key(ms[i as int], group) == k.to_set() {
                            lemma_sorted_unique::<(Node, Node)>(k, k0);
                        }
                    }
                }
                assert forall|j: int| 0 <= j < cur.len() implies has_group(
                    after,
                    group_key(#[trigger] cur[j], group),
                ) by {
                    if j < i {
                        assert(cur[j] == head[j]);
                        assert(has_group(before, group_key(head[j], group)));
                        let k = choose|k: Seq<Binding>| #[trigger]
                            before.contains_key(k) && k.to_set() == group_key(head[j], group);
                        assert(after.contains_key(k));
                    } else {
                        assert(after.contains_key(k0));
                    }
                }
            }
            i = i + 1;
        }
        assert(ms.take(i as int) =~= ms);
        grouped
    }

    /// Finds all matches of the query in a graph and groups them by the
    /// images of the grouping nodes. Without grouping nodes every match is a
    /// group of its own, in the order of the matches; else the groups come in
    /// increasing order of their bindings.
    pub fn find_all_grouped_matches(&self, g: &Graph) -> (r: Vec<GroupedQueryMatch>)
        ensures
            is_grouped(self@, all_matches(self@, g@), groups_of(r.deep_view())),
    {
        let ungrouped_matches = self.find_all_matches(g);
        let ghost ms = maps_of(ungrouped_matches.deep_view());
        let mut out: Vec<GroupedQueryMatch> = Vec::new();
        if self.group.is_empty() {
            let mut i: usize = 0;
            while i < ungrouped_matches.len()
                invariant
                    i <= ungrouped_matches.len(),
                    ms == maps_of(ungrouped_matches.deep_view()),
                    out@.len() == i,
                    forall|k: int| 0 <= k < i ==> maps_of(#[trigger] out@[k]@) == seq![ms[k]],
                decreases ungrouped_matches.len() - i,
            {
                let mut single: Vec<QueryMatch> = Vec::new();
                single.push(ungrouped_matches[i].dup());
                assert(maps_of(single.deep_view()) =~= seq![ms[i as int]]);
                out.push(GroupedQueryMatch { grouped_matches: single });
                i = i + 1;
            }
            proof {
                let want = Seq::new(ms.len(), |i: int| seq![ms[i]]);
                let got = groups_of(out.deep_view());
                assert(got.len() == want.len());
                assert forall|k: int| 0 <= k < got.len() implies got[k] == want[k] by {
                    assert(out.deep_view()[k] == out@[k]@);
                }
                assert(got =~= want);
            }
        } else {
            let grouped = self.group_matches(&ungrouped_matches);
            let ghost gs = grouped@;
            let ghost gm = grouped.map();
            let ghost buckets = Seq::new(gs.len(), |b: int| (gs[b].0, maps_of(gs[b].1)));
            let mut b: usize = 0;
            while b < grouped.len()
                invariant
                    b <= grouped@.len(),
                    gs == grouped@,
                    out@.len() == b,
                    forall|k: int| 0 <= k < b ==> (#[trigger] out@[k])@ == gs[k].1,
                decreases grouped@.len() - b,
            {
                out.push(GroupedQueryMatch { grouped_matches: grouped.value_at(b).dup() });
                b = b + 1;
            }
            proof {
                assert(keys_of(buckets) =~= keys_of(gs));
                assert forall|b: int| 0 <= b < buckets.len() implies strictly_sorted::<
                    (Node, Node),
                >((#[trigger] buckets[b]).0) && buckets[b].1.len() > 0 && buckets[b].1 == with_key(
                    ms,
                    self@.group,
                    buckets[b].0.to_set(),
                ) by {
                    lemma_entry_at::<Vec<(Node, Node)>, Seq<MatchEntries>>(gs, b);
                    assert(gm.contains_key(gs[b].0));
                    assert(gm[gs[b].0] == gs[b].1);
                }
                assert forall|i: int| 0 <= i < ms.len() implies has_bucket(
                    buckets,
                    group_key(#[trigger] ms[i], self@.group),
                ) by {
                    assert(has_group(gm, group_key(ms[i], self@.group)));
                    let k = choose|k: Seq<Binding>| #[trigger]
                        gm.contains_key(k) && k.to_set() == group_key(ms[i], self@.group);
                    let b = index_of_key(gs, k);
                    assert(buckets[b].0 == k);
                }
                assert(is_grouping(ms, self@.group, buckets));
                let want = Seq::new(buckets.len(), |b: int| buckets[b].1);
                let got = groups_of(out.deep_view());
                assert(got.len() == want.len());
                assert forall|k: int| 0 <= k < got.len() implies got[k] == want[k] by {
                    assert(out.deep_view()[k] == out@[k]@);
                }
                assert(got =~= want);
            }
        }
        out
    }
}

/// The image of a query edge under a match, if the match maps it.
pub open spec fn image_under(m: MatchEntries, qe: EdgeView) -> Option<EdgeView> {
    if has_key(m, qe) {
        value_of(m, qe)
    } else {
        None
    }
}

/// The images of a query edge under the first `n` matches of a group, in
/// the order of the matches.
pub open spec fn images(g: Seq<MatchEntries>, qe: EdgeView, n: int) -> Seq<EdgeView>
    decreases n,
{
    if n <= 0 {
        Seq::empty()
    } else {
        let rest = images(g, qe, n - 1);
        match image_under(g[n - 1], qe) {
            Some(me) => rest.push(me),
            None => rest,
        }
    }
}

/// Whether one of the first `n` matches of a group binds a query edge, be
/// it to nothing.
pub open spec fn binds_edge(g: Seq<MatchEntries>, qe: EdgeView, n: int) -> bool {
    exists|i: int| 0 <= i < n && has_key(#[trigger] g[i], qe)
}

/// Whether a node is an end of a query edge that one of the first `n`
/// matches binds.
pub open spec fn binds_node(g: Seq<MatchEntries>, node: NodeView, n: int) -> bool {
    exists|i: int, j: int|
        0 <= i < n && 0 <= j < g[i].len() && ((#[trigger] g[i][j]).0.src == node || g[i][j].0.trg
            == node)
}

/// Whether a node is the image of a query node under one of the first `n`
/// matches: a query edge that the match maps has the query node at one end
/// and is mapped to an edge with the node at that end.
pub open spec fn is_node_image(g: Seq<MatchEntries>, node: NodeView, image: NodeView, n: int) -> bool {
    exists|i: int, j: int|
        0 <= i < n && 0 <= j < g[i].len() && (#[trigger] g[i][j]).1 is Some && ((g[i][j].0.src
            == node && g[i][j].1->0.src == image) || (g[i][j].0.trg == node && g[i][j].1->0.trg
            == image))
}

impl GroupedQueryMatch {
    /// The images of each query edge that the matches bind, in the order
    /// of the matches.
    pub fn get_image_homomorphism(&self) -> (r: OrderedMap<Edge, Vec<Edge>>)
        ensures
            strictly_sorted::<Edge>(keys_of(r@)),
            forall|qe: EdgeView| #[trigger] has_key(r@, qe) <==> binds_edge(self@, qe, self@.len() as int),
            forall|qe: EdgeView| #[trigger]
                has_key(r@, qe) ==> value_of(r@, qe) == images(self@, qe, self@.len() as int),
    {
        let mut image_homomorphism: OrderedMap<Edge, Vec<Edge>> = OrderedMap::new();
        let ghost g = self@;
        let mut i: usize = 0;
        proof {
            assert(keys_of(image_homomorphism@) =~= Seq::<EdgeView>::empty());
        }
        while i < self.grouped_matches.len()
            invariant
                i <= g.len(),
                g == self@,
                strictly_sorted::<Edge>(keys_of(image_homomorphism@)),
                forall|qe: EdgeView| #[trigger]
                    has_key(image_homomorphism@, qe) <==> binds_edge(g, qe, i as int),
                forall|qe: EdgeView| #[trigger]
                    has_key(image_homomorphism@, qe) ==> value_of(image_homomorphism@, qe)
                        == images(g, qe, i as int),
            decreases g.len() - i,
        {
            let query_match = &self.grouped_matches[i];
            let ghost m = query_match@;
            let ghost start = image_homomorphism@;
            assert(g[i as int] == m);
            let mut j: usize = 0;
            proof {
                use_type_invariant(&query_match.homomorphism);
            }
            while j < query_match.homomorphism.len()
                invariant
                    j <= m.len(),
                    m == query_match@,
                    m == query_match.homomorphism@,
                    i < g.len(),
                    g[i as int] == m,
                    strictly_sorted::<Edge>(keys_of(m)),
                    strictly_sorted::<Edge>(keys_of(image_homomorphism@)),
                    forall|qe: EdgeView| #[trigger]
                        has_key(image_homomorphism@, qe) <==> (has_key(start, qe) || has_key(
                            m.take(j as int),
                            qe,
                        )),
                    forall|qe: EdgeView| #[trigger]
                        has_key(image_homomorphism@, qe) ==> value_of(image_homomorphism@, qe) == (
                        if has_key(start, qe) {
                            value_of(start, qe)
                        } else {
                            Seq::empty()
                        }) + (if has_key(m.take(j as int), qe) && value_of(m, qe) is Some {
                            seq![value_of(m, qe)->0]
                        } else {
                            Seq::empty()
                        }),
                decreases m.len() - j,
            {
                let query_edge = query_match.homomorphism.key_at(j);
                let matched_edge_opt = query_match.homomorphism.value_at(j);
                let ghost before = image_homomorphism@;
                let ghost qv = query_edge@;
                proof {
                    lemma_entry_at::<Edge, Option<EdgeView>>(m, j as int);
                    lemma_take_keys(m, j as int, qv);
                }
                let mut list: Vec<Edge> = match image_homomorphism.remove(query_edge) {
                    Some(l) => l,
                    None => {
                        let l: Vec<Edge> = Vec::new();
                        assert(l.deep_view() =~= Seq::<EdgeView>::empty());
                        l
                    },
                };
                let ghost lv = list.deep_view();
                proof {
                    assert(has_key(before, qv) == as_map(before).dom().contains(qv));
                    if has_key(before, qv) {
                        assert(lv == value_of(before, qv));
                        assert(lv =~= (if has_key(start, qv) {
                            value_of(start, qv)
                        } else {
                            Seq::empty()
                        }));
                    }
                }
                match matched_edge_opt {
                    Some(matched_edge) => {
                        list.push(matched_edge.dup());
                        assert(list.deep_view() =~= lv.push(matched_edge@));
                    },
                    None => {},
                }
                let ghost nv = list.deep_view();
                image_homomorphism.insert(query_edge.dup(), list);
                proof {
                    let after = image_homomorphism@;
                    assert forall|qe: EdgeView| #[trigger]
                        has_key(after, qe) <==> (has_key(start, qe) || has_key(
                            m.take(j + 1),
                            qe,
                        )) by {
                        lemma_take_keys(m, j as int, qe);
                        assert(has_key(after, qe) == as_map(after).dom().contains(qe));
                        assert(has_key(before, qe) == as_map(before).dom().contains(qe));
                    }
                    assert forall|qe: EdgeView| #[trigger] has_key(after, qe) implies value_of(
                        after,
                        qe,
                    ) == (if has_key(start, qe) {
                        value_of(start, qe)
                    } else {
                        Seq::empty()
                    }) + (if has_key(m.take(j + 1), qe) && value_of(m, qe) is Some {
                        seq![value_of(m, qe)->0]
                    } else {
                        Seq::empty()
                    }) by {
                        lemma_take_keys(m, j as int, qe);
                        assert(has_key(after, qe) == as_map(after).dom().contains(qe));
                        assert(has_key(before, qe) == as_map(before).dom().contains(qe));
                        assert(value_of(after, qe) == as_map(after)[qe]);
                        if qe != qv {
                            assert(value_of(before, qe) == as_map(before)[qe]);
                        } else {
                            assert(value_of(after, qe) == nv);
                        }
                    }
                }
                j = j + 1;
            }
            proof {
                assert(m.take(j as int) =~= m);
                let after = image_homomorphism@;
                assert forall|qe: EdgeView| #[trigger] has_key(after, qe) <==> binds_edge(
                    g,
                    qe,
                    i + 1,
                ) by {
                    if binds_edge(g, qe, i as int) {
                        let k = choose|k: int| 0 <= k < i && has_key(#[trigger] g[k], qe);
                        assert(0 <= k < i + 1);
                    }
                    if binds_edge(g, qe, i + 1) {
                        let k = choose|k: int| 0 <= k < i + 1 && has_key(#[trigger] g[k], qe);
                        if k < i {
                            assert(binds_edge(g, qe, i as int));
                        }
                    }
                    if has_key(m, qe) {
                        assert(has_key(g[i as int], qe));
                    }
                }
                assert forall|qe: EdgeView| #[trigger] has_key(after, qe) implies value_of(
                    after,
                    qe,
                ) == images(g, qe, i + 1) by {
                    if has_key(start, qe) {
                        assert(value_of(start, qe) == images(g, qe, i as int));
                    } else {
                        assert(!binds_edge(g, qe, i as int));
                        lemma_no_images(g, qe, i as int);
                    }
                }
            }
            i = i + 1;
        }
        image_homomorphism
    }

    /// The images of each node of the query edges that the matches bind.
    pub fn get_node_image_homomorphism(&self) -> (r: OrderedMap<Node, OrderedSet<Node>>)
        ensures
            strictly_sorted::<Node>(keys_of(r@)),
            forall|node: NodeView| #[trigger]
                has_key(r@, node) <==> binds_node(self@, node, self@.len() as int),
            forall|node: NodeView, image: NodeView| #[trigger]
                set_at(r@, node).contains(image) <==> is_node_image(
                    self@,
                    node,
                    image,
                    self@.len() as int,
                ),
    {
        let mut node_images: OrderedMap<Node, OrderedSet<Node>> = OrderedMap::new();
        let ghost g = self@;
        let mut i: usize = 0;
        proof {
            assert(keys_of(node_images@) =~= Seq::<NodeView>::empty());
        }
        while i < self.grouped_matches.len()
            invariant
                i <= g.len(),
                g == self@,
                strictly_sorted::<Node>(keys_of(node_images@)),
                forall|node: NodeView| #[trigger]
                    has_key(node_images@, node) <==> binds_node(g, node, i as int),
                forall|node: NodeView, image: NodeView| #[trigger]
                    set_at(node_images@, node).contains(image) <==> is_node_image(
                        g,
                        node,
                        image,
                        i as int,
                    ),
            decreases g.len() - i,
        {
            let query_match = &self.grouped_matches[i];
            let ghost m = query_match@;
            let ghost start = node_images@;
            assert(g[i as int] == m);
            let mut j: usize = 0;
            while j < query_match.homomorphism.len()
                invariant
                    j <= m.len(),
                    m == query_match@,
                    m == query_match.homomorphism@,
                    i < g.len(),
                    g[i as int] == m,
                    strictly_sorted::<Node>(keys_of(node_images@)),
                    forall|node: NodeView| #[trigger]
                        has_key(node_images@, node) <==> (has_key(start, node) || exists|k: int|
                            0 <= k < j && ((#[trigger] m[k]).0.src == node || m[k].0.trg == node)),
                    forall|node: NodeView, image: NodeView| #[trigger]
                        set_at(node_images@, node).contains(image) <==> (set_at(
                            start,
                            node,
                        ).contains(image) || exists|k: int|
                            0 <= k < j && (#[trigger] m[k]).1 is Some && ((m[k].0.src == node
                                && m[k].1->0.src == image) || (m[k].0.trg == node && m[k].1->0.trg
                                == image))),
                decreases m.len() - j,
            {
                let query_edge = query_match.homomorphism.key_at(j);
                let matched_edge_opt = query_match.homomorphism.value_at(j);
                let ghost before = node_images@;
                if !node_images.contains_key(&query_edge.src) {
                    node_images.insert(query_edge.src.dup(), OrderedSet::new());
                }
                let ghost mid1 = node_images@;
                proof {
                    assert(has_key(mid1, query_edge@.src) == as_map(mid1).dom().contains(
                        query_edge@.src,
                    ));
                    lemma_key_added(before, mid1, query_edge@.src);
                }
                if !node_images.contains_key(&query_edge.trg) {
                    node_images.insert(query_edge.trg.dup(), OrderedSet::new());
                }
                let ghost mid2 = node_images@;
                proof {
                    assert(has_key(mid2, query_edge@.trg) == as_map(mid2).dom().contains(
                        query_edge@.trg,
                    ));
                    lemma_key_added(mid1, mid2, query_edge@.trg);
                }
                match matched_edge_opt {
                    Some(matched_edge) => {
                        add_to_set_at(&mut node_images, query_edge.src.dup(), matched_edge.src.dup());
                        add_to_set_at(&mut node_images, query_edge.trg.dup(), matched_edge.trg.dup());
                    },
                    None => {},
                }
                proof {
                    let after = node_images@;
                    let e = m[j as int];
                    assert forall|node: NodeView| #[trigger]
                        has_key(after, node) <==> (has_key(start, node) || exists|k: int|
                            0 <= k < j + 1 && ((#[trigger] m[k]).0.src == node || m[k].0.trg
                                == node)) by {
                        assert(has_key(after, node) == as_map(after).dom().contains(node));
                        assert(has_key(mid2, node) == as_map(mid2).dom().contains(node));
                        assert(has_key(after, node) == (has_key(before, node) || node == e.0.src
                            || node == e.0.trg));
                        if exists|k: int|
                            0 <= k < j && ((#[trigger] m[k]).0.src == node || m[k].0.trg == node) {
                            let k = choose|k: int|
                                0 <= k < j && ((#[trigger] m[k]).0.src == node || m[k].0.trg
                                    == node);
                            assert(0 <= k < j + 1);
                        }
                        if node == e.0.src || node == e.0.trg {
                            assert(m[j as int].0.src == node || m[j as int].0.trg == node);
                        }
                        if exists|k: int|
                            0 <= k < j + 1 && ((#[trigger] m[k]).0.src == node || m[k].0.trg
                                == node) {
                            let k = choose|k: int|
                                0 <= k < j + 1 && ((#[trigger] m[k]).0.src == node || m[k].0.trg
                                    == node);
                            if k < j {
                                assert(has_key(before, node));
                            }
                        }
                    }
                    assert forall|node: NodeView, image: NodeView| #[trigger]
                        set_at(after, node).contains(image) <==> (set_at(start, node).contains(
                            image,
                        ) || exists|k: int|
                            0 <= k < j + 1 && (#[trigger] m[k]).1 is Some && ((m[k].0.src == node
                                && m[k].1->0.src == image) || (m[k].0.trg == node && m[k].1->0.trg
                                == image))) by {
                        assert(set_at(mid2, node) == set_at(before, node));
                        assert(set_at(after, node).contains(image) == (set_at(
                            before,
                            node,
                        ).contains(image) || (e.1 is Some && ((e.0.src == node && e.1->0.src
                            == image) || (e.0.trg == node && e.1->0.trg == image)))));
                        if exists|k: int|
                            0 <= k < j && (#[trigger] m[k]).1 is Some && ((m[k].0.src == node
                                && m[k].1->0.src == image) || (m[k].0.trg == node && m[k].1->0.trg
                                == image)) {
                            let k = choose|k: int|
                                0 <= k < j && (#[trigger] m[k]).1 is Some && ((m[k].0.src == node
                                    && m[k].1->0.src == image) || (m[k].0.trg == node
                                    && m[k].1->0.trg == image));
                            assert(0 <= k < j + 1);
                        }
                        if e.1 is Some && ((e.0.src == node && e.1->0.src == image) || (e.0.trg
                            == node && e.1->0.trg == image)) {
                            assert(m[j as int].1 is Some);
                        }
                        if exists|k: int|
                            0 <= k < j + 1 && (#[trigger] m[k]).1 is Some && ((m[k].0.src == node
                                && m[k].1->0.src == image) || (m[k].0.trg == node && m[k].1->0.trg
                                == image)) {
                            let k = choose|k: int|
                                0 <= k < j + 1 && (#[trigger] m[k]).1 is Some && ((m[k].0.src
                                    == node && m[k].1->0.src == image) || (m[k].0.trg == node
                                    && m[k].1->0.trg == image));
                            if k < j {
                                assert(set_at(before, node).contains(image));
                            }
                        }
                    }
                }
                j = j + 1;
            }
            proof {
                let after = node_images@;
                assert forall|node: NodeView| #[trigger] has_key(after, node) <==> binds_node(
                    g,
                    node,
                    i + 1,
                ) by {
                    if binds_node(g, node, i as int) {
                        let (a, b) = choose|a: int, b: int|
                            0 <= a < i && 0 <= b < g[a].len() && ((#[trigger] g[a][b]).0.src == node
                                || g[a][b].0.trg == node);
                        assert(0 <= a < i + 1);
                    }
                    if exists|k: int|
                        0 <= k < m.len() && ((#[trigger] m[k]).0.src == node || m[k].0.trg == node) {
                        let k = choose|k: int|
                            0 <= k < m.len() && ((#[trigger] m[k]).0.src == node || m[k].0.trg
                                == node);
                        assert(g[i as int][k].0.src == node || g[i as int][k].0.trg == node);
                    }
                    if binds_node(g, node, i + 1) {
                        let (a, b) = choose|a: int, b: int|
                            0 <= a < i + 1 && 0 <= b < g[a].len() && ((#[trigger] g[a][b]).0.src
                                == node || g[a][b].0.trg == node);
                        if a < i {
                            assert(binds_node(g, node, i as int));
                        } else {
                            assert(m[b].0.src == node || m[b].0.trg == node);
                        }
                    }
                }
                assert forall|node: NodeView, image: NodeView| #[trigger]
                    set_at(after, node).contains(image) <==> is_node_image(
                        g,
                        node,
                        image,
                        i + 1,
                    ) by {
                    if is_node_image(g, node, image, i as int) {
                        let (a, b) = choose|a: int, b: int|
                            0 <= a < i && 0 <= b < g[a].len() && (#[trigger] g[a][b]).1 is Some && ((
                            g[a][b].0.src == node && g[a][b].1->0.src == image) || (g[a][b].0.trg
                                == node && g[a][b].1->0.trg == image));
                        assert(0 <= a < i + 1);
                    }
                    if exists|k: int|
                        0 <= k < m.len() && (#[trigger] m[k]).1 is Some && ((m[k].0.src == node
                            && m[k].1->0.src == image) || (m[k].0.trg == node && m[k].1->0.trg
                            == image)) {
                        let k = choose|k: int|
                            0 <= k < m.len() && (#[trigger] m[k]).1 is Some && ((m[k].0.src == node
                                && m[k].1->0.src == image) || (m[k].0.trg == node && m[k].1->0.trg
                                == image));
                        assert(g[i as int][k].1 is Some);
                    }
                    if is_node_image(g, node, image, i + 1) {
                        let (a, b) = choose|a: int, b: int|
                            0 <= a < i + 1 && 0 <= b < g[a].len() && (#[trigger] g[a][b]).1 is Some
                                && ((g[a][b].0.src == node && g[a][b].1->0.src == image) || (
                            g[a][b].0.trg == node && g[a][b].1->0.trg == image));
                        if a < i {
                            assert(is_node_image(g, node, image, i as int));
                        } else {
                            assert(m[b].1 is Some);
                        }
                    }
                }
            }
            i = i + 1;
        }
        node_images
    }
}

/// What the first entries and the next one have as keys.
proof fn lemma_take_keys(m: MatchEntries, j: int, qe: EdgeView)
    requires
        strictly_sorted::<Edge>(keys_of(m)),
        0 <= j < m.len(),
    ensures
        has_key(m.take(j + 1), qe) <==> (has_key(m.take(j), qe) || qe == m[j].0),
        has_key(m.take(j + 1), qe) ==> has_key(m, qe),
        qe == m[j].0 ==> !has_key(m.take(j), qe) && value_of(m, qe) == m[j].1,
{
    let head = m.take(j);
    let cur = m.take(j + 1);
    if has_key(head, qe) {
        let k = index_of_key(head, qe);
        assert(cur[k].0 == qe);
        assert(m[k].0 == qe);
        if qe == m[j].0 {
            assert(keys_of(m)[k] == keys_of(m)[j]);
            crate::ordered::lemma_sorted_distinct::<Edge>(keys_of(m), j, k);
        }
    }
    if has_key(cur, qe) {
        let k = index_of_key(cur, qe);
        assert(m[k].0 == qe);
        if k < j {
            assert(head[k].0 == qe);
        }
    }
    if qe == m[j].0 {
        assert(cur[j].0 == qe);
        lemma_entry_at::<Edge, Option<EdgeView>>(m, j);
    }
}

/// A query edge that no match binds has no images.
proof fn lemma_no_images(g: Seq<MatchEntries>, qe: EdgeView, n: int)
    requires
        0 <= n <= g.len(),
        !binds_edge(g, qe, n),
    ensures
        images(g, qe, n).len() == 0,
    decreases n,
{
    if n > 0 {
        assert(!has_key(g[n - 1], qe));
        assert(!binds_edge(g, qe, n - 1)) by {
            if binds_edge(g, qe, n - 1) {
                let i = choose|i: int| 0 <= i < n - 1 && has_key(#[trigger] g[i], qe);
                assert(0 <= i < n);
            }
        }
        lemma_no_images(g, qe, n - 1);
    }
}

/// A key that is made with the empty set, where it was missing, changes no
/// set.
proof fn lemma_key_added(
    before: Seq<(NodeView, Seq<NodeView>)>,
    after: Seq<(NodeView, Seq<NodeView>)>,
    key: NodeView,
)
    requires
        after == before || (!has_key(before, key) && as_map(after) == as_map(before).insert(
            key,
            Seq::empty(),
        )),
        has_key(after, key),
    ensures
        forall|node: NodeView| #[trigger] set_at(after, node) == set_at(before, node),
        forall|node: NodeView| #[trigger] has_key(after, node) == (has_key(before, node) || node == key),
{
    assert forall|node: NodeView| #[trigger] set_at(after, node) == set_at(before, node) by {
        assert(has_key(after, node) == as_map(after).dom().contains(node));
        assert(has_key(before, node) == as_map(before).dom().contains(node));
        if after != before {
            if node == key {
                assert(value_of(after, node) == as_map(after)[node]);
                assert(value_of(after, node).to_set() =~= Set::<NodeView>::empty());
            } else if has_key(before, node) {
                assert(value_of(after, node) == as_map(after)[node]);
                assert(value_of(before, node) == as_map(before)[node]);
            }
        }
    }
    assert forall|node: NodeView| #[trigger] has_key(after, node) == (has_key(before, node) || node
        == key) by {
        assert(has_key(after, node) == as_map(after).dom().contains(node));
        assert(has_key(before, node) == as_map(before).dom().contains(node));
    }
}

/// An edge with the query-side names of the ends of a query edge.
pub open spec fn renamed(e: EdgeView, qe: EdgeView) -> EdgeView {
    EdgeView {
        src: NodeView { query_node_name: qe.src.query_node_name, ..e.src },
        trg: NodeView { query_node_name: qe.trg.query_node_name, ..e.trg },
        ..e
    }
}

/// An edge of the type and the times of a query edge between two nodes.
pub open spec fn edge_like(qe: EdgeView, src: NodeView, trg: NodeView) -> EdgeView {
    EdgeView { src, trg, ..qe }
}

/// Whether a query node has an image under a match of the group.
pub open spec fn has_image(g: Seq<MatchEntries>, node: NodeView) -> bool {
    exists|image: NodeView| is_node_image(g, node, image, g.len() as int)
}

/// Whether an edge stands for a query edge in the matched query. A query
/// edge that the matches map is stood for by its images. One that they do not
/// map is stood for by the edges between the images of its ends; an end
/// without an image stays as it is.
pub open spec fn stands_for(g: Seq<MatchEntries>, qe: EdgeView, x: EdgeView) -> bool {
    let n = g.len() as int;
    if images(g, qe, n).len() > 0 {
        exists|k: int| 0 <= k < images(g, qe, n).len() && x == renamed(#[trigger] images(g, qe, n)[k], qe)
    } else if has_image(g, qe.src) && has_image(g, qe.trg) {
        exists|s: NodeView, t: NodeView|
            is_node_image(g, qe.src, s, n) && is_node_image(g, qe.trg, t, n) && x
                == #[trigger] renamed(edge_like(qe, s, t), qe)
    } else if has_image(g, qe.src) {
        exists|s: NodeView|
            is_node_image(g, qe.src, s, n) && x == #[trigger] renamed(edge_like(qe, s, qe.trg), qe)
    } else if has_image(g, qe.trg) {
        exists|t: NodeView|
            is_node_image(g, qe.trg, t, n) && x == #[trigger] renamed(edge_like(qe, qe.src, t), qe)
    } else {
        x == qe
    }
}

/// Whether an edge stands for a query edge that the matches bind and that a
/// set of the query holds.
pub open spec fn stands_in(g: Seq<MatchEntries>, among: Seq<EdgeView>, x: EdgeView) -> bool {
    exists|qe: EdgeView|
        binds_edge(g, qe, g.len() as int) && among.contains(qe) && #[trigger] stands_for(g, qe, x)
}

/// Whether an edge stands for a query edge that the matches bind.
pub open spec fn stands(g: Seq<MatchEntries>, x: EdgeView) -> bool {
    exists|qe: EdgeView| binds_edge(g, qe, g.len() as int) && #[trigger] stands_for(g, qe, x)
}

/// Whether a node is an end of an edge that stands for a query edge whose
/// end there a set of the query holds.
pub open spec fn end_stands_in(g: Seq<MatchEntries>, among: Seq<NodeView>, node: NodeView) -> bool {
    exists|qe: EdgeView, x: EdgeView|
        binds_edge(g, qe, g.len() as int) && #[trigger] stands_for(g, qe, x) && ((among.contains(
            qe.src,
        ) && node == x.src) || (among.contains(qe.trg) && node == x.trg))
}

/// The matched query: the pattern with every edge that the matches bind
/// replaced by the edges that stand for it.
pub open spec fn is_matched_query(
    q: QueryView,
    g: Seq<MatchEntries>,
    suffix: Seq<char>,
    r: QueryView,
) -> bool {
    &&& r.name == q.name + suffix
    &&& r.application == q.application
    &&& strictly_sorted::<Edge>(r.graph.edges)
    &&& crate::graph::is_adjacency(r.graph.edges, as_map(r.graph.incoming), true)
    &&& crate::graph::is_adjacency(r.graph.edges, as_map(r.graph.outgoing), false)
    &&& forall|x: EdgeView| #[trigger] r.graph.edges.contains(x) <==> stands(g, x)
    &&& forall|x: EdgeView| #[trigger]
        r.optional_edges.contains(x) <==> stands_in(g, q.optional_edges, x)
    &&& forall|x: EdgeView| #[trigger]
        r.output_edges.contains(x) <==> (stands_in(g, q.output_edges, x) || (q.output_edges.contains(
            x,
        ) && !has_image(g, x.src) && !has_image(g, x.trg)))
    &&& forall|n: NodeView| #[trigger] r.input_nodes.contains(n) <==> end_stands_in(g, q.input_nodes, n)
    &&& forall|n: NodeView| #[trigger] r.group.contains(n) <==> end_stands_in(g, q.group, n)
}

fn rename_edge(e: &Edge, qe: &Edge) -> (r: Edge)
    ensures
        r@ == renamed(e@, qe@),
{
    let mut r = e.dup();
    r.src.query_node_name = qe.src.query_node_name.dup();
    r.trg.query_node_name = qe.trg.query_node_name.dup();
    r
}

fn edge_between(qe: &Edge, src: &Node, trg: &Node) -> (r: Edge)
    ensures
        r@ == renamed(edge_like(qe@, src@, trg@), qe@),
{
    let e = Edge {
        src: src.dup(),
        trg: trg.dup(),
        edge_type: qe.edge_type.dup(),
        from_timestamp: qe.from_timestamp,
        to_timestamp: qe.to_timestamp,
    };
    rename_edge(&e, qe)
}

/// The edges that stand for a query edge, given its images and those of its
/// ends.
fn edges_standing_for(
    qe: &Edge,
    matched: &Vec<Edge>,
    src_image: &OrderedSet<Node>,
    trg_image: &OrderedSet<Node>,
) -> (r: OrderedSet<Edge>)
    ensures
        strictly_sorted::<Edge>(r@),
        forall|x: EdgeView| #[trigger]
            r@.contains(x) <==> (if matched.deep_view().len() > 0 {
                exists|k: int|
                    0 <= k < matched.deep_view().len() && x == renamed(
                        #[trigger] matched.deep_view()[k],
                        qe@,
                    )
            } else if src_image@.len() > 0 && trg_image@.len() > 0 {
                exists|a: int, b: int|
                    0 <= a < src_image@.len() && 0 <= b < trg_image@.len() && x
                        == #[trigger] renamed(edge_like(qe@, src_image@[a], trg_image@[b]), qe@)
            } else if src_image@.len() > 0 {
                exists|a: int|
                    0 <= a < src_image@.len() && x == #[trigger] renamed(
                        edge_like(qe@, src_image@[a], qe@.trg),
                        qe@,
                    )
            } else if trg_image@.len() > 0 {
                exists|b: int|
                    0 <= b < trg_image@.len() && x == #[trigger] renamed(
                        edge_like(qe@, qe@.src, trg_image@[b]),
                        qe@,
                    )
            } else {
                x == qe@
            }),
{
    let mut out: OrderedSet<Edge> = OrderedSet::new();
    let ghost mv = matched.deep_view();
    let ghost sv = src_image@;
    let ghost tv = trg_image@;
    if matched.len() > 0 {
        let mut k: usize = 0;
        while k < matched.len()
            invariant
                k <= matched.len(),
                mv == matched.deep_view(),
                strictly_sorted::<Edge>(out@),
                forall|x: EdgeView| #[trigger]
                    out@.contains(x) <==> exists|j: int| 0 <= j < k && x == renamed(#[trigger] mv[j], qe@),
            decreases matched.len() - k,
        {
            let ghost before = out@;
            out.insert(rename_edge(&matched[k], qe));
            proof {
                assert forall|x: EdgeView| #[trigger]
                    out@.contains(x) <==> exists|j: int|
                        0 <= j < k + 1 && x == renamed(#[trigger] mv[j], qe@) by {
                    assert(out@.to_set().contains(x) == out@.contains(x));
                    assert(before.to_set().contains(x) == before.contains(x));
                    if before.contains(x) {
                        let j = choose|j: int| 0 <= j < k && x == renamed(#[trigger] mv[j], qe@);
                        assert(0 <= j < k + 1);
                    }
                    if x == renamed(mv[k as int], qe@) {
                        assert(0 <= k < k + 1);
                    }
                    if exists|j: int| 0 <= j < k + 1 && x == renamed(#[trigger] mv[j], qe@) {
                        let j = choose|j: int| 0 <= j < k + 1 && x == renamed(#[trigger] mv[j], qe@);
                        if j < k {
                            assert(before.contains(x));
                        }
                    }
                }
            }
            k = k + 1;
        }
    } else if src_image.len() > 0 && trg_image.len() > 0 {
        let mut a: usize = 0;
        while a < src_image.len()
            invariant
                a <= sv.len(),
                sv == src_image@,
                tv == trg_image@,
                strictly_sorted::<Edge>(out@),
                forall|x: EdgeView| #[trigger]
                    out@.contains(x) <==> exists|i: int, j: int|
                        0 <= i < a && 0 <= j < tv.len() && x == #[trigger] renamed(
                            edge_like(qe@, sv[i], tv[j]),
                            qe@,
                        ),
            decreases sv.len() - a,
        {
            let ghost start = out@;
            let mut b: usize = 0;
            while b < trg_image.len()
                invariant
                    b <= tv.len(),
                    a < sv.len(),
                    sv == src_image@,
                    tv == trg_image@,
                    strictly_sorted::<Edge>(out@),
                    forall|x: EdgeView| #[trigger]
                        out@.contains(x) <==> (start.contains(x) || exists|j: int|
                            0 <= j < b && x == #[trigger] renamed(
                                edge_like(qe@, sv[a as int], tv[j]),
                                qe@,
                            )),
                decreases tv.len() - b,
            {
                let ghost before = out@;
                out.insert(edge_between(qe, src_image.at(a), trg_image.at(b)));
                proof {
                    assert forall|x: EdgeView| #[trigger]
                        out@.contains(x) <==> (start.contains(x) || exists|j: int|
                            0 <= j < b + 1 && x == #[trigger] renamed(
                                edge_like(qe@, sv[a as int], tv[j]),
                                qe@,
                            )) by {
                        assert(out@.to_set().contains(x) == out@.contains(x));
                        assert(before.to_set().contains(x) == before.contains(x));
                        if exists|j: int|
                            0 <= j < b && x == #[trigger] renamed(
                                edge_like(qe@, sv[a as int], tv[j]),
                                qe@,
                            ) {
                            let j = choose|j: int|
                                0 <= j < b && x == #[trigger] renamed(
                                    edge_like(qe@, sv[a as int], tv[j]),
                                    qe@,
                                );
                            assert(0 <= j < b + 1);
                        }
                        if exists|j: int|
                            0 <= j < b + 1 && x == #[trigger] renamed(
                                edge_like(qe@, sv[a as int], tv[j]),
                                qe@,
                            ) {
                            let j = choose|j: int|
                                0 <= j < b + 1 && x == #[trigger] renamed(
                                    edge_like(qe@, sv[a as int], tv[j]),
                                    qe@,
                                );
                            if j < b {
                                assert(before.contains(x));
                            }
                        }
                    }
                }
                b = b + 1;
            }
            proof {
                assert forall|x: EdgeView| #[trigger]
                    out@.contains(x) <==> exists|i: int, j: int|
                        0 <= i < a + 1 && 0 <= j < tv.len() && x == #[trigger] renamed(
                            edge_like(qe@, sv[i], tv[j]),
                            qe@,
                        ) by {
                    if start.contains(x) {
                        let (i, j) = choose|i: int, j: int|
                            0 <= i < a && 0 <= j < tv.len() && x == #[trigger] renamed(
                                edge_like(qe@, sv[i], tv[j]),
                                qe@,
                            );
                        assert(0 <= i < a + 1);
                    }
                    if exists|i: int, j: int|
                        0 <= i < a + 1 && 0 <= j < tv.len() && x == #[trigger] renamed(
                            edge_like(qe@, sv[i], tv[j]),
                            qe@,
                        ) {
                        let (i, j) = choose|i: int, j: int|
                            0 <= i < a + 1 && 0 <= j < tv.len() && x == #[trigger] renamed(
                                edge_like(qe@, sv[i], tv[j]),
                                qe@,
                            );
                        if i < a {
                            assert(start.contains(x));
                        }
                    }
                }
            }
            a = a + 1;
        }
    } else if src_image.len() > 0 {
        let mut a: usize = 0;
        while a < src_image.len()
            invariant
                a <= sv.len(),
                sv == src_image@,
                strictly_sorted::<Edge>(out@),
                forall|x: EdgeView| #[trigger]
                    out@.contains(x) <==> exists|i: int|
                        0 <= i < a && x == #[trigger] renamed(edge_like(qe@, sv[i], qe@.trg), qe@),
            decreases sv.len() - a,
        {
            let ghost before = out@;
            out.insert(edge_between(qe, src_image.at(a), &qe.trg));
            proof {
                assert forall|x: EdgeView| #[trigger]
                    out@.contains(x) <==> exists|i: int|
                        0 <= i < a + 1 && x == #[trigger] renamed(
                            edge_like(qe@, sv[i], qe@.trg),
                            qe@,
                        ) by {
                    assert(out@.to_set().contains(x) == out@.contains(x));
                    assert(before.to_set().contains(x) == before.contains(x));
                    if before.contains(x) {
                        let i = choose|i: int|
                            0 <= i < a && x == #[trigger] renamed(
                                edge_like(qe@, sv[i], qe@.trg),
                                qe@,
                            );
                        assert(0 <= i < a + 1);
                    }
                    if exists|i: int|
                        0 <= i < a + 1 && x == #[trigger] renamed(
                            edge_like(qe@, sv[i], qe@.trg),
                            qe@,
                        ) {
                        let i = choose|i: int|
                            0 <= i < a + 1 && x == #[trigger] renamed(
                                edge_like(qe@, sv[i], qe@.trg),
                                qe@,
                            );
                        if i < a {
                            assert(before.contains(x));
                        }
                    }
                }
            }
            a = a + 1;
        }
    } else if trg_image.len() > 0 {
        let mut b: usize = 0;
        while b < trg_image.len()
            invariant
                b <= tv.len(),
                tv == trg_image@,
                strictly_sorted::<Edge>(out@),
                forall|x: EdgeView| #[trigger]
                    out@.contains(x) <==> exists|j: int|
                        0 <= j < b && x == #[trigger] renamed(edge_like(qe@, qe@.src, tv[j]), qe@),
            decreases tv.len() - b,
        {
            let ghost before = out@;
            out.insert(edge_between(qe, &qe.src, trg_image.at(b)));
            proof {
                assert forall|x: EdgeView| #[trigger]
                    out@.contains(x) <==> exists|j: int|
                        0 <= j < b + 1 && x == #[trigger] renamed(
                            edge_like(qe@, qe@.src, tv[j]),
                            qe@,
                        ) by {
                    assert(out@.to_set().contains(x) == out@.contains(x));
                    assert(before.to_set().contains(x) == before.contains(x));
                    if before.contains(x) {
                        let j = choose|j: int|
                            0 <= j < b && x == #[trigger] renamed(
                                edge_like(qe@, qe@.src, tv[j]),
                                qe@,
                            );
                        assert(0 <= j < b + 1);
                    }
                    if exists|j: int|
                        0 <= j < b + 1 && x == #[trigger] renamed(
                            edge_like(qe@, qe@.src, tv[j]),
                            qe@,
                        ) {
                        let j = choose|j: int|
                            0 <= j < b + 1 && x == #[trigger] renamed(
                                edge_like(qe@, qe@.src, tv[j]),
                                qe@,
                            );
                        if j < b {
                            assert(before.contains(x));
                        }
                    }
                }
            }
            b = b + 1;
        }
    } else {
        out.insert(qe.dup());
        proof {
            assert forall|x: EdgeView| #[trigger] out@.contains(x) <==> x == qe@ by {
                assert(out@.to_set().contains(x) == out@.contains(x));
            }
        }
    }
    out
}

/// Whether an edge stands for one of the first `i` of the query edges that
/// is in a set of the query, if one is given.
pub open spec fn stood_upto(
    g: Seq<MatchEntries>,
    keys: Seq<EdgeView>,
    among: Option<Seq<EdgeView>>,
    x: EdgeView,
    i: int,
) -> bool {
    exists|k: int|
        0 <= k < i && (among is None || among->0.contains(keys[k])) && stands_for(
            g,
            #[trigger] keys[k],
            x,
        )
}

/// Whether a node is an end of an edge that stands for one of the first `i`
/// of the query edges whose end there a set of the query holds.
pub open spec fn ends_upto(
    g: Seq<MatchEntries>,
    keys: Seq<EdgeView>,
    among: Seq<NodeView>,
    node: NodeView,
    i: int,
) -> bool {
    exists|k: int, x: EdgeView|
        0 <= k < i && #[trigger] stands_for(g, keys[k], x) && ((among.contains(keys[k].src) && node
            == x.src) || (among.contains(keys[k].trg) && node == x.trg))
}

fn extend_if(set: &mut OrderedSet<Edge>, wanted: bool, edges: &OrderedSet<Edge>)
    requires
        strictly_sorted::<Edge>(old(set)@),
    ensures
        strictly_sorted::<Edge>(final(set)@),
        forall|x: EdgeView| #[trigger]
            final(set)@.contains(x) <==> (old(set)@.contains(x) || (wanted && edges@.contains(x))),
{
    if wanted {
        set.extend(edges);
    }
    proof {
        assert forall|x: EdgeView| #[trigger]
            set@.contains(x) <==> (old(set)@.contains(x) || (wanted && edges@.contains(x))) by {
            assert(set@.to_set().contains(x) == set@.contains(x));
            assert(old(set)@.to_set().contains(x) == old(set)@.contains(x));
            assert(edges@.to_set().contains(x) == edges@.contains(x));
        }
    }
}

fn add_ends(set: &mut OrderedSet<Node>, sources: bool, targets: bool, edges: &OrderedSet<Edge>)
    requires
        strictly_sorted::<Node>(old(set)@),
    ensures
        strictly_sorted::<Node>(final(set)@),
        forall|n: NodeView| #[trigger]
            final(set)@.contains(n) <==> (old(set)@.contains(n) || exists|j: int|
                0 <= j < edges@.len() && ((sources && n == (#[trigger] edges@[j]).src) || (targets
                    && n == edges@[j].trg))),
{
    let ghost ev = edges@;
    let mut j: usize = 0;
    while j < edges.len()
        invariant
            j <= ev.len(),
            ev == edges@,
            strictly_sorted::<Node>(set@),
            forall|n: NodeView| #[trigger]
                set@.contains(n) <==> (old(set)@.contains(n) || exists|k: int|
                    0 <= k < j && ((sources && n == (#[trigger] ev[k]).src) || (targets && n
                        == ev[k].trg))),
        decreases ev.len() - j,
    {
        let e = edges.at(j);
        let ghost before = set@;
        if sources {
            set.insert(e.src.dup());
        }
        let ghost mid = set@;
        if targets {
            set.insert(e.trg.dup());
        }
        proof {
            assert forall|n: NodeView| #[trigger]
                set@.contains(n) <==> (old(set)@.contains(n) || exists|k: int|
                    0 <= k < j + 1 && ((sources && n == (#[trigger] ev[k]).src) || (targets && n
                        == ev[k].trg))) by {
                assert(set@.to_set().contains(n) == set@.contains(n));
                assert(mid.to_set().contains(n) == mid.contains(n));
                assert(before.to_set().contains(n) == before.contains(n));
                let here = (sources && n == ev[j as int].src) || (targets && n == ev[j as int].trg);
                assert(set@.contains(n) == (before.contains(n) || here));
                if exists|k: int|
                    0 <= k < j && ((sources && n == (#[trigger] ev[k]).src) || (targets && n
                        == ev[k].trg)) {
                    let k = choose|k: int|
                        0 <= k < j && ((sources && n == (#[trigger] ev[k]).src) || (targets && n
                            == ev[k].trg));
                    assert(0 <= k < j + 1);
                }
                if here {
                    assert((sources && n == ev[j as int].src) || (targets && n == ev[j as int].trg));
                }
                if exists|k: int|
                    0 <= k < j + 1 && ((sources && n == (#[trigger] ev[k]).src) || (targets && n
                        == ev[k].trg)) {
                    let k = choose|k: int|
                        0 <= k < j + 1 && ((sources && n == (#[trigger] ev[k]).src) || (targets
                            && n == ev[k].trg));
                    if k < j {
                        assert(before.contains(n));
                    }
                }
            }
        }
        j = j + 1;
    }
}

/// The images of a node as a set are those that its matches give it.
proof fn lemma_node_images(
    g: Seq<MatchEntries>,
    nimg: Seq<(NodeView, Seq<NodeView>)>,
    node: NodeView,
    found: Seq<NodeView>,
)
    requires
        forall|n: NodeView, image: NodeView| #[trigger]
            set_at(nimg, n).contains(image) <==> is_node_image(g, n, image, g.len() as int),
        found.to_set() == set_at(nimg, node),
    ensures
        found.len() > 0 <==> has_image(g, node),
        forall|image: NodeView|
            is_node_image(g, node, image, g.len() as int) <==> exists|a: int|
                0 <= a < found.len() && #[trigger] found[a] == image,
{
    if found.len() > 0 {
        assert(found.to_set().contains(found[0]));
        assert(is_node_image(g, node, found[0], g.len() as int));
    }
    if has_image(g, node) {
        let image = choose|image: NodeView| is_node_image(g, node, image, g.len() as int);
        assert(found.to_set().contains(image));
        assert(found.contains(image));
    }
    assert forall|image: NodeView|
        is_node_image(g, node, image, g.len() as int) <==> exists|a: int|
            0 <= a < found.len() && #[trigger] found[a] == image by {
        assert(found.to_set().contains(image) == found.contains(image));
        if exists|a: int| 0 <= a < found.len() && #[trigger] found[a] == image {
            let a = choose|a: int| 0 <= a < found.len() && #[trigger] found[a] == image;
            assert(found.contains(image));
        }
    }
}

impl Query {
    /// The matched query of a grouped match: the query with every edge that
    /// the matches bind replaced by the edges that stand for it, under the
    /// name of the query with a suffix. An output edge neither of whose ends
    /// has an image stays an output edge.
    pub fn create_matched_query(&self, grouped_query_match: GroupedQueryMatch, suffix: String) -> (r:
        Query)
        ensures
            is_matched_query(self@, grouped_query_match@, suffix@, r@),
    {
        let ghost g = grouped_query_match@;
        let ghost n = g.len() as int;
        let image_homomorphism = grouped_query_match.get_image_homomorphism();
        let node_image_homomorphism = grouped_query_match.get_node_image_homomorphism();
        let ghost img = image_homomorphism@;
        let ghost keys = keys_of(img);
        let ghost nimg = node_image_homomorphism@;
        let mut new_edges: OrderedSet<Edge> = OrderedSet::new();
        let mut new_optional_edges: OrderedSet<Edge> = OrderedSet::new();
        let mut new_output_edges: OrderedSet<Edge> = OrderedSet::new();
        let mut new_input_nodes: OrderedSet<Node> = OrderedSet::new();
        let mut new_group: OrderedSet<Node> = OrderedSet::new();
        let empty: OrderedSet<Node> = OrderedSet::new();
        let mut i: usize = 0;
        while i < image_homomorphism.len()
            invariant
                i <= img.len(),
                img == image_homomorphism@,
                keys == keys_of(img),
                nimg == node_image_homomorphism@,
                g == grouped_query_match@,
                n == g.len(),
                empty@.len() == 0,
                strictly_sorted::<Edge>(keys),
                forall|qe: EdgeView| #[trigger]
                    has_key(img, qe) ==> value_of(img, qe) == images(g, qe, n),
                forall|node: NodeView, image: NodeView| #[trigger]
                    set_at(nimg, node).contains(image) <==> is_node_image(g, node, image, n),
                strictly_sorted::<Edge>(new_edges@),
                strictly_sorted::<Edge>(new_optional_edges@),
                strictly_sorted::<Edge>(new_output_edges@),
                strictly_sorted::<Node>(new_input_nodes@),
                strictly_sorted::<Node>(new_group@),
                forall|x: EdgeView| #[trigger]
                    new_edges@.contains(x) <==> stood_upto(g, keys, None, x, i as int),
                forall|x: EdgeView| #[trigger]
                    new_optional_edges@.contains(x) <==> stood_upto(
                        g,
                        keys,
                        Some(self@.optional_edges),
                        x,
                        i as int,
                    ),
                forall|x: EdgeView| #[trigger]
                    new_output_edges@.contains(x) <==> stood_upto(
                        g,
                        keys,
                        Some(self@.output_edges),
                        x,
                        i as int,
                    ),
                forall|node: NodeView| #[trigger]
                    new_input_nodes@.contains(node) <==> ends_upto(
                        g,
                        keys,
                        self@.input_nodes,
                        node,
                        i as int,
                    ),
                forall|node: NodeView| #[trigger]
                    new_group@.contains(node) <==> ends_upto(g, keys, self@.group, node, i as int),
            decreases img.len() - i,
        {
            let query_edge = image_homomorphism.key_at(i);
            let matched_edges = image_homomorphism.value_at(i);
            let src_image = match node_image_homomorphism.get(&query_edge.src) {
                Some(s) => s,
                None => &empty,
            };
            let trg_image = match node_image_homomorphism.get(&query_edge.trg) {
                Some(s) => s,
                None => &empty,
            };
            let edges_to_add = edges_standing_for(query_edge, matched_edges, src_image, trg_image);
            let ghost qe = query_edge@;
            let ghost ev = edges_to_add@;
            proof {
                lemma_entry_at::<Edge, Seq<EdgeView>>(img, i as int);
                assert(keys[i as int] == qe);
                assert(matched_edges.deep_view() == images(g, qe, n));
                assert(src_image@.to_set() =~= set_at(nimg, qe.src));
                assert(trg_image@.to_set() =~= set_at(nimg, qe.trg));
                lemma_node_images(g, nimg, qe.src, src_image@);
                lemma_node_images(g, nimg, qe.trg, trg_image@);
                assert forall|x: EdgeView| ev.contains(x) <==> stands_for(g, qe, x) by {
                    let sv = src_image@;
                    let tv = trg_image@;
                    if images(g, qe, n).len() > 0 {
                    } else if has_image(g, qe.src) && has_image(g, qe.trg) {
                        if ev.contains(x) {
                            let (a, b) = choose|a: int, b: int|
                                0 <= a < sv.len() && 0 <= b < tv.len() && x == #[trigger] renamed(
                                    edge_like(qe, sv[a], tv[b]),
                                    qe,
                                );
                            assert(is_node_image(g, qe.src, sv[a], n));
                            assert(is_node_image(g, qe.trg, tv[b], n));
                        }
                        if stands_for(g, qe, x) {
                            let (s, t) = choose|s: NodeView, t: NodeView|
                                is_node_image(g, qe.src, s, n) && is_node_image(g, qe.trg, t, n)
                                    && x == #[trigger] renamed(edge_like(qe, s, t), qe);
                            let a = choose|a: int| 0 <= a < sv.len() && #[trigger] sv[a] == s;
                            let b = choose|b: int| 0 <= b < tv.len() && #[trigger] tv[b] == t;
                            assert(x == renamed(edge_like(qe, sv[a], tv[b]), qe));
                        }
                    } else if has_image(g, qe.src) {
                        if ev.contains(x) {
                            let a = choose|a: int|
                                0 <= a < sv.len() && x == #[trigger] renamed(
                                    edge_like(qe, sv[a], qe.trg),
                                    qe,
                                );
                            assert(is_node_image(g, qe.src, sv[a], n));
                        }
                        if stands_for(g, qe, x) {
                            let s = choose|s: NodeView|
                                is_node_image(g, qe.src, s, n) && x == #[trigger] renamed(
                                    edge_like(qe, s, qe.trg),
                                    qe,
                                );
                            let a = choose|a: int| 0 <= a < sv.len() && #[trigger] sv[a] == s;
                            assert(x == renamed(edge_like(qe, sv[a], qe.trg), qe));
                        }
                    } else if has_image(g, qe.trg) {
                        if ev.contains(x) {
                            let b = choose|b: int|
                                0 <= b < tv.len() && x == #[trigger] renamed(
                                    edge_like(qe, qe.src, tv[b]),
                                    qe,
                                );
                            assert(is_node_image(g, qe.trg, tv[b], n));
                        }
                        if stands_for(g, qe, x) {
                            let t = choose|t: NodeView|
                                is_node_image(g, qe.trg, t, n) && x == #[trigger] renamed(
                                    edge_like(qe, qe.src, t),
                                    qe,
                                );
                            let b = choose|b: int| 0 <= b < tv.len() && #[trigger] tv[b] == t;
                            assert(x == renamed(edge_like(qe, qe.src, tv[b]), qe));
                        }
                    }
                }
            }
            let ghost e0 = new_edges@;
            let ghost o0 = new_optional_edges@;
            let ghost u0 = new_output_edges@;
            let ghost i0 = new_input_nodes@;
            let ghost g0 = new_group@;
            let optional = self.optional_edges.contains(query_edge);
            let output = self.output_edges.contains(query_edge);
            extend_if(&mut new_edges, true, &edges_to_add);
            extend_if(&mut new_optional_edges, optional, &edges_to_add);
            extend_if(&mut new_output_edges, output, &edges_to_add);
            let input_src = self.input_nodes.contains(&query_edge.src);
            let input_trg = self.input_nodes.contains(&query_edge.trg);
            add_ends(&mut new_input_nodes, input_src, input_trg, &edges_to_add);
            let group_src = self.group.contains(&query_edge.src);
            let group_trg = self.group.contains(&query_edge.trg);
            add_ends(&mut new_group, group_src, group_trg, &edges_to_add);
            proof {
                lemma_stood_step(g, keys, None, i as int, e0, new_edges@, ev);
                lemma_stood_step(g, keys, Some(self@.optional_edges), i as int, o0, new_optional_edges@, ev);
                lemma_stood_step(g, keys, Some(self@.output_edges), i as int, u0, new_output_edges@, ev);
                lemma_ends_step(g, keys, self@.input_nodes, i as int, i0, new_input_nodes@, ev);
                lemma_ends_step(g, keys, self@.group, i as int, g0, new_group@, ev);
            }
            i = i + 1;
        }
        let ghost stood_out = new_output_edges@;
        let mut k: usize = 0;
        while k < self.output_edges.len()
            invariant
                k <= self@.output_edges.len(),
                nimg == node_image_homomorphism@,
                empty@.len() == 0,
                strictly_sorted::<Edge>(new_output_edges@),
                forall|node: NodeView, image: NodeView| #[trigger]
                    set_at(nimg, node).contains(image) <==> is_node_image(g, node, image, n),
                n == g.len(),
                forall|x: EdgeView| #[trigger]
                    new_output_edges@.contains(x) <==> (stood_out.contains(x) || exists|j: int|
                        0 <= j < k && #[trigger] self@.output_edges[j] == x && !has_image(g, x.src)
                            && !has_image(g, x.trg)),
            decreases self@.output_edges.len() - k,
        {
            let e = self.output_edges.at(k);
            let src_image = match node_image_homomorphism.get(&e.src) {
                Some(s) => s,
                None => &empty,
            };
            let trg_image = match node_image_homomorphism.get(&e.trg) {
                Some(s) => s,
                None => &empty,
            };
            proof {
                assert(src_image@.to_set() =~= set_at(nimg, e@.src));
                assert(trg_image@.to_set() =~= set_at(nimg, e@.trg));
                lemma_node_images(g, nimg, e@.src, src_image@);
                lemma_node_images(g, nimg, e@.trg, trg_image@);
            }
            let ghost before = new_output_edges@;
            let keep = src_image.is_empty() && trg_image.is_empty();
            if keep {
                new_output_edges.insert(e.dup());
            }
            proof {
                let ov = self@.output_edges;
                assert forall|x: EdgeView| #[trigger]
                    new_output_edges@.contains(x) <==> (stood_out.contains(x) || exists|j: int|
                        0 <= j < k + 1 && #[trigger] ov[j] == x && !has_image(g, x.src)
                            && !has_image(g, x.trg)) by {
                    assert(new_output_edges@.to_set().contains(x) == new_output_edges@.contains(x));
                    assert(before.to_set().contains(x) == before.contains(x));
                    if exists|j: int|
                        0 <= j < k && #[trigger] ov[j] == x && !has_image(g, x.src) && !has_image(
                            g,
                            x.trg,
                        ) {
                        let j = choose|j: int|
                            0 <= j < k && #[trigger] ov[j] == x && !has_image(g, x.src)
                                && !has_image(g, x.trg);
                        assert(0 <= j < k + 1);
                    }
                    if keep && x == e@ {
                        assert(ov[k as int] == x);
                    }
                    if exists|j: int|
                        0 <= j < k + 1 && #[trigger] ov[j] == x && !has_image(g, x.src)
                            && !has_image(g, x.trg) {
                        let j = choose|j: int|
                            0 <= j < k + 1 && #[trigger] ov[j] == x && !has_image(g, x.src)
                                && !has_image(g, x.trg);
                        if j < k {
                            assert(before.contains(x));
                        }
                    }
                }
            }
            k = k + 1;
        }
        let edges = new_edges.to_vec();
        let ghost edge_seq = edges.deep_view();
        let query_graph = Graph::from_edges(edges);
        let r = Query {
            name: self.name.dup().concat(suffix.as_str()),
            application: self.application.dup(),
            graph: query_graph,
            optional_edges: new_optional_edges,
            group: new_group,
            output_edges: new_output_edges,
            input_nodes: new_input_nodes,
        };
        proof {
            let ov = self@.output_edges;
            assert forall|x: EdgeView| stood_upto(g, keys, None, x, img.len() as int) <==> stands(
                g,
                x,
            ) by {
                lemma_stood_all(g, img, None, x);
            }
            assert forall|x: EdgeView|
                stood_upto(g, keys, Some(self@.optional_edges), x, img.len() as int) <==> stands_in(
                    g,
                    self@.optional_edges,
                    x,
                ) by {
                lemma_stood_all(g, img, Some(self@.optional_edges), x);
            }
            assert forall|x: EdgeView|
                stood_upto(g, keys, Some(ov), x, img.len() as int) <==> stands_in(g, ov, x) by {
                lemma_stood_all(g, img, Some(ov), x);
            }
            assert forall|node: NodeView|
                ends_upto(g, keys, self@.input_nodes, node, img.len() as int) <==> end_stands_in(
                    g,
                    self@.input_nodes,
                    node,
                ) by {
                lemma_ends_all(g, img, self@.input_nodes, node);
            }
            assert forall|node: NodeView|
                ends_upto(g, keys, self@.group, node, img.len() as int) <==> end_stands_in(
                    g,
                    self@.group,
                    node,
                ) by {
                lemma_ends_all(g, img, self@.group, node);
            }
            assert forall|x: EdgeView| #[trigger]
                r@.output_edges.contains(x) <==> (stands_in(g, ov, x) || (ov.contains(x)
                    && !has_image(g, x.src) && !has_image(g, x.trg))) by {
                if ov.contains(x) {
                    let j = choose|j: int| 0 <= j < ov.len() && ov[j] == x;
                    assert(ov[j] == x);
                }
            }
            assert(r@.graph.edges == edge_seq);
        }
        r
    }
}

proof fn lemma_stood_step(
    g: Seq<MatchEntries>,
    keys: Seq<EdgeView>,
    among: Option<Seq<EdgeView>>,
    i: int,
    before: Seq<EdgeView>,
    after: Seq<EdgeView>,
    added: Seq<EdgeView>,
)
    requires
        0 <= i < keys.len(),
        forall|x: EdgeView| #[trigger] before.contains(x) <==> stood_upto(g, keys, among, x, i),
        forall|x: EdgeView| #[trigger] added.contains(x) <==> stands_for(g, keys[i], x),
        forall|x: EdgeView| #[trigger]
            after.contains(x) <==> (before.contains(x) || ((among is None || among->0.contains(
                keys[i],
            )) && added.contains(x))),
    ensures
        forall|x: EdgeView| #[trigger] after.contains(x) <==> stood_upto(g, keys, among, x, i + 1),
{
    assert forall|x: EdgeView| #[trigger] after.contains(x) <==> stood_upto(
        g,
        keys,
        among,
        x,
        i + 1,
    ) by {
        if stood_upto(g, keys, among, x, i) {
            let k = choose|k: int|
                0 <= k < i && (among is None || among->0.contains(keys[k])) && stands_for(
                    g,
                    #[trigger] keys[k],
                    x,
                );
            assert(0 <= k < i + 1);
        }
        if (among is None || among->0.contains(keys[i])) && added.contains(x) {
            assert(stands_for(g, keys[i], x));
        }
        if stood_upto(g, keys, among, x, i + 1) {
            let k = choose|k: int|
                0 <= k < i + 1 && (among is None || among->0.contains(keys[k])) && stands_for(
                    g,
                    #[trigger] keys[k],
                    x,
                );
            if k < i {
                assert(stood_upto(g, keys, among, x, i));
            }
        }
    }
}

proof fn lemma_ends_step(
    g: Seq<MatchEntries>,
    keys: Seq<EdgeView>,
    among: Seq<NodeView>,
    i: int,
    before: Seq<NodeView>,
    after: Seq<NodeView>,
    added: Seq<EdgeView>,
)
    requires
        0 <= i < keys.len(),
        forall|n: NodeView| #[trigger] before.contains(n) <==> ends_upto(g, keys, among, n, i),
        forall|x: EdgeView| #[trigger] added.contains(x) <==> stands_for(g, keys[i], x),
        forall|n: NodeView| #[trigger]
            after.contains(n) <==> (before.contains(n) || exists|j: int|
                0 <= j < added.len() && ((among.contains(keys[i].src) && n == (
                #[trigger] added[j]).src) || (among.contains(keys[i].trg) && n == added[j].trg))),
    ensures
        forall|n: NodeView| #[trigger] after.contains(n) <==> ends_upto(g, keys, among, n, i + 1),
{
    assert forall|n: NodeView| #[trigger] after.contains(n) <==> ends_upto(
        g,
        keys,
        among,
        n,
        i + 1,
    ) by {
        if ends_upto(g, keys, among, n, i) {
            let (k, x) = choose|k: int, x: EdgeView|
                0 <= k < i && #[trigger] stands_for(g, keys[k], x) && ((among.contains(keys[k].src)
                    && n == x.src) || (among.contains(keys[k].trg) && n == x.trg));
            assert(0 <= k < i + 1);
        }
        if exists|j: int|
            0 <= j < added.len() && ((among.contains(keys[i].src) && n == (#[trigger] added[j]).src)
                || (among.contains(keys[i].trg) && n == added[j].trg)) {
            let j = choose|j: int|
                0 <= j < added.len() && ((among.contains(keys[i].src) && n == (
                #[trigger] added[j]).src) || (among.contains(keys[i].trg) && n == added[j].trg));
            assert(added.contains(added[j]));
            assert(stands_for(g, keys[i], added[j]));
        }
        if ends_upto(g, keys, among, n, i + 1) {
            let (k, x) = choose|k: int, x: EdgeView|
                0 <= k < i + 1 && #[trigger] stands_for(g, keys[k], x) && ((among.contains(
                    keys[k].src,
                ) && n == x.src) || (among.contains(keys[k].trg) && n == x.trg));
            if k < i {
                assert(ends_upto(g, keys, among, n, i));
            } else {
                assert(added.contains(x));
                let j = choose|j: int| 0 <= j < added.len() && added[j] == x;
                assert((among.contains(keys[i].src) && n == added[j].src) || (among.contains(
                    keys[i].trg,
                ) && n == added[j].trg));
            }
        }
    }
}

proof fn lemma_stood_all(
    g: Seq<MatchEntries>,
    img: Seq<(EdgeView, Seq<EdgeView>)>,
    among: Option<Seq<EdgeView>>,
    x: EdgeView,
)
    requires
        forall|qe: EdgeView| #[trigger] has_key(img, qe) <==> binds_edge(g, qe, g.len() as int),
    ensures
        stood_upto(g, keys_of(img), among, x, img.len() as int) <==> (exists|qe: EdgeView|
            binds_edge(g, qe, g.len() as int) && (among is None || among->0.contains(qe))
                && #[trigger] stands_for(g, qe, x)),
{
    let keys = keys_of(img);
    if stood_upto(g, keys, among, x, img.len() as int) {
        let k = choose|k: int|
            0 <= k < img.len() && (among is None || among->0.contains(keys[k])) && stands_for(
                g,
                #[trigger] keys[k],
                x,
            );
        assert(img[k].0 == keys[k]);
        assert(has_key(img, keys[k]));
    }
    if exists|qe: EdgeView|
        binds_edge(g, qe, g.len() as int) && (among is None || among->0.contains(qe))
            && #[trigger] stands_for(g, qe, x) {
        let qe = choose|qe: EdgeView|
            binds_edge(g, qe, g.len() as int) && (among is None || among->0.contains(qe))
                && #[trigger] stands_for(g, qe, x);
        assert(has_key(img, qe));
        let k = index_of_key(img, qe);
        assert(keys[k] == qe);
    }
}

proof fn lemma_ends_all(
    g: Seq<MatchEntries>,
    img: Seq<(EdgeView, Seq<EdgeView>)>,
    among: Seq<NodeView>,
    node: NodeView,
)
    requires
        forall|qe: EdgeView| #[trigger] has_key(img, qe) <==> binds_edge(g, qe, g.len() as int),
    ensures
        ends_upto(g, keys_of(img), among, node, img.len() as int) <==> end_stands_in(g, among, node),
{
    let keys = keys_of(img);
    if ends_upto(g, keys, among, node, img.len() as int) {
        let (k, x) = choose|k: int, x: EdgeView|
            0 <= k < img.len() && #[trigger] stands_for(g, keys[k], x) && ((among.contains(
                keys[k].src,
            ) && node == x.src) || (among.contains(keys[k].trg) && node == x.trg));
        assert(img[k].0 == keys[k]);
        assert(has_key(img, keys[k]));
    }
    if end_stands_in(g, among, node) {
        let (qe, x) = choose|qe: EdgeView, x: EdgeView|
            binds_edge(g, qe, g.len() as int) && #[trigger] stands_for(g, qe, x) && ((
            among.contains(qe.src) && node == x.src) || (among.contains(qe.trg) && node == x.trg));
        assert(has_key(img, qe));
        let k = index_of_key(img, qe);
        assert(keys[k] == qe);
    }
}

} // verus!
