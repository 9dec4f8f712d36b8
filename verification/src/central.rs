//! What the central store keeps: a row for each delta of each package of
//! deltas that it has accepted, and the ids of the packages that were
//! retracted.

use crate::event::{Deltas, Update, UpdateView};
use crate::graph::{Delta, DeltaType, DeltaView, Node, NodeClass, NodeView};
use crate::order::Value;
use crate::ordered::{strictly_sorted, OrderedSet};
use vstd::prelude::*;

verus! {

/// A delta as a row of the central store.
#[derive(Debug, PartialEq, Eq)]
pub struct DeltaRow {
    pub deltas_id: String,
    pub ts: u64,
    pub delta_type: String,
    pub src_name: String,
    pub src_nodetype: String,
    pub src_nodeclass: String,
    pub src_value: Option<Vec<u8>>,
    pub trg_name: String,
    pub trg_nodetype: String,
    pub trg_nodeclass: String,
    pub trg_value: Option<Vec<u8>>,
    pub edge_type: String,
}

/// What a row holds.
pub struct DeltaRowView {
    pub deltas_id: Seq<char>,
    pub ts: u64,
    pub delta_type: Seq<char>,
    pub src_name: Seq<char>,
    pub src_nodetype: Seq<char>,
    pub src_nodeclass: Seq<char>,
    pub src_value: Option<Seq<u8>>,
    pub trg_name: Seq<char>,
    pub trg_nodetype: Seq<char>,
    pub trg_nodeclass: Seq<char>,
    pub trg_value: Option<Seq<u8>>,
    pub edge_type: Seq<char>,
}

impl DeepView for DeltaRow {
    type V = DeltaRowView;

    open spec fn deep_view(&self) -> DeltaRowView {
        DeltaRowView {
            deltas_id: self.deltas_id@,
            ts: self.ts,
            delta_type: self.delta_type@,
            src_name: self.src_name@,
            src_nodetype: self.src_nodetype@,
            src_nodeclass: self.src_nodeclass@,
            src_value: self.src_value.deep_view(),
            trg_name: self.trg_name@,
            trg_nodetype: self.trg_nodetype@,
            trg_nodeclass: self.trg_nodeclass@,
            trg_value: self.trg_value.deep_view(),
            edge_type: self.edge_type@,
        }
    }
}

impl View for DeltaRow {
    type V = DeltaRowView;

    open spec fn view(&self) -> DeltaRowView {
        self.deep_view()
    }
}

/// Whether a node can stand in a row: it has the name of an instance and a
/// type.
pub open spec fn storable(n: NodeView) -> bool {
    n.instance_node_name is Some && n.node_type is Some
}

/// The row of a delta of a package; none where one of its nodes cannot
/// stand in a row.
pub open spec fn row_of(deltas_id: Seq<char>, d: DeltaView) -> Option<DeltaRowView> {
    if storable(d.src) && storable(d.trg) {
        Some(
            DeltaRowView {
                deltas_id,
                ts: d.timestamp,
                delta_type: d.delta_type.name_of(),
                src_name: d.src.instance_node_name->0,
                src_nodetype: d.src.node_type->0,
                src_nodeclass: d.src.node_class.name_of(),
                src_value: d.src.value_bytes,
                trg_name: d.trg.instance_node_name->0,
                trg_nodetype: d.trg.node_type->0,
                trg_nodeclass: d.trg.node_class.name_of(),
                trg_value: d.trg.value_bytes,
                edge_type: d.edge_type,
            },
        )
    } else {
        None
    }
}

/// The node that a name, a type, the name of a class and a value stand for.
pub open spec fn node_of(
    name: Seq<char>,
    node_type: Seq<char>,
    class: Seq<char>,
    value: Option<Seq<u8>>,
) -> Option<NodeView> {
    match NodeClass::named(class) {
        None => None,
        Some(node_class) => Some(
            NodeView {
                query_node_name: None,
                instance_node_name: Some(name),
                node_type: Some(node_type),
                node_class,
                value_bytes: value,
            },
        ),
    }
}

/// The delta that a row stands for; none where the row names no class or
/// no kind of delta.
pub open spec fn delta_of(row: DeltaRowView) -> Option<DeltaView> {
    match (
        node_of(row.src_name, row.src_nodetype, row.src_nodeclass, row.src_value),
        node_of(row.trg_name, row.trg_nodetype, row.trg_nodeclass, row.trg_value),
        DeltaType::named(row.delta_type),
    ) {
        (Some(src), Some(trg), Some(delta_type)) => Some(
            DeltaView { src, trg, edge_type: row.edge_type, timestamp: row.ts, delta_type },
        ),
        _ => None,
    }
}

/// The rows of the first `n` deltas of a package; none where one of them
/// has no row.
pub open spec fn rows_of(deltas_id: Seq<char>, ds: Seq<DeltaView>, n: int) -> Option<
    Seq<DeltaRowView>,
>
    decreases n,
{
    if n <= 0 {
        Some(Seq::empty())
    } else {
        match (rows_of(deltas_id, ds, n - 1), row_of(deltas_id, ds[n - 1])) {
            (Some(rows), Some(row)) => Some(rows.push(row)),
            _ => None,
        }
    }
}

/// A delta between instances that was put into a row is read back from it
/// as it was.
pub proof fn lemma_row_round_trip(deltas_id: Seq<char>, d: DeltaView)
    requires
        storable(d.src),
        storable(d.trg),
        d.src.query_node_name is None,
        d.trg.query_node_name is None,
    ensures
        row_of(deltas_id, d) is Some,
        delta_of(row_of(deltas_id, d)->0) == Some(d),
{
    d.src.node_class.lemma_name_round_trip();
    d.trg.node_class.lemma_name_round_trip();
    d.delta_type.lemma_name_round_trip();
}

fn node_parts(n: &Node) -> (r: Option<(String, String, String, Option<Vec<u8>>)>)
    ensures
        r is Some == storable(n@),
        r matches Some(p) ==> p.0@ == n@.instance_node_name->0 && p.1@ == n@.node_type->0 && p.2@
            == n@.node_class.name_of() && p.3.deep_view() == n@.value_bytes,
{
    match (&n.instance_node_name, &n.node_type) {
        (Some(name), Some(node_type)) => Some(
            (name.dup(), node_type.dup(), n.node_class.name().to_owned(), n.value_bytes.dup()),
        ),
        _ => None,
    }
}

/// The row of a delta of a package.
pub fn row_from_delta(deltas_id: &String, d: &Delta) -> (r: Option<DeltaRow>)
    ensures
        r.deep_view() == row_of(deltas_id@, d@),
{
    match (node_parts(&d.src), node_parts(&d.trg)) {
        (Some(src), Some(trg)) => Some(
            DeltaRow {
                deltas_id: deltas_id.dup(),
                ts: d.timestamp,
                delta_type: d.delta_type.name().to_owned(),
                src_name: src.0,
                src_nodetype: src.1,
                src_nodeclass: src.2,
                src_value: src.3,
                trg_name: trg.0,
                trg_nodetype: trg.1,
                trg_nodeclass: trg.2,
                trg_value: trg.3,
                edge_type: d.edge_type.dup(),
            },
        ),
        _ => None,
    }
}

fn node_from_parts(name: &String, node_type: &String, class: &String, value: &Option<Vec<u8>>) -> (r:
    Option<Node>)
    ensures
        r.deep_view() == node_of(name@, node_type@, class@, value.deep_view()),
{
    match NodeClass::from_name(class.as_str()) {
        None => None,
        Some(node_class) => Some(
            Node {
                query_node_name: None,
                instance_node_name: Some(name.dup()),
                node_type: Some(node_type.dup()),
                node_class,
                value_bytes: value.dup(),
            },
        ),
    }
}

/// The delta that a row stands for.
pub fn delta_from_row(row: &DeltaRow) -> (r: Option<Delta>)
    ensures
        r.deep_view() == delta_of(row@),
{
    let src = node_from_parts(&row.src_name, &row.src_nodetype, &row.src_nodeclass, &row.src_value);
    let trg = node_from_parts(&row.trg_name, &row.trg_nodetype, &row.trg_nodeclass, &row.trg_value);
    let delta_type = DeltaType::from_name(row.delta_type.as_str());
    match (src, trg, delta_type) {
        (Some(src), Some(trg), Some(delta_type)) => Some(
            Delta { src, trg, edge_type: row.edge_type.dup(), timestamp: row.ts, delta_type },
        ),
        _ => None,
    }
}

/// The rows of a package of deltas, in the order of its deltas.
pub fn rows_from_deltas(deltas: &Deltas) -> (r: Option<Vec<DeltaRow>>)
    ensures
        r.deep_view() == rows_of(deltas@.deltas_id, deltas@.deltas, deltas@.deltas.len() as int),
{
    let ghost ds = deltas@.deltas;
    let mut rows: Vec<DeltaRow> = Vec::new();
    let mut i: usize = 0;
    assert(rows.deep_view() =~= Seq::<DeltaRowView>::empty());
    while i < deltas.deltas.len()
        invariant
            i <= ds.len(),
            ds == deltas@.deltas,
            rows_of(deltas@.deltas_id, ds, i as int) == Some(rows.deep_view()),
        decreases ds.len() - i,
    {
        match row_from_delta(&deltas.deltas_id, deltas.deltas.at(i)) {
            None => {
                proof {
                    lemma_no_rows(deltas@.deltas_id, ds, i + 1, ds.len() as int);
                }
                return None;
            },
            Some(row) => {
                let ghost before = rows.deep_view();
                let ghost rv = row@;
                rows.push(row);
                assert(rows.deep_view() =~= before.push(rv));
            },
        }
        i += 1;
    }
    Some(rows)
}

proof fn lemma_no_rows(deltas_id: Seq<char>, ds: Seq<DeltaView>, n: int, m: int)
    requires
        0 <= n <= m,
        rows_of(deltas_id, ds, n) is None,
    ensures
        rows_of(deltas_id, ds, m) is None,
    decreases m - n,
{
    if n < m {
        lemma_no_rows(deltas_id, ds, n, m - 1);
    }
}

/// What the central store is to do with an update.
#[derive(Debug, PartialEq, Eq)]
pub enum CentralAction {
    /// The rows are to be added.
    Insert(Vec<DeltaRow>),
    /// The rows of the packages are to be deleted and the ids of the
    /// packages remembered as retracted: each id once, in increasing order.
    Retract(Vec<String>),
    /// There is nothing to do.
    Nothing,
    /// A delta of the package is not between instances.
    Refused,
}

/// What the central store is to do with an update, as a model.
pub enum CentralActionView {
    Insert(Seq<DeltaRowView>),
    Retract(Seq<Seq<char>>),
    Nothing,
    Refused,
}

impl DeepView for CentralAction {
    type V = CentralActionView;

    open spec fn deep_view(&self) -> CentralActionView {
        match self {
            CentralAction::Insert(rows) => CentralActionView::Insert(rows.deep_view()),
            CentralAction::Retract(ids) => CentralActionView::Retract(ids.deep_view()),
            CentralAction::Nothing => CentralActionView::Nothing,
            CentralAction::Refused => CentralActionView::Refused,
        }
    }
}

/// Whether an action is what the central store is to do with an update. A
/// package that was retracted is not stored; one that was not is stored
/// row by row. A retraction deletes the rows of its packages. Events and
/// stops are not for the central store.
pub open spec fn is_central_action(update: UpdateView, retracted: bool, a: CentralActionView) -> bool {
    match update {
        UpdateView::Deltas(ds) => if retracted {
            a is Nothing
        } else {
            match rows_of(ds.deltas_id, ds.deltas, ds.deltas.len() as int) {
                Some(rows) => a == CentralActionView::Insert(rows),
                None => a is Refused,
            }
        },
        UpdateView::Retractions(rs) => a is Retract && strictly_sorted::<String>(a->Retract_0)
            && a->Retract_0.to_set() == rs.deltas_ids.to_set(),
        _ => a is Nothing,
    }
}

/// What the central store is to do with an update; `retracted` says
/// whether the store remembers the id of the package, where the update is
/// one, as retracted.
pub fn central_action(update: &Update, retracted: bool) -> (a: CentralAction)
    ensures
        is_central_action(update@, retracted, a.deep_view()),
{
    match update {
        Update::Deltas(deltas) => {
            if retracted {
                CentralAction::Nothing
            } else {
                match rows_from_deltas(deltas) {
                    Some(rows) => CentralAction::Insert(rows),
                    None => CentralAction::Refused,
                }
            }
        },
        Update::Retractions(retractions) => {
            let ids = OrderedSet::from_vec(retractions.deltas_ids.dup());
            CentralAction::Retract(ids.to_vec())
        },
        _ => CentralAction::Nothing,
    }
}

} // verus!
