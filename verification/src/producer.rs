//! What a producer of updates decides: how it packs deltas, in which order
//! and at which rate it sends, and when it stops.

use crate::event::{Deltas, Update, UpdateView};
use crate::graph::{Delta, DeltaView};
use crate::ordered::{strictly_sorted, OrderedSet};
use vstd::prelude::*;

verus! {

/// Whether a timestamp is the earliest of a list of deltas.
pub open spec fn is_earliest(ds: Seq<DeltaView>, t: u64) -> bool {
    &&& exists|i: int| 0 <= i < ds.len() && (#[trigger] ds[i]).timestamp == t
    &&& forall|i: int| 0 <= i < ds.len() ==> t <= (#[trigger] ds[i]).timestamp
}

/// Whether an update is the package of a list of deltas under an id: the
/// package is its own origin, at the time of its earliest delta, and holds
/// the deltas of the list, each once.
pub open spec fn is_package_of(u: UpdateView, id: Seq<char>, ds: Seq<DeltaView>) -> bool {
    &&& u is Deltas
    &&& u->Deltas_0.deltas_id == id
    &&& u->Deltas_0.origin_id == id
    &&& is_earliest(ds, u->Deltas_0.origin_timestamp)
    &&& strictly_sorted::<Delta>(u->Deltas_0.deltas)
    &&& u->Deltas_0.deltas.to_set() == ds.to_set()
}

/// The package of a list of deltas under an id; none for an empty list.
pub fn package_of(deltas_id: &str, deltas: Vec<Delta>) -> (r: Option<Update>)
    ensures
        r is Some <==> deltas.len() > 0,
        r is Some ==> is_package_of(r->0@, deltas_id@, deltas.deep_view()),
{
    if deltas.len() == 0 {
        return None;
    }
    let ghost ds = deltas.deep_view();
    let mut earliest = deltas[0].timestamp;
    let ghost mut at: int = 0;
    let mut i: usize = 1;
    while i < deltas.len()
        invariant
            1 <= i <= deltas.len(),
            ds == deltas.deep_view(),
            0 <= at < i,
            ds[at].timestamp == earliest,
            forall|k: int| 0 <= k < i ==> earliest <= (#[trigger] ds[k]).timestamp,
        decreases deltas.len() - i,
    {
        assert(ds[i as int] == deltas[i as int]@);
        if deltas[i].timestamp < earliest {
            earliest = deltas[i].timestamp;
            proof {
                at = i as int;
            }
        }
        i += 1;
    }
    Some(
        Update::Deltas(
            Deltas {
                deltas_id: deltas_id.to_owned(),
                origin_id: deltas_id.to_owned(),
                origin_timestamp: earliest,
                deltas: OrderedSet::from_vec(deltas),
            },
        ),
    )
}

/// The order in which the messages of a list are sent when each batch of
/// ten is sent backwards: the last full batch, and what follows it, is not
/// sent.
pub open spec fn reversed_batches(len: nat) -> Seq<usize> {
    Seq::new(
        ((len / 10 - 1) * 10) as nat,
        |k: int| ((k / 10) * 10 + (9 - k % 10)) as usize,
    )
}

/// The positions of the messages of a list of `len`, in the order in which
/// they are sent when each batch of ten is sent backwards; none for a list
/// that holds no batch.
pub fn reversed_batch_order(len: usize) -> (r: Option<Vec<usize>>)
    ensures
        r is Some <==> len >= 10,
        r is Some ==> r->0@ == reversed_batches(len as nat),
        r is Some ==> forall|k: int| 0 <= k < r->0@.len() ==> #[trigger] r->0@[k] < len,
{
    if len < 10 {
        return None;
    }
    let batches = len / 10 - 1;
    let mut order: Vec<usize> = Vec::new();
    let mut i: usize = 0;
    while i < batches
        invariant
            i <= batches,
            batches == len / 10 - 1,
            order@.len() == i * 10,
            forall|k: int|
                0 <= k < order@.len() ==> #[trigger] order@[k] == (k / 10) * 10 + (9 - k % 10),
        decreases batches - i,
    {
        let mut j: usize = 10;
        while j > 0
            invariant
                j <= 10,
                i < batches,
                batches == len / 10 - 1,
                order@.len() == i * 10 + (10 - j),
                forall|k: int|
                    0 <= k < order@.len() ==> #[trigger] order@[k] == (k / 10) * 10 + (9 - k % 10),
            decreases j,
        {
            j -= 1;
            let ghost k = order@.len() as int;
            assert(k / 10 == i && k % 10 == 9 - j) by (nonlinear_arith)
                requires
                    k == i * 10 + (9 - j),
                    0 <= j < 10,
            ;
            order.push(i * 10 + j);
        }
        i += 1;
    }
    assert(order@ =~= reversed_batches(len as nat));
    assert forall|k: int| 0 <= k < order@.len() implies #[trigger] order@[k] < len by {
        assert(k / 10 < batches && 0 <= k % 10 < 10) by (nonlinear_arith)
            requires
                0 <= k < batches * 10,
        ;
    }
    Some(order)
}

/// The rate at which the message of a sequence number is sent: the rate
/// grows by a step with every so many messages.
pub open spec fn rate_at(messages_per_second: u32, seq: u32, step: u32, every: u32) -> int {
    if seq > 0 && seq % every == 0 {
        messages_per_second + step
    } else {
        messages_per_second as int
    }
}

/// The rate at which the next message is sent.
pub fn next_rate(messages_per_second: u32, seq: u32, step: u32, every: u32) -> (r: u32)
    requires
        every > 0,
        messages_per_second + step <= u32::MAX,
    ensures
        r == rate_at(messages_per_second, seq, step, every),
{
    if seq > 0 && seq % every == 0 {
        messages_per_second + step
    } else {
        messages_per_second
    }
}

/// Whether a producer goes over to stopping: it was interrupted, or it has
/// sent as many messages as it was to send. A producer that is stopping
/// stays so.
pub fn is_stopping(stopping: bool, interrupted: bool, n: Option<u32>, seq: u32) -> (r: bool)
    ensures
        r == (stopping || interrupted || (n is Some && n->0 <= seq)),
{
    if stopping || interrupted {
        true
    } else {
        match n {
            Some(max_seq) => max_seq <= seq,
            None => false,
        }
    }
}

} // verus!
