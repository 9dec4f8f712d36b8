//! The priority inbox of a component: the updates that wait to be processed,
//! handed out by kind and by timestamp.

use crate::event::{
    Deltas, DeltasView, Event, EventView, Retractions, RetractionsView, Update, UpdateView,
};
use vstd::prelude::*;

verus! {

/// The position of the first of the least timestamps.
pub open spec fn earliest(ts: Seq<u64>) -> int
    decreases ts.len(),
{
    if ts.len() <= 1 {
        0
    } else {
        let k = earliest(ts.drop_last());
        if ts.last() < ts[k] {
            ts.len() - 1
        } else {
            k
        }
    }
}

/// The earliest position holds a least timestamp, and every position before
/// it holds a later one.
pub proof fn lemma_earliest(ts: Seq<u64>)
    requires
        ts.len() > 0,
    ensures
        0 <= earliest(ts) < ts.len(),
        forall|j: int| 0 <= j < ts.len() ==> ts[earliest(ts)] <= #[trigger] ts[j],
        forall|j: int| 0 <= j < earliest(ts) ==> ts[earliest(ts)] < #[trigger] ts[j],
    decreases ts.len(),
{
    if ts.len() > 1 {
        let head = ts.drop_last();
        lemma_earliest(head);
        let k = earliest(head);
        assert forall|j: int| 0 <= j < ts.len() implies ts[earliest(ts)] <= #[trigger] ts[j] by {
            if j < head.len() {
                assert(head[j] == ts[j]);
            }
        }
        assert forall|j: int| 0 <= j < earliest(ts) implies ts[earliest(ts)] < #[trigger] ts[j] by {
            assert(head[j] == ts[j]);
        }
    }
}

pub open spec fn event_times(s: Seq<EventView>) -> Seq<u64> {
    Seq::new(s.len(), |i: int| s[i].timestamp)
}

pub open spec fn deltas_times(s: Seq<DeltasView>) -> Seq<u64> {
    Seq::new(s.len(), |i: int| s[i].origin_timestamp)
}

pub open spec fn retraction_times(s: Seq<RetractionsView>) -> Seq<u64> {
    Seq::new(s.len(), |i: int| s[i].timestamp)
}

/// The updates that wait, by kind, in the order in which they came, and
/// whether a stop has come.
pub struct Queue {
    pub open_events: Vec<Event>,
    pub open_deltas: Vec<Deltas>,
    pub open_retractions: Vec<Retractions>,
    pub stop: bool,
}

/// What a queue holds.
pub struct QueueView {
    pub open_events: Seq<EventView>,
    pub open_deltas: Seq<DeltasView>,
    pub open_retractions: Seq<RetractionsView>,
    pub stop: bool,
}

impl DeepView for Queue {
    type V = QueueView;

    open spec fn deep_view(&self) -> QueueView {
        QueueView {
            open_events: self.open_events.deep_view(),
            open_deltas: self.open_deltas.deep_view(),
            open_retractions: self.open_retractions.deep_view(),
            stop: self.stop,
        }
    }
}

impl View for Queue {
    type V = QueueView;

    open spec fn view(&self) -> QueueView {
        self.deep_view()
    }
}

impl QueueView {
    /// The queue after an update has come in.
    pub open spec fn with(self, update: UpdateView) -> QueueView {
        match update {
            UpdateView::Stop => QueueView { stop: true, ..self },
            UpdateView::Event(e) => QueueView { open_events: self.open_events.push(e), ..self },
            UpdateView::Deltas(ds) => QueueView { open_deltas: self.open_deltas.push(ds), ..self },
            UpdateView::Retractions(rs) => QueueView {
                open_retractions: self.open_retractions.push(rs),
                ..self
            },
        }
    }

    /// The update that is handed out next: a stop once one has come, else
    /// the earliest retraction, else the earliest package of deltas, else the
    /// earliest event; among equals the one that came first.
    pub open spec fn next(self) -> Option<UpdateView> {
        if self.stop {
            Some(UpdateView::Stop)
        } else if self.open_retractions.len() > 0 {
            Some(
                UpdateView::Retractions(
                    self.open_retractions[earliest(retraction_times(self.open_retractions))],
                ),
            )
        } else if self.open_deltas.len() > 0 {
            Some(UpdateView::Deltas(self.open_deltas[earliest(deltas_times(self.open_deltas))]))
        } else if self.open_events.len() > 0 {
            Some(UpdateView::Event(self.open_events[earliest(event_times(self.open_events))]))
        } else {
            None
        }
    }

    /// The queue once the next update has been handed out. A stop stays.
    pub open spec fn rest(self) -> QueueView {
        if self.stop {
            self
        } else if self.open_retractions.len() > 0 {
            QueueView {
                open_retractions: self.open_retractions.remove(
                    earliest(retraction_times(self.open_retractions)),
                ),
                ..self
            }
        } else if self.open_deltas.len() > 0 {
            QueueView {
                open_deltas: self.open_deltas.remove(earliest(deltas_times(self.open_deltas))),
                ..self
            }
        } else if self.open_events.len() > 0 {
            QueueView {
                open_events: self.open_events.remove(earliest(event_times(self.open_events))),
                ..self
            }
        } else {
            self
        }
    }

    /// The number of updates that wait.
    pub open spec fn size(self) -> nat {
        self.open_events.len() + self.open_deltas.len() + self.open_retractions.len()
    }
}

fn earliest_event(v: &Vec<Event>) -> (k: usize)
    requires
        v.len() > 0,
    ensures
        k == earliest(event_times(v.deep_view())),
        k < v.len(),
{
    let ghost ts = event_times(v.deep_view());
    let mut best: usize = 0;
    let mut i: usize = 1;
    assert(ts.take(1).len() == 1);
    while i < v.len()
        invariant
            1 <= i <= v.len(),
            best < i,
            ts == event_times(v.deep_view()),
            best == earliest(ts.take(i as int)),
        decreases v.len() - i,
    {
        proof {
            let cur = ts.take(i + 1);
            assert(cur.drop_last() =~= ts.take(i as int));
            assert(cur.last() == ts[i as int]);
            assert(cur[best as int] == ts[best as int]);
        }
        if v[i].timestamp < v[best].timestamp {
            best = i;
        }
        i = i + 1;
    }
    assert(ts.take(i as int) =~= ts);
    best
}

fn earliest_deltas(v: &Vec<Deltas>) -> (k: usize)
    requires
        v.len() > 0,
    ensures
        k == earliest(deltas_times(v.deep_view())),
        k < v.len(),
{
    let ghost ts = deltas_times(v.deep_view());
    let mut best: usize = 0;
    let mut i: usize = 1;
    assert(ts.take(1).len() == 1);
    while i < v.len()
        invariant
            1 <= i <= v.len(),
            best < i,
            ts == deltas_times(v.deep_view()),
            best == earliest(ts.take(i as int)),
        decreases v.len() - i,
    {
        proof {
            let cur = ts.take(i + 1);
            assert(cur.drop_last() =~= ts.take(i as int));
            assert(cur.last() == ts[i as int]);
            assert(cur[best as int] == ts[best as int]);
        }
        if v[i].origin_timestamp < v[best].origin_timestamp {
            best = i;
        }
        i = i + 1;
    }
    assert(ts.take(i as int) =~= ts);
    best
}

fn earliest_retractions(v: &Vec<Retractions>) -> (k: usize)
    requires
        v.len() > 0,
    ensures
        k == earliest(retraction_times(v.deep_view())),
        k < v.len(),
{
    let ghost ts = retraction_times(v.deep_view());
    let mut best: usize = 0;
    let mut i: usize = 1;
    assert(ts.take(1).len() == 1);
    while i < v.len()
        invariant
            1 <= i <= v.len(),
            best < i,
            ts == retraction_times(v.deep_view()),
            best == earliest(ts.take(i as int)),
        decreases v.len() - i,
    {
        proof {
            let cur = ts.take(i + 1);
            assert(cur.drop_last() =~= ts.take(i as int));
            assert(cur.last() == ts[i as int]);
            assert(cur[best as int] == ts[best as int]);
        }
        if v[i].timestamp < v[best].timestamp {
            best = i;
        }
        i = i + 1;
    }
    assert(ts.take(i as int) =~= ts);
    best
}

impl Queue {
    pub fn new() -> (r: Queue)
        ensures
            r@ == (QueueView {
                open_events: Seq::empty(),
                open_deltas: Seq::empty(),
                open_retractions: Seq::empty(),
                stop: false,
            }),
    {
        let r = Queue {
            open_events: Vec::new(),
            open_deltas: Vec::new(),
            open_retractions: Vec::new(),
            stop: false,
        };
        assert(r.open_events.deep_view() =~= Seq::<EventView>::empty());
        assert(r.open_deltas.deep_view() =~= Seq::<DeltasView>::empty());
        assert(r.open_retractions.deep_view() =~= Seq::<RetractionsView>::empty());
        r
    }

    /// Takes an update in. A stop is remembered for good.
    pub fn insert_update(&mut self, update: Update)
        ensures
            final(self)@ == old(self)@.with(update@),
    {
        match update {
            Update::Stop => {
                self.stop = true;
            },
            Update::Event(e) => {
                let ghost prev = self.open_events.deep_view();
                let ghost ev = e@;
                self.open_events.push(e);
                assert(self.open_events.deep_view() =~= prev.push(ev));
            },
            Update::Deltas(ds) => {
                let ghost prev = self.open_deltas.deep_view();
                let ghost dv = ds@;
                self.open_deltas.push(ds);
                assert(self.open_deltas.deep_view() =~= prev.push(dv));
            },
            Update::Retractions(rs) => {
                let ghost prev = self.open_retractions.deep_view();
                let ghost rv = rs@;
                self.open_retractions.push(rs);
                assert(self.open_retractions.deep_view() =~= prev.push(rv));
            },
        }
    }

    /// The number of updates that wait; a stop does not count.
    pub fn get_queue_size(&self) -> (r: usize)
        requires
            self@.size() <= usize::MAX,
        ensures
            r == self@.size(),
    {
        self.open_events.len() + self.open_deltas.len() + self.open_retractions.len()
    }

    /// Hands out the update that is to be processed next, if there is one.
    pub fn pop_earliest_update(&mut self) -> (r: Option<Update>)
        ensures
            r.deep_view() == old(self)@.next(),
            final(self)@ == old(self)@.rest(),
    {
        if self.stop {
            Some(Update::Stop)
        } else if self.open_retractions.len() > 0 {
            let k = earliest_retractions(&self.open_retractions);
            let ghost prev = self.open_retractions.deep_view();
            let retractions = self.open_retractions.remove(k);
            assert(self.open_retractions.deep_view() =~= prev.remove(k as int));
            Some(Update::Retractions(retractions))
        } else if self.open_deltas.len() > 0 {
            let k = earliest_deltas(&self.open_deltas);
            let ghost prev = self.open_deltas.deep_view();
            let deltas = self.open_deltas.remove(k);
            assert(self.open_deltas.deep_view() =~= prev.remove(k as int));
            Some(Update::Deltas(deltas))
        } else if self.open_events.len() > 0 {
            let k = earliest_event(&self.open_events);
            let ghost prev = self.open_events.deep_view();
            let event = self.open_events.remove(k);
            assert(self.open_events.deep_view() =~= prev.remove(k as int));
            Some(Update::Event(event))
        } else {
            None
        }
    }
}

} // verus!
