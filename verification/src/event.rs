//! The updates that a component receives: events, packages of deltas and
//! retractions of such packages.

use crate::graph::{Delta, DeltaView};
use crate::order::Value;
use crate::ordered::OrderedSet;
use vstd::prelude::*;

verus! {

/// An observation at a node.
#[derive(Debug, PartialEq, Eq)]
pub struct Event {
    pub event_id: String,
    pub timestamp: u64,
    pub node_id: String,
    pub payload: Vec<u8>,
}

/// What an event holds.
pub struct EventView {
    pub event_id: Seq<char>,
    pub timestamp: u64,
    pub node_id: Seq<char>,
    pub payload: Seq<u8>,
}

impl DeepView for Event {
    type V = EventView;

    open spec fn deep_view(&self) -> EventView {
        EventView {
            event_id: self.event_id@,
            timestamp: self.timestamp,
            node_id: self.node_id@,
            payload: self.payload.deep_view(),
        }
    }
}

impl View for Event {
    type V = EventView;

    open spec fn view(&self) -> EventView {
        self.deep_view()
    }
}

impl Value for Event {
    fn dup(&self) -> (r: Self) {
        Event {
            event_id: self.event_id.dup(),
            timestamp: self.timestamp,
            node_id: self.node_id.dup(),
            payload: self.payload.dup(),
        }
    }
}

impl Clone for Event {
    fn clone(&self) -> (r: Self)
        ensures
            r@ == self@,
    {
        self.dup()
    }
}

/// A package of deltas, with the event that it stems from.
#[derive(Debug, PartialEq, Eq)]
pub struct Deltas {
    pub deltas_id: String,
    pub origin_id: String,
    pub origin_timestamp: u64,
    pub deltas: OrderedSet<Delta>,
}

/// What a package of deltas holds.
pub struct DeltasView {
    pub deltas_id: Seq<char>,
    pub origin_id: Seq<char>,
    pub origin_timestamp: u64,
    pub deltas: Seq<DeltaView>,
}

impl DeepView for Deltas {
    type V = DeltasView;

    open spec fn deep_view(&self) -> DeltasView {
        DeltasView {
            deltas_id: self.deltas_id@,
            origin_id: self.origin_id@,
            origin_timestamp: self.origin_timestamp,
            deltas: self.deltas@,
        }
    }
}

impl View for Deltas {
    type V = DeltasView;

    open spec fn view(&self) -> DeltasView {
        self.deep_view()
    }
}

impl Value for Deltas {
    fn dup(&self) -> (r: Self) {
        Deltas {
            deltas_id: self.deltas_id.dup(),
            origin_id: self.origin_id.dup(),
            origin_timestamp: self.origin_timestamp,
            deltas: self.deltas.dup(),
        }
    }
}

impl Clone for Deltas {
    fn clone(&self) -> (r: Self)
        ensures
            r@ == self@,
    {
        self.dup()
    }
}

/// The revocation of packages of deltas.
#[derive(Debug, PartialEq, Eq)]
pub struct Retractions {
    pub retraction_id: String,
    pub timestamp: u64,
    pub deltas_ids: Vec<String>,
}

/// What a retraction holds.
pub struct RetractionsView {
    pub retraction_id: Seq<char>,
    pub timestamp: u64,
    pub deltas_ids: Seq<Seq<char>>,
}

impl DeepView for Retractions {
    type V = RetractionsView;

    open spec fn deep_view(&self) -> RetractionsView {
        RetractionsView {
            retraction_id: self.retraction_id@,
            timestamp: self.timestamp,
            deltas_ids: self.deltas_ids.deep_view(),
        }
    }
}

impl View for Retractions {
    type V = RetractionsView;

    open spec fn view(&self) -> RetractionsView {
        self.deep_view()
    }
}

impl Value for Retractions {
    fn dup(&self) -> (r: Self) {
        Retractions {
            retraction_id: self.retraction_id.dup(),
            timestamp: self.timestamp,
            deltas_ids: self.deltas_ids.dup(),
        }
    }
}

impl Clone for Retractions {
    fn clone(&self) -> (r: Self)
        ensures
            r@ == self@,
    {
        self.dup()
    }
}

/// An update submitted to a component.
#[derive(Debug, PartialEq, Eq)]
pub enum Update {
    Stop,
    Event(Event),
    Deltas(Deltas),
    Retractions(Retractions),
}

/// What an update holds.
pub enum UpdateView {
    Stop,
    Event(EventView),
    Deltas(DeltasView),
    Retractions(RetractionsView),
}

impl DeepView for Update {
    type V = UpdateView;

    open spec fn deep_view(&self) -> UpdateView {
        match self {
            Update::Stop => UpdateView::Stop,
            Update::Event(e) => UpdateView::Event(e@),
            Update::Deltas(ds) => UpdateView::Deltas(ds@),
            Update::Retractions(rs) => UpdateView::Retractions(rs@),
        }
    }
}

impl View for Update {
    type V = UpdateView;

    open spec fn view(&self) -> UpdateView {
        self.deep_view()
    }
}

impl Value for Update {
    fn dup(&self) -> (r: Self) {
        match self {
            Update::Stop => Update::Stop,
            Update::Event(e) => Update::Event(e.dup()),
            Update::Deltas(ds) => Update::Deltas(ds.dup()),
            Update::Retractions(rs) => Update::Retractions(rs.dup()),
        }
    }
}

impl Clone for Update {
    fn clone(&self) -> (r: Self)
        ensures
            r@ == self@,
    {
        self.dup()
    }
}

impl UpdateView {
    /// The time by which the update is queued. A stop has none.
    pub open spec fn timestamp(self) -> u64 {
        match self {
            UpdateView::Event(e) => e.timestamp,
            UpdateView::Deltas(ds) => ds.origin_timestamp,
            UpdateView::Retractions(rs) => rs.timestamp,
            UpdateView::Stop => 0,
        }
    }

    /// The event that the update is or stems from.
    pub open spec fn event_id(self) -> Seq<char> {
        match self {
            UpdateView::Event(e) => e.event_id,
            UpdateView::Deltas(ds) => ds.origin_id,
            _ => Seq::empty(),
        }
    }
}

impl Update {
    /// The time by which the update is queued. A stop has none.
    pub fn timestamp(&self) -> (r: u64)
        requires
            !(self is Stop),
        ensures
            r == self@.timestamp(),
    {
        match self {
            Update::Event(e) => e.timestamp,
            Update::Deltas(ds) => ds.origin_timestamp,
            Update::Retractions(rt) => rt.timestamp,
            Update::Stop => 0,
        }
    }

    /// The event that the update is or stems from. Only an event and a
    /// package of deltas have one.
    pub fn event_id(&self) -> (r: &str)
        requires
            self is Event || self is Deltas,
        ensures
            r@ == self@.event_id(),
    {
        match self {
            Update::Event(e) => e.event_id.as_str(),
            Update::Deltas(ds) => ds.origin_id.as_str(),
            _ => "",
        }
    }
}

} // verus!
