//! A model-based event-inference engine: the per-component consistency loop
//! over a bitemporal edge store, with its query matcher, reprocess-interval
//! algebra, router and priority inbox; and a factory to try it on, with its
//! queries, its applications and a simulation of what happens in it.

pub mod order;
pub mod ordered;
pub mod text;
pub mod graph;
pub mod intervals;
pub mod event;
pub mod inbox;
pub mod query;
pub mod store;
pub mod codec;
pub mod router;
pub mod wire;
pub mod component;
pub mod central;
pub mod assignment;
pub mod producer;
pub mod applications;
pub mod factory_scenario_builder;
pub mod factory_scenario_common_updates;
pub mod simple_factory_scenario;
pub mod complex_factory_scenario;
