//! A factory in motion that detects what its barrels are made of and sorts
//! them: platforms with detectors, stamp assemblies, cranes, conveyors and
//! a ramp for each material.

use crate::factory_scenario_builder::ComplexFactoryScenario;
use crate::factory_scenario_common_updates::{
    append_nodes, attempt_with, is_fresh_floor, seeded_generator, Floor, FloorView, MessageCreator,
    Told, SEED,
};
use crate::order::Value;
use vstd::prelude::*;

verus! {

/// The simulation of a factory that sorts its barrels.
pub struct ComplexFactoryScenarioSimulator {
    floor: Floor,
    generator: rand_chacha::ChaCha8Rng,
}

impl ComplexFactoryScenarioSimulator {
    /// The simulation of a factory in which nothing has happened yet.
    /// Something may happen at its platforms, stamp assemblies, cranes,
    /// conveyor events, detectors and ramps; barrels may also be on its
    /// conveyors.
    pub fn new(factory_scenario: ComplexFactoryScenario, init_timestamp: u64, use_central: bool) -> (r:
        ComplexFactoryScenarioSimulator)
        ensures
            is_fresh_floor(
                r.floor_view(),
                factory_scenario@.platforms + factory_scenario@.stamp_assemblies
                    + factory_scenario@.crane_pickdrops + factory_scenario@.conveyor_events
                    + factory_scenario@.detectors + factory_scenario@.metal_ramps
                    + factory_scenario@.plastic_ramps,
                factory_scenario@.conveyors,
                factory_scenario@.conveyor_queries + factory_scenario@.stamp_queries
                    + factory_scenario@.detector_queries + factory_scenario@.pickdrop_queries,
                init_timestamp,
                use_central,
                true,
            ),
    {
        let mut at_candidates = factory_scenario.platforms.dup();
        append_nodes(&mut at_candidates, &factory_scenario.stamp_assemblies);
        append_nodes(&mut at_candidates, &factory_scenario.crane_pickdrops);
        append_nodes(&mut at_candidates, &factory_scenario.conveyor_events);
        append_nodes(&mut at_candidates, &factory_scenario.detectors);
        append_nodes(&mut at_candidates, &factory_scenario.metal_ramps);
        append_nodes(&mut at_candidates, &factory_scenario.plastic_ramps);
        let all_queries = factory_scenario.all_queries();
        let floor = Floor::new(
            at_candidates,
            &factory_scenario.conveyors,
            &all_queries,
            init_timestamp,
            use_central,
            true,
        );
        ComplexFactoryScenarioSimulator { floor, generator: seeded_generator(SEED) }
    }
}

impl ComplexFactoryScenarioSimulator {
    /// The floor of the factory.
    pub fn floor(&self) -> (r: &Floor)
        ensures
            r@ == self.floor_view(),
    {
        &self.floor
    }
}

impl MessageCreator for ComplexFactoryScenarioSimulator {
    closed spec fn floor_view(&self) -> FloorView {
        self.floor@
    }

    fn create_one_new_message(&mut self, stopping: bool, attempts: u64) -> (told: Option<Told>) {
        attempt_with(&mut self.floor, &mut self.generator, stopping, attempts)
    }

    fn is_finished(&self) -> (r: bool) {
        self.floor.is_finished()
    }

    fn get_current_timestamp(&self) -> (r: u64) {
        self.floor.current_timestamp
    }
}

} // verus!
