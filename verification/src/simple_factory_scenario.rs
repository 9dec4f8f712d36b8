//! A small factory in motion: platforms, stamp assemblies, cranes and
//! ramps, with barrels that come, are moved and leave at random.

use crate::factory_scenario_builder::SimpleFactoryScenario;
use crate::factory_scenario_common_updates::{
    append_nodes, attempt_with, is_fresh_floor, seeded_generator, Floor, FloorView, MessageCreator,
    Told, SEED,
};
use crate::graph::{Node, NodeView};
use crate::order::Value;
use vstd::prelude::*;

verus! {

/// The simulation of a small factory.
pub struct SimpleFactoryScenarioSimulator {
    floor: Floor,
    generator: rand_chacha::ChaCha8Rng,
}

impl SimpleFactoryScenarioSimulator {
    /// The simulation of a factory in which nothing has happened yet.
    /// Something may happen at its platforms, stamp assemblies, cranes and
    /// ramps.
    pub fn new(factory_scenario: SimpleFactoryScenario, init_timestamp: u64, use_central: bool) -> (r:
        SimpleFactoryScenarioSimulator)
        ensures
            is_fresh_floor(
                r.floor_view(),
                factory_scenario@.platforms + factory_scenario@.stamp_assemblies
                    + factory_scenario@.crane_pickdrops + factory_scenario@.ramps,
                Seq::empty(),
                factory_scenario@.queries,
                init_timestamp,
                use_central,
                false,
            ),
    {
        let mut at_candidates = factory_scenario.platforms.dup();
        append_nodes(&mut at_candidates, &factory_scenario.stamp_assemblies);
        append_nodes(&mut at_candidates, &factory_scenario.crane_pickdrops);
        append_nodes(&mut at_candidates, &factory_scenario.ramps);
        let none: Vec<Node> = Vec::new();
        assert(none.deep_view() =~= Seq::<NodeView>::empty());
        let floor = Floor::new(
            at_candidates,
            &none,
            &factory_scenario.queries,
            init_timestamp,
            use_central,
            false,
        );
        SimpleFactoryScenarioSimulator { floor, generator: seeded_generator(SEED) }
    }
}

impl SimpleFactoryScenarioSimulator {
    /// The floor of the factory.
    pub fn floor(&self) -> (r: &Floor)
        ensures
            r@ == self.floor_view(),
    {
        &self.floor
    }
}

impl MessageCreator for SimpleFactoryScenarioSimulator {
    closed spec fn floor_view(&self) -> FloorView {
        self.floor@
    }

    fn create_one_new_message(&mut self, stopping: bool, attempts: u64) -> (told: Option<Told>) {
        attempt_with(&mut self.floor, &mut self.generator, stopping, attempts)
    }

    fn is_finished(&self) -> (r: bool) {
        self.floor.is_finished()
    }

    fn get_current_timestamp(&self) -> (r: u64) {
        self.floor.current_timestamp
    }
}

} // verus!
