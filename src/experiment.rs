//! Data gathered while a search runs, by generation, for later inspection.

use vstd::prelude::*;
use std::collections::HashMap;

verus! {

/// Observations of type `O`, grouped by the generation in which they were made,
/// with a population state of type `P` kept by generation and the latest
/// heuristic state of type `H`.
pub struct ExperimentData<O, P, H> {
    /// The current generation.
    pub generation: usize,
    /// What was observed of individuals as they were added.
    pub on_add: HashMap<usize, Vec<O>>,
    /// What was observed of individuals as they were selected.
    pub on_select: HashMap<usize, Vec<O>>,
    /// What was observed of the population at each generation.
    pub on_generation: HashMap<usize, Vec<O>>,
    /// The population state at each generation.
    pub population_state: HashMap<usize, P>,
    /// The latest heuristic state.
    pub heuristic_state: H,
}

impl<O, P, H> ExperimentData<O, P, H> {
    /// Creates empty data at generation zero with the given heuristic state.
    pub fn new(heuristic_state: H) -> (r: Self)
        ensures
            r.generation == 0,
            r.on_add@ == Map::<usize, Vec<O>>::empty(),
            r.on_select@ == Map::<usize, Vec<O>>::empty(),
            r.on_generation@ == Map::<usize, Vec<O>>::empty(),
            r.population_state@ == Map::<usize, P>::empty(),
            r.heuristic_state == heuristic_state,
    {
        ExperimentData {
            generation: 0,
            on_add: HashMap::new(),
            on_select: HashMap::new(),
            on_generation: HashMap::new(),
            population_state: HashMap::new(),
            heuristic_state,
        }
    }

    /// Clears the observations and goes back to generation zero; the
    /// population and heuristic states are kept.
    pub fn clear(&mut self)
        ensures
            final(self).generation == 0,
            final(self).on_add@ == Map::<usize, Vec<O>>::empty(),
            final(self).on_select@ == Map::<usize, Vec<O>>::empty(),
            final(self).on_generation@ == Map::<usize, Vec<O>>::empty(),
            final(self).population_state@ == old(self).population_state@,
            final(self).heuristic_state == old(self).heuristic_state,
    {
        self.generation = 0;
        self.on_add.clear();
        self.on_select.clear();
        self.on_generation.clear();
    }
}

} // verus!
