//! The shape shared by environments: reset, step with one action per
//! entity, observe, and ask whether the episode is over.

use vstd::prelude::*;
use std::collections::HashMap;

use crate::grid_world::world::StepResult;

verus! {

pub trait Environment {
    type Action;
    type Observation;

    /// The state can be rebuilt from its own description.
    spec fn can_reset(&self) -> bool;

    /// The state can take a tick with these actions.
    spec fn can_step(&self, actions: Map<u32, Self::Action>) -> bool;

    /// The state can be observed.
    spec fn can_observe(&self) -> bool;

    fn reset(&mut self)
        requires
            old(self).can_reset(),
    ;

    fn step(&mut self, actions: HashMap<u32, Self::Action>) -> StepResult
        requires
            old(self).can_step(actions@),
    ;

    fn observation(&self) -> Self::Observation
        requires
            self.can_observe(),
    ;

    fn is_done(&self) -> bool;
}

} // verus!
