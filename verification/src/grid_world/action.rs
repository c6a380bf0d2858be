//! The moves an entity can make.

use vstd::prelude::*;

use crate::chance::random_below;

verus! {

/// A move of one cell.
#[derive(Debug, Clone, Copy, PartialEq, Eq, Hash, Structural)]
pub enum Action {
    Up,
    Down,
    Left,
    Right,
}

/// The action numbered `n` in the order up, down, left, right (3 or more: right).
pub open spec fn action_of_index(n: usize) -> Action {
    if n == 0 {
        Action::Up
    } else if n == 1 {
        Action::Down
    } else if n == 2 {
        Action::Left
    } else {
        Action::Right
    }
}

impl Action {
    /// The action numbered `n`: 0 up, 1 down, 2 left, anything else right.
    pub fn from_index(n: usize) -> (a: Action)
        ensures
            a == action_of_index(n),
    {
        match n {
            0 => Action::Up,
            1 => Action::Down,
            2 => Action::Left,
            _ => Action::Right,
        }
    }
}

/// An action drawn uniformly at random.
pub fn random_action() -> (a: Action)
    ensures
        exists|n: usize| n < 4 && a == action_of_index(n),
{
    let n = random_below(4);
    Action::from_index(n)
}

} // verus!
