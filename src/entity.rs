use vstd::prelude::*;

verus! {

/// The kinds of units that a building can spawn.
#[derive(Clone, Copy, Debug, PartialEq, Eq, Structural)]
pub enum EntityType {
    Melee,
    Ranged,
    Worker,
}

} // verus!
