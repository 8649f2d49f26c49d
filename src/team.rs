use crate::resources::Resources;
use vstd::prelude::*;

verus! {

/// The amount of gold that each team starts with.
pub const STARTING_GOLD: i32 = 1000;

/// A side of the simulation and its stock of resources.
pub struct Team {
    resources: Resources,
    team_id: u8,
}

impl Team {
    /// The team's gold.
    pub closed spec fn gold(self) -> int {
        self.resources.gold as int
    }

    /// The team's identifier.
    pub closed spec fn id(self) -> u8 {
        self.team_id
    }

    pub fn new(team_id: u8) -> (r: Team)
        ensures
            r.id() == team_id,
            r.gold() == STARTING_GOLD,
    {
        Team { resources: Resources::new(STARTING_GOLD), team_id }
    }

    pub fn get_id(&self) -> (r: u8)
        ensures
            r == self.id(),
    {
        self.team_id
    }

    pub fn get_resources(&self) -> (r: &Resources)
        ensures
            r.gold == self.gold(),
    {
        &self.resources
    }

    pub fn increment_resources(&mut self, amount: &Resources)
        requires
            i32::MIN <= old(self).gold() + amount.gold <= i32::MAX,
        ensures
            final(self).id() == old(self).id(),
            final(self).gold() == old(self).gold() + amount.gold,
    {
        self.resources.increment(amount);
    }

    pub fn decrement_resources(&mut self, amount: &Resources)
        requires
            i32::MIN <= old(self).gold() - amount.gold <= i32::MAX,
        ensures
            final(self).id() == old(self).id(),
            final(self).gold() == old(self).gold() - amount.gold,
    {
        self.resources.decrement(amount);
    }
}

} // verus!
