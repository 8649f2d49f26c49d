use vstd::prelude::*;

verus! {

/// Hit points of a unit or building, capped by a maximum.
pub struct Health {
    health: i32,
    max_health: i32,
}

impl Health {
    /// Current hit points.
    pub closed spec fn current(self) -> int {
        self.health as int
    }

    /// The cap on hit points.
    pub closed spec fn maximum(self) -> int {
        self.max_health as int
    }

    pub fn new(max_health: i32) -> (r: Health)
        ensures
            r.current() == max_health,
            r.maximum() == max_health,
    {
        Health { health: max_health, max_health }
    }

    pub fn new_with_health(health: i32, max_health: i32) -> (r: Health)
        ensures
            r.current() == health,
            r.maximum() == max_health,
    {
        Health { health, max_health }
    }

    /// Heals by `amount`, never above the maximum.
    pub fn increment(&mut self, amount: i32)
        requires
            i32::MIN <= old(self).current() + amount <= i32::MAX,
        ensures
            final(self).maximum() == old(self).maximum(),
            final(self).current() == if old(self).current() + amount < old(self).maximum() {
                old(self).current() + amount
            } else {
                old(self).maximum()
            },
    {
        let sum = self.health + amount;
        self.health = if sum < self.max_health { sum } else { self.max_health };
    }

    pub fn is_alive(&self) -> (r: bool)
        ensures
            r == (self.current() > 0),
    {
        self.health > 0
    }

    pub fn take_damage(&mut self, damage: i32)
        requires
            i32::MIN <= old(self).current() - damage <= i32::MAX,
        ensures
            final(self).maximum() == old(self).maximum(),
            final(self).current() == old(self).current() - damage,
    {
        self.health = self.health - damage;
    }
}

} // verus!
