use vstd::prelude::*;

verus! {

/// A stock of the economy's one resource.
pub struct Resources {
    pub gold: i32,
}

impl Resources {
    pub fn new_empty() -> (r: Resources)
        ensures
            r.gold == 0,
    {
        Resources { gold: 0 }
    }

    pub fn new(gold: i32) -> (r: Resources)
        ensures
            r.gold == gold,
    {
        Resources { gold }
    }

    /// Whether this stock covers the cost `other`.
    pub fn can_afford(&self, other: &Resources) -> (r: bool)
        ensures
            r == (self.gold >= other.gold),
    {
        self.gold >= other.gold
    }

    pub fn decrement(&mut self, cost: &Resources)
        requires
            i32::MIN <= old(self).gold - cost.gold <= i32::MAX,
        ensures
            final(self).gold == old(self).gold - cost.gold,
    {
        self.gold = self.gold - cost.gold;
    }

    pub fn increment(&mut self, amount: &Resources)
        requires
            i32::MIN <= old(self).gold + amount.gold <= i32::MAX,
        ensures
            final(self).gold == old(self).gold + amount.gold,
    {
        self.gold = self.gold + amount.gold;
    }
}

} // verus!
