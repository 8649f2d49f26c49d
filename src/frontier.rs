//! Items of the search frontier and the order in which they leave it.

use crate::vec::Vec2i;
use vstd::prelude::*;

verus! {

/// An upper bound on the scaled distance between two `i32` cells:
/// `100 * sqrt(2 * (2^32)^2)` stays below `2^40`.
pub const MAX_SCALED_DISTANCE: i64 = 1099511627776;

/// Whether `r` is the integer square root of `n`: the largest `r` with `r * r <= n`.
pub open spec fn is_isqrt(n: int, r: int) -> bool {
    0 <= r && r * r <= n && n < (r + 1) * (r + 1)
}

/// The squared Euclidean distance between two cells.
pub open spec fn dist_sq(a: (int, int), b: (int, int)) -> int {
    (a.0 - b.0) * (a.0 - b.0) + (a.1 - b.1) * (a.1 - b.1)
}

/// Whether `d` is one hundred times the Euclidean distance from `a` to `b`,
/// rounded down.
pub open spec fn is_scaled_distance(a: (int, int), b: (int, int), d: int) -> bool {
    is_isqrt(10000 * dist_sq(a, b), d)
}

/// The integer square root of `n`, found by bisection.
pub fn isqrt(n: u128) -> (r: u64)
    requires
        n < 0x1_0000_0000_0000_0000_0000u128,
    ensures
        is_isqrt(n as int, r as int),
{
    let mut lo: u128 = 0;
    let mut hi: u128 = 0x100_0000_0000u128;
    assert(hi * hi == 0x1_0000_0000_0000_0000_0000u128);
    while hi - lo > 1
        invariant
            lo < hi <= 0x100_0000_0000u128,
            lo * lo <= n,
            n < hi * hi,
        decreases hi - lo,
    {
        let mid: u128 = lo + (hi - lo) / 2;
        assert(mid * mid <= 0x100_0000_0000u128 * 0x100_0000_0000u128) by (nonlinear_arith)
            requires
                mid <= 0x100_0000_0000u128,
        ;
        if mid * mid <= n {
            lo = mid;
        } else {
            hi = mid;
        }
    }
    assert(hi == lo + 1);
    lo as u64
}

/// A cell waiting in the search frontier, with the cost of the moves that led
/// to it and its priority: that cost plus the scaled distance to the start
/// cell the search currently heads for.
#[derive(Clone, Copy, Debug)]
pub struct WPathItem {
    position: (i32, i32),
    cost: i64,
    move_cost: i64,
}

/// The scaled distance from `position` to `goal`.
fn scaled_distance(position: (i32, i32), goal: &Vec2i) -> (r: i64)
    ensures
        is_scaled_distance((position.0 as int, position.1 as int), goal.cell(), r as int),
        0 <= r < MAX_SCALED_DISTANCE,
{
    let dx: i128 = position.0 as i128 - goal.x as i128;
    let dy: i128 = position.1 as i128 - goal.y as i128;
    assert(dx * dx <= 0x1_0000_0000i128 * 0x1_0000_0000i128 && 0 <= dx * dx) by (nonlinear_arith)
        requires
            -0x1_0000_0000i128 <= dx <= 0x1_0000_0000i128,
    ;
    assert(dy * dy <= 0x1_0000_0000i128 * 0x1_0000_0000i128 && 0 <= dy * dy) by (nonlinear_arith)
        requires
            -0x1_0000_0000i128 <= dy <= 0x1_0000_0000i128,
    ;
    let n: i128 = 10000 * (dx * dx + dy * dy);
    let r = isqrt(n as u128);
    assert(r < MAX_SCALED_DISTANCE) by (nonlinear_arith)
        requires
            r * r <= n,
            n <= 10000 * 2 * 0x1_0000_0000i128 * 0x1_0000_0000i128,
            0 <= r,
    ;
    r as i64
}

impl WPathItem {
    pub closed spec fn pos(self) -> (int, int) {
        (self.position.0 as int, self.position.1 as int)
    }

    pub closed spec fn priority(self) -> int {
        self.cost as int
    }

    pub closed spec fn moved(self) -> int {
        self.move_cost as int
    }

    /// Whether this item is weighted against `target`.
    pub open spec fn weighted_for(self, target: (int, int)) -> bool {
        is_scaled_distance(self.pos(), target, self.priority() - self.moved())
    }

    pub fn new(position: (i32, i32), move_cost: i64, goal: &Vec2i) -> (r: WPathItem)
        requires
            move_cost <= i64::MAX - MAX_SCALED_DISTANCE,
        ensures
            r.pos() == (position.0 as int, position.1 as int),
            r.moved() == move_cost,
            r.weighted_for(goal.cell()),
    {
        let d = scaled_distance(position, goal);
        WPathItem { position, cost: d + move_cost, move_cost }
    }

    /// Recomputes the priority against a new target cell.
    pub fn reweight(&mut self, goal: &Vec2i)
        requires
            old(self).moved() <= i64::MAX - MAX_SCALED_DISTANCE,
        ensures
            final(self).pos() == old(self).pos(),
            final(self).moved() == old(self).moved(),
            final(self).weighted_for(goal.cell()),
    {
        let d = scaled_distance(self.position, goal);
        self.cost = d + self.move_cost;
    }

    pub fn get_position(&self) -> (r: Vec2i)
        ensures
            r.cell() == self.pos(),
    {
        Vec2i::new(self.position.0, self.position.1)
    }

    pub fn get_cost(&self) -> (r: i64)
        ensures
            r == self.priority(),
    {
        self.cost
    }

    pub fn get_move_cost(&self) -> (r: i64)
        ensures
            r == self.moved(),
    {
        self.move_cost
    }
}

/// Whether `a` leaves the frontier before `b`: lower priority first, then the
/// greater column, then the greater row.
pub open spec fn precedes(a: WPathItem, b: WPathItem) -> bool {
    a.priority() < b.priority() || (a.priority() == b.priority() && (a.pos().0 > b.pos().0 || (
    a.pos().0 == b.pos().0 && a.pos().1 > b.pos().1)))
}


pub(crate) fn precedes_exec(a: &WPathItem, b: &WPathItem) -> (r: bool)
    ensures
        r == precedes(*a, *b),
{
    a.cost < b.cost || (a.cost == b.cost && (a.position.0 > b.position.0 || (a.position.0
        == b.position.0 && a.position.1 > b.position.1)))
}

/// The index of the frontier item that leaves first.
pub(crate) fn best_index(items: &Vec<WPathItem>) -> (r: usize)
    requires
        items.len() > 0,
    ensures
        r < items.len(),
        forall|j: int| 0 <= j < items.len() && j != r ==> !precedes(#[trigger] items@[j], items@[r as int]),
{
    let mut best: usize = 0;
    let mut k: usize = 1;
    while k < items.len()
        invariant
            0 <= best < k <= items.len(),
            forall|j: int| 0 <= j < k && j != best ==> !precedes(#[trigger] items@[j], items@[best as int]),
        decreases items.len() - k,
    {
        if precedes_exec(&items[k], &items[best]) {
            best = k;
        }
        k = k + 1;
    }
    best
}

/// Weighs every frontier item anew against `target`.
pub(crate) fn reweight_all(items: &mut Vec<WPathItem>, target: &Vec2i)
    requires
        forall|j: int|
            0 <= j < old(items).len() ==> (#[trigger] old(items)@[j]).moved() <= i64::MAX
                - MAX_SCALED_DISTANCE,
    ensures
        final(items).len() == old(items).len(),
        forall|j: int|
            0 <= j < final(items).len() ==> {
                &&& (#[trigger] final(items)@[j]).pos() == old(items)@[j].pos()
                &&& final(items)@[j].moved() == old(items)@[j].moved()
                &&& final(items)@[j].weighted_for(target.cell())
            },
{
    let mut k: usize = 0;
    while k < items.len()
        invariant
            0 <= k <= items.len(),
            items.len() == old(items).len(),
            forall|j: int|
                0 <= j < items.len() ==> (#[trigger] items@[j]).pos() == old(items)@[j].pos()
                    && items@[j].moved() == old(items)@[j].moved(),
            forall|j: int| 0 <= j < k ==> (#[trigger] items@[j]).weighted_for(target.cell()),
            forall|j: int|
                0 <= j < old(items).len() ==> (#[trigger] old(items)@[j]).moved() <= i64::MAX
                    - MAX_SCALED_DISTANCE,
        decreases items.len() - k,
    {
        let mut item = items[k];
        item.reweight(target);
        items.set(k, item);
        k = k + 1;
    }
}

} // verus!
