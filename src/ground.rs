use crate::vec::Vec2i;
use vstd::prelude::*;

verus! {

/// Width of the generated map, in tiles.
pub const GROUND_WIDTH: i32 = 80;

/// Height of the generated map, in tiles.
pub const GROUND_HEIGHT: i32 = 60;

/// Chance, in percent, that a generated tile is a wall.
pub const WALL_PERCENT: u32 = 10;

/// Chance, in percent, that a generated tile that is not a wall holds gold.
pub const GOLD_PERCENT: u32 = 2;

/// How far `nearest_unblocked` looks: squares of half-width up to one less.
pub const NEAREST_SEARCH_LIMIT: i64 = 100;

#[derive(Clone, Copy, Debug, PartialEq, Eq, Structural)]
pub enum GroundType {
    Empty,
    Wall,
    Gold,
}

/// A rectangular tile map, stored row by row.
pub struct Ground {
    tiles: Vec<GroundType>,
    width: i32,
    height: i32,
}

/// Relies on rand::Rng::gen_range on rand::thread_rng(): a value drawn from `0..100`.
#[verifier::external_body]
fn roll_percent() -> (r: u32)
    ensures
        r < 100,
{
    rand::Rng::gen_range(&mut rand::thread_rng(), 0..100u32)
}

/// The position of cell `(x, y)` in a row-by-row layout of width `w`.
pub open spec fn tile_index(w: int, x: int, y: int) -> int {
    y * w + x
}

pub proof fn lemma_tile_index_bounds(w: int, h: int, x: int, y: int)
    requires
        0 <= x < w,
        0 <= y < h,
    ensures
        0 <= tile_index(w, x, y) < w * h,
{
    assert(0 <= y * w + x < w * h) by (nonlinear_arith)
        requires
            0 <= x < w,
            0 <= y < h,
    ;
}

/// Distinct cells of a map have distinct positions in its layout.
pub proof fn lemma_tile_index_injective(w: int, h: int, a: int, b: int, c: int, d: int)
    requires
        0 <= a < w,
        0 <= b < h,
        0 <= c < w,
        0 <= d < h,
        !(a == c && b == d),
    ensures
        0 <= tile_index(w, a, b) < w * h,
        tile_index(w, a, b) != tile_index(w, c, d),
{
    lemma_tile_index_bounds(w, h, a, b);
    if b < d {
        assert(b * w + w <= d * w) by (nonlinear_arith)
            requires
                b < d,
                0 <= w,
        ;
    } else if d < b {
        assert(d * w + w <= b * w) by (nonlinear_arith)
            requires
                d < b,
                0 <= w,
        ;
    }
}

/// The smallest half-width of a square, centred on `s` as `nearest_unblocked`
/// draws them, that holds `(a, b)`: the square of half-width `k` spans
/// `s.x - k .. s.x + k` by `s.y - k .. s.y + k`, upper ends excluded.
pub open spec fn ring_of(s: (int, int), a: int, b: int) -> int {
    let rx = if s.0 - a > a - s.0 + 1 { s.0 - a } else { a - s.0 + 1 };
    let ry = if s.1 - b > b - s.1 + 1 { s.1 - b } else { b - s.1 + 1 };
    if rx > ry { rx } else { ry }
}

/// Whether `(a, b)` comes strictly before `(c, d)` in the order in which
/// `nearest_unblocked` visits cells around `s`: by ring, then by column, then by row.
pub open spec fn scanned_before(s: (int, int), a: int, b: int, c: int, d: int) -> bool {
    let ra = ring_of(s, a, b);
    let rc = ring_of(s, c, d);
    ra < rc || (ra == rc && (a < c || (a == c && b < d)))
}

impl Ground {
    /// The layout is consistent: one tile per cell, indexable in `i32`.
    pub closed spec fn wf(self) -> bool {
        &&& 0 <= self.width
        &&& 0 <= self.height
        &&& self.width * self.height <= i32::MAX
        &&& self.tiles.len() == self.width * self.height
    }

    pub closed spec fn w(self) -> int {
        self.width as int
    }

    pub closed spec fn h(self) -> int {
        self.height as int
    }

    pub open spec fn in_bounds(self, x: int, y: int) -> bool {
        0 <= x < self.w() && 0 <= y < self.h()
    }

    /// The tile at `(x, y)`; every cell off the map is a wall.
    pub closed spec fn tile(self, x: int, y: int) -> GroundType {
        if self.in_bounds(x, y) {
            self.tiles@[tile_index(self.w(), x, y)]
        } else {
            GroundType::Wall
        }
    }

    /// Whether a unit may stand on `(x, y)`: the only traversable tile is an empty one.
    pub open spec fn is_open(self, x: int, y: int) -> bool {
        self.tile(x, y) == GroundType::Empty
    }

    /// The size of a consistent map.
    pub proof fn lemma_dims(self)
        requires
            self.wf(),
        ensures
            0 <= self.w() <= i32::MAX,
            0 <= self.h() <= i32::MAX,
            self.w() * self.h() <= i32::MAX,
    {
    }

    /// A map of the given size on which every tile is empty.
    pub fn new_open(width: i32, height: i32) -> (r: Ground)
        requires
            0 <= width,
            0 <= height,
            width * height <= i32::MAX,
        ensures
            r.wf(),
            r.w() == width,
            r.h() == height,
            forall|x: int, y: int| r.in_bounds(x, y) ==> r.tile(x, y) == GroundType::Empty,
    {
        let n: i32 = width * height;
        let mut tiles: Vec<GroundType> = Vec::new();
        let mut i: i32 = 0;
        while i < n
            invariant
                0 <= i <= n,
                tiles.len() == i,
                forall|j: int| 0 <= j < i ==> tiles@[j] == GroundType::Empty,
            decreases n - i,
        {
            tiles.push(GroundType::Empty);
            i = i + 1;
        }
        let r = Ground { tiles, width, height };
        assert forall|x: int, y: int| r.in_bounds(x, y) implies r.tile(x, y) == GroundType::Empty by {
            lemma_tile_index_bounds(r.w(), r.h(), x, y);
        }
        r
    }

    /// A randomly generated map of `GROUND_WIDTH` by `GROUND_HEIGHT` tiles whose
    /// border is wall.
    pub fn new() -> (r: Ground)
        ensures
            r.wf(),
            r.w() == GROUND_WIDTH,
            r.h() == GROUND_HEIGHT,
            forall|x: int| 0 <= x < GROUND_WIDTH ==> #[trigger] r.tile(x, 0) == GroundType::Wall,
            forall|x: int| 0 <= x < GROUND_WIDTH ==> #[trigger] r.tile(x, GROUND_HEIGHT - 1) == GroundType::Wall,
            forall|y: int| 0 <= y < GROUND_HEIGHT ==> #[trigger] r.tile(0, y) == GroundType::Wall,
            forall|y: int| 0 <= y < GROUND_HEIGHT ==> #[trigger] r.tile(GROUND_WIDTH - 1, y) == GroundType::Wall,
    {
        let width: i32 = GROUND_WIDTH;
        let height: i32 = GROUND_HEIGHT;
        let n: i32 = width * height;
        let mut tiles: Vec<GroundType> = Vec::new();
        let mut i: i32 = 0;
        while i < n
            invariant
                0 <= i <= n,
                n == width * height,
                tiles.len() == i,
            decreases n - i,
        {
            if roll_percent() < WALL_PERCENT {
                tiles.push(GroundType::Wall);
            } else if roll_percent() < GOLD_PERCENT {
                tiles.push(GroundType::Gold);
            } else {
                tiles.push(GroundType::Empty);
            }
            i = i + 1;
        }
        let mut ground = Ground { tiles, width, height };
        let mut x: i32 = 0;
        while x < width
            invariant
                0 <= x <= width,
                ground.wf(),
                ground.w() == width,
                ground.h() == height,
                forall|a: int| 0 <= a < x ==> #[trigger] ground.tile(a, 0) == GroundType::Wall,
                forall|a: int| 0 <= a < x ==> #[trigger] ground.tile(a, height - 1) == GroundType::Wall,
            decreases width - x,
        {
            ground.set_at(x, 0, GroundType::Wall);
            ground.set_at(x, height - 1, GroundType::Wall);
            x = x + 1;
        }
        let mut y: i32 = 0;
        while y < height
            invariant
                0 <= y <= height,
                ground.wf(),
                ground.w() == width,
                ground.h() == height,
                forall|a: int| 0 <= a < width ==> #[trigger] ground.tile(a, 0) == GroundType::Wall,
                forall|a: int| 0 <= a < width ==> #[trigger] ground.tile(a, height - 1) == GroundType::Wall,
                forall|b: int| 0 <= b < y ==> #[trigger] ground.tile(0, b) == GroundType::Wall,
                forall|b: int| 0 <= b < y ==> #[trigger] ground.tile(width - 1, b) == GroundType::Wall,
            decreases height - y,
        {
            ground.set_at(0, y, GroundType::Wall);
            ground.set_at(width - 1, y, GroundType::Wall);
            y = y + 1;
        }
        ground
    }

    pub fn get_width(&self) -> (r: i32)
        ensures
            r == self.w(),
    {
        self.width
    }

    pub fn get_height(&self) -> (r: i32)
        ensures
            r == self.h(),
    {
        self.height
    }

    /// Replaces the tile at `(x, y)`; a cell off the map is left as it is.
    pub fn set_at(&mut self, x: i32, y: i32, ground_type: GroundType)
        requires
            old(self).wf(),
        ensures
            final(self).wf(),
            final(self).w() == old(self).w(),
            final(self).h() == old(self).h(),
            forall|a: int, b: int|
                #![trigger final(self).tile(a, b)]
                final(self).tile(a, b) == if a == x && b == y && old(self).in_bounds(a, b) {
                    ground_type
                } else {
                    old(self).tile(a, b)
                },
    {
        if x < 0 || x >= self.width || y < 0 || y >= self.height {
            return;
        }
        proof {
            lemma_tile_index_bounds(self.w(), self.h(), x as int, y as int);
        }
        let ghost before = *self;
        let idx: i32 = y * self.width + x;
        self.tiles.set(idx as usize, ground_type);
        proof {
            assert forall|a: int, b: int|
                #![trigger self.tile(a, b)]
                self.tile(a, b) == if a == x && b == y && before.in_bounds(a, b) {
                    ground_type
                } else {
                    before.tile(a, b)
                } by {
                if self.in_bounds(a, b) && !(a == x && b == y) {
                    lemma_tile_index_injective(self.w(), self.h(), a, b, x as int, y as int);
                }
            }
        }
    }

    /// The tile at `(x, y)`, a wall off the map.
    pub fn get_at(&self, x: i32, y: i32) -> (r: GroundType)
        requires
            self.wf(),
        ensures
            r == self.tile(x as int, y as int),
            !self.in_bounds(x as int, y as int) ==> r == GroundType::Wall,
    {
        if x < 0 || x >= self.width || y < 0 || y >= self.height {
            return GroundType::Wall;
        }
        proof {
            lemma_tile_index_bounds(self.w(), self.h(), x as int, y as int);
        }
        self.tiles[(y * self.width + x) as usize]
    }

    /// Whether `(x, y)` cannot be walked on: a wall, gold, or off the map.
    pub fn blocked_at(&self, x: i32, y: i32) -> (r: bool)
        requires
            self.wf(),
        ensures
            r == !self.is_open(x as int, y as int),
            !r ==> self.in_bounds(x as int, y as int),
    {
        match self.get_at(x, y) {
            GroundType::Empty => false,
            GroundType::Wall | GroundType::Gold => true,
        }
    }

    /// `blocked_at` for coordinates that may lie outside `i32`.
    pub(crate) fn blocked_at_wide(&self, x: i64, y: i64) -> (r: bool)
        requires
            self.wf(),
        ensures
            r == !self.is_open(x as int, y as int),
            !r ==> self.in_bounds(x as int, y as int),
    {
        if x < 0 || x >= self.width as i64 || y < 0 || y >= self.height as i64 {
            return true;
        }
        self.blocked_at(x as i32, y as i32)
    }

    /// The first open cell met when scanning squares of growing half-width
    /// around `pos` (each square column by column, each column top to bottom),
    /// up to half-width `NEAREST_SEARCH_LIMIT - 1`; `None` when all of them are blocked.
    pub fn nearest_unblocked(&self, pos: &Vec2i) -> (r: Option<Vec2i>)
        requires
            self.wf(),
        ensures
            match r {
                Some(c) => {
                    &&& self.is_open(c.x as int, c.y as int)
                    &&& ring_of(pos.cell(), c.x as int, c.y as int) < NEAREST_SEARCH_LIMIT
                    &&& forall|a: int, b: int|
                        #![trigger self.is_open(a, b)]
                        ring_of(pos.cell(), a, b) < NEAREST_SEARCH_LIMIT && self.is_open(a, b)
                            ==> !scanned_before(pos.cell(), a, b, c.x as int, c.y as int)
                },
                None => forall|a: int, b: int|
                    #![trigger self.is_open(a, b)]
                    ring_of(pos.cell(), a, b) < NEAREST_SEARCH_LIMIT ==> !self.is_open(a, b),
            },
    {
        let sx: i64 = pos.x as i64;
        let sy: i64 = pos.y as i64;
        let ghost s = pos.cell();
        let mut range: i64 = 1;
        while range < NEAREST_SEARCH_LIMIT
            invariant
                1 <= range <= NEAREST_SEARCH_LIMIT,
                s == (sx as int, sy as int),
                s == pos.cell(),
                i32::MIN <= sx <= i32::MAX,
                i32::MIN <= sy <= i32::MAX,
                self.wf(),
                forall|a: int, b: int|
                    #![trigger self.is_open(a, b)]
                    ring_of(s, a, b) < range ==> !self.is_open(a, b),
            decreases NEAREST_SEARCH_LIMIT - range,
        {
            let mut x: i64 = sx - range;
            while x < sx + range
                invariant
                    1 <= range < NEAREST_SEARCH_LIMIT,
                    sx - range <= x <= sx + range,
                    s == (sx as int, sy as int),
                    s == pos.cell(),
                    i32::MIN <= sx <= i32::MAX,
                    i32::MIN <= sy <= i32::MAX,
                    self.wf(),
                    forall|a: int, b: int|
                        #![trigger self.is_open(a, b)]
                        ring_of(s, a, b) < range ==> !self.is_open(a, b),
                    forall|a: int, b: int|
                        #![trigger self.is_open(a, b)]
                        ring_of(s, a, b) <= range && a < x ==> !self.is_open(a, b),
                decreases sx + range - x,
            {
                let mut y: i64 = sy - range;
                while y < sy + range
                    invariant
                        1 <= range < NEAREST_SEARCH_LIMIT,
                        sx - range <= x < sx + range,
                        sy - range <= y <= sy + range,
                        s == (sx as int, sy as int),
                        s == pos.cell(),
                        i32::MIN <= sx <= i32::MAX,
                        i32::MIN <= sy <= i32::MAX,
                        self.wf(),
                        forall|a: int, b: int|
                            #![trigger self.is_open(a, b)]
                            ring_of(s, a, b) < range ==> !self.is_open(a, b),
                        forall|a: int, b: int|
                            #![trigger self.is_open(a, b)]
                            ring_of(s, a, b) <= range && a < x ==> !self.is_open(a, b),
                        forall|b: int|
                            #![trigger self.is_open(x as int, b)]
                            ring_of(s, x as int, b) <= range && b < y ==> !self.is_open(x as int, b),
                    decreases sy + range - y,
                {
                    if !self.blocked_at_wide(x, y) {
                        assert(ring_of(s, x as int, y as int) == range);
                        assert(self.in_bounds(x as int, y as int));
                        assert forall|a: int, b: int|
                            #![trigger self.is_open(a, b)]
                            ring_of(s, a, b) < NEAREST_SEARCH_LIMIT && self.is_open(a, b)
                                implies !scanned_before(s, a, b, x as int, y as int) by {
                            if ring_of(s, a, b) == range && a == x {
                                assert(!(b < y));
                            }
                        }
                        let c = Vec2i::new(x as i32, y as i32);
                        assert(c.cell() == (x as int, y as int));
                        return Some(c);
                    }
                    y = y + 1;
                }
                x = x + 1;
            }
            range = range + 1;
        }
        None
    }
}

} // verus!
