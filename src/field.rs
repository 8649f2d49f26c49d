//! A direction field over a map: what it stores, what makes it sound, and
//! which neighbours a smoothing round consults.

use crate::ground::Ground;
use crate::vec::Vec2i;
use vstd::prelude::*;

verus! {

/// Where units are sent: the cell that holds a target point, or a rectangle of
/// cells (a building, a patch of gold) that a unit reaches by standing next to it.
#[derive(Clone, Copy, Debug, PartialEq, Eq, Structural)]
pub enum PathGoal {
    Point { pos: Vec2i },
    Rect { pos: Vec2i, size: Vec2i },
}

/// Left column, top row, width and height of the cells that a goal covers.
pub open spec fn goal_region(g: PathGoal) -> (int, int, int, int) {
    match g {
        PathGoal::Point { pos } => (pos.x as int, pos.y as int, 1, 1),
        PathGoal::Rect { pos, size } => (pos.x as int, pos.y as int, size.x as int, size.y as int),
    }
}

/// A goal covers at least one cell.
pub open spec fn goal_wf(g: PathGoal) -> bool {
    goal_region(g).2 >= 1 && goal_region(g).3 >= 1
}

pub open spec fn in_goal(g: PathGoal, x: int, y: int) -> bool {
    let r = goal_region(g);
    r.0 <= x < r.0 + r.2 && r.1 <= y < r.1 + r.3
}

/// The direction that a search gives to a cell just outside one side of the
/// goal: the step into the goal. `None` for every other cell.
pub open spec fn seed_direction(g: PathGoal, x: int, y: int) -> Option<(int, int)> {
    let r = goal_region(g);
    if x == r.0 - 1 && r.1 <= y < r.1 + r.3 {
        Some((1, 0))
    } else if x == r.0 + r.2 && r.1 <= y < r.1 + r.3 {
        Some((-1, 0))
    } else if y == r.1 - 1 && r.0 <= x < r.0 + r.2 {
        Some((0, 1))
    } else if y == r.1 + r.3 && r.0 <= x < r.0 + r.2 {
        Some((0, -1))
    } else {
        None
    }
}

/// The eight moves of the search, in the order in which it tries them.
pub open spec fn neighbour_offset(k: int) -> (int, int) {
    if k == 0 {
        (-1, 0)
    } else if k == 1 {
        (1, 0)
    } else if k == 2 {
        (0, -1)
    } else if k == 3 {
        (0, 1)
    } else if k == 4 {
        (1, 1)
    } else if k == 5 {
        (1, -1)
    } else if k == 6 {
        (-1, 1)
    } else {
        (-1, -1)
    }
}

/// One of the eight unit steps of the grid.
pub open spec fn is_compass(d: (int, int)) -> bool {
    -1 <= d.0 <= 1 && -1 <= d.1 <= 1 && d != (0int, 0int)
}

/// A step `d` from `(x, y)` cuts no corner: it runs along a row or a column,
/// or both cells beside the diagonal are open.
pub open spec fn corners_open(ground: Ground, x: int, y: int, d: (int, int)) -> bool {
    d.0 == 0 || d.1 == 0 || (ground.is_open(x + d.0, y) && ground.is_open(x, y + d.1))
}

/// A unit on `(x, y)` may take step `d`: it lands on an open cell and cuts no corner.
pub open spec fn can_step(ground: Ground, x: int, y: int, d: (int, int)) -> bool {
    ground.is_open(x + d.0, y + d.1) && corners_open(ground, x, y, d)
}

/// A direction field for `ground`, as produced by a search before any smoothing:
/// each covered cell is open and holds a unit grid step that cuts no corner and
/// leads into the goal or to another covered cell.
pub open spec fn is_flow_field(p: Path, ground: Ground) -> bool {
    forall|x: int, y: int|
        #![trigger p.entry(x, y)]
        p.entry(x, y) is Some ==> {
            let d = p.entry(x, y)->0;
            &&& ground.is_open(x, y)
            &&& is_compass(d)
            &&& corners_open(ground, x, y, d)
            &&& (in_goal(p.target_goal(), x + d.0, y + d.1) || p.entry(x + d.0, y + d.1) is Some)
        }
}

/// Each covered cell that is not next to a side of the goal points at another
/// covered cell: the one from which the search reached it.
#[verifier::opaque]
pub open spec fn steps_to_covered(p: Path) -> bool {
    forall|x: int, y: int|
        #![trigger p.entry(x, y)]
        p.entry(x, y) is Some && seed_direction(p.target_goal(), x, y) is None ==> p.entry(
            x + (p.entry(x, y)->0).0,
            y + (p.entry(x, y)->0).1,
        ) is Some
}

/// At least `n` distinct cells are covered.
pub open spec fn covers_at_least(p: Path, n: int) -> bool {
    exists|s: Set<(int, int)>|
        s.finite() && s.len() >= n && forall|c: (int, int)| #[trigger] s.contains(c) ==> p.entry(c.0, c.1) is Some
}

/// A walk over the grid: each cell is one allowed move from the one before.
pub open spec fn is_walk(ground: Ground, w: Seq<(int, int)>) -> bool {
    forall|i: int|
        0 <= i < w.len() - 1 ==> exists|k: int|
            0 <= k < 8 && #[trigger] w[i + 1] == (w[i].0 + neighbour_offset(k).0, w[i].1
                + neighbour_offset(k).1) && can_step(ground, w[i].0, w[i].1, neighbour_offset(k))
}

/// No move leaves the covered cells: from each covered cell, every allowed
/// move lands on a covered cell.
pub open spec fn is_closed(p: Path, ground: Ground) -> bool {
    forall|x: int, y: int, k: int|
        #![trigger p.entry(x, y), neighbour_offset(k)]
        p.entry(x, y) is Some && 0 <= k < 8 && can_step(ground, x, y, neighbour_offset(k))
            ==> p.entry(x + neighbour_offset(k).0, y + neighbour_offset(k).1) is Some
}

/// A direction per cell of a map, toward a goal; a cell without one was not
/// reached.
pub struct Path {
    width: i32,
    height: i32,
    cells: Vec<Option<Vec2i>>,
    goal: PathGoal,
}

impl Path {
    pub closed spec fn wf(self) -> bool {
        &&& 0 <= self.width
        &&& 0 <= self.height
        &&& self.width * self.height <= i32::MAX
        &&& self.cells.len() == self.width * self.height
    }

    pub closed spec fn w(self) -> int {
        self.width as int
    }

    pub closed spec fn h(self) -> int {
        self.height as int
    }

    pub closed spec fn target_goal(self) -> PathGoal {
        self.goal
    }

    /// The direction stored for `(x, y)`, if any.
    pub closed spec fn entry(self, x: int, y: int) -> Option<(int, int)> {
        if 0 <= x < self.width && 0 <= y < self.height {
            match self.cells@[crate::ground::tile_index(self.width as int, x, y)] {
                Some(v) => Some(v.cell()),
                None => None,
            }
        } else {
            None
        }
    }

    /// Only cells of the map carry a direction.
    pub proof fn lemma_entry_in_bounds(self, x: int, y: int)
        requires
            self.entry(x, y) is Some,
        ensures
            0 <= x < self.w(),
            0 <= y < self.h(),
    {
    }

    /// A field of the given size with no direction stored.
    pub fn new(width: i32, height: i32, goal: PathGoal) -> (r: Path)
        requires
            0 <= width,
            0 <= height,
            width * height <= i32::MAX,
        ensures
            r.wf(),
            r.w() == width,
            r.h() == height,
            r.target_goal() == goal,
            forall|x: int, y: int| #[trigger] r.entry(x, y) is None,
    {
        let n: i32 = width * height;
        let mut cells: Vec<Option<Vec2i>> = Vec::new();
        let mut i: i32 = 0;
        while i < n
            invariant
                0 <= i <= n,
                cells.len() == i,
                forall|j: int| 0 <= j < i ==> cells@[j] is None,
            decreases n - i,
        {
            cells.push(None);
            i = i + 1;
        }
        let r = Path { width, height, cells, goal };
        assert forall|x: int, y: int| #[trigger] r.entry(x, y) is None by {
            if 0 <= x < width && 0 <= y < height {
                crate::ground::lemma_tile_index_bounds(width as int, height as int, x, y);
            }
        }
        r
    }

    pub fn get_width(&self) -> (r: i32)
        ensures
            r == self.w(),
    {
        self.width
    }

    pub fn get_height(&self) -> (r: i32)
        ensures
            r == self.h(),
    {
        self.height
    }

    pub fn get_goal(&self) -> (r: PathGoal)
        ensures
            r == self.target_goal(),
    {
        self.goal
    }

    /// The direction stored for `position`; `None` where the search did not reach.
    pub fn get_direction(&self, position: &Vec2i) -> (r: Option<Vec2i>)
        requires
            self.wf(),
        ensures
            match r {
                Some(v) => self.entry(position.x as int, position.y as int) == Some(v.cell()),
                None => self.entry(position.x as int, position.y as int) is None,
            },
    {
        let x = position.x;
        let y = position.y;
        if x < 0 || x >= self.width || y < 0 || y >= self.height {
            return None;
        }
        proof {
            crate::ground::lemma_tile_index_bounds(self.w(), self.h(), x as int, y as int);
        }
        self.cells[(y * self.width + x) as usize]
    }

    /// Stores `direction` for `position`; a position off the map is ignored.
    pub fn set_direction(&mut self, position: &Vec2i, direction: Vec2i)
        requires
            old(self).wf(),
        ensures
            final(self).wf(),
            final(self).w() == old(self).w(),
            final(self).h() == old(self).h(),
            final(self).target_goal() == old(self).target_goal(),
            forall|a: int, b: int|
                #![trigger final(self).entry(a, b)]
                final(self).entry(a, b) == if a == position.x && b == position.y && 0 <= a
                    < old(self).w() && 0 <= b < old(self).h() {
                    Some(direction.cell())
                } else {
                    old(self).entry(a, b)
                },
    {
        let x = position.x;
        let y = position.y;
        if x < 0 || x >= self.width || y < 0 || y >= self.height {
            return;
        }
        proof {
            crate::ground::lemma_tile_index_bounds(self.w(), self.h(), x as int, y as int);
        }
        let ghost before = *self;
        let idx: i32 = y * self.width + x;
        self.cells.set(idx as usize, Some(direction));
        proof {
            assert forall|a: int, b: int|
                #![trigger self.entry(a, b)]
                self.entry(a, b) == if a == x && b == y && 0 <= a < before.w() && 0 <= b
                    < before.h() {
                    Some(direction.cell())
                } else {
                    before.entry(a, b)
                } by {
                if 0 <= a < self.width && 0 <= b < self.height && !(a == x && b == y) {
                    crate::ground::lemma_tile_index_injective(
                        self.w(),
                        self.h(),
                        a,
                        b,
                        x as int,
                        y as int,
                    );
                }
            }
        }
    }
}


/// Following the stored directions from `(x, y)` enters the goal within `fuel` steps.
pub open spec fn leads_to_goal(p: Path, x: int, y: int, fuel: nat) -> bool
    decreases fuel,
{
    if fuel == 0 {
        false
    } else {
        match p.entry(x, y) {
            None => false,
            Some(d) => in_goal(p.target_goal(), x + d.0, y + d.1) || leads_to_goal(
                p,
                x + d.0,
                y + d.1,
                (fuel - 1) as nat,
            ),
        }
    }
}

/// Following the stored directions from `(x, y)` enters the goal after
/// finitely many steps.
pub open spec fn reaches_goal(p: Path, x: int, y: int) -> bool {
    exists|n: nat| leads_to_goal(p, x, y, n)
}

/// A field cuts no corner: a cell from which every move onto a covered cell
/// or into the goal is a diagonal between two blocked cells carries no direction.
pub proof fn lemma_corner_locked_cell_uncovered(p: Path, ground: Ground, x: int, y: int)
    requires
        is_flow_field(p, ground),
        forall|k: int|
            #![trigger neighbour_offset(k)]
            0 <= k < 8 && (p.entry(x + neighbour_offset(k).0, y + neighbour_offset(k).1) is Some
                || in_goal(p.target_goal(), x + neighbour_offset(k).0, y + neighbour_offset(k).1))
                ==> {
                let o = neighbour_offset(k);
                &&& o.0 != 0
                &&& o.1 != 0
                &&& !ground.is_open(x + o.0, y)
                &&& !ground.is_open(x, y + o.1)
            },
    ensures
        p.entry(x, y) is None,
{
    reveal(steps_to_covered);
    if p.entry(x, y) is Some {
        let d = p.entry(x, y)->0;
        let k: int = if d == (-1int, 0int) {
            0
        } else if d == (1int, 0int) {
            1
        } else if d == (0int, -1int) {
            2
        } else if d == (0int, 1int) {
            3
        } else if d == (1int, 1int) {
            4
        } else if d == (1int, -1int) {
            5
        } else if d == (-1int, 1int) {
            6
        } else {
            7
        };
        assert(neighbour_offset(k) == d);
    }
}

/// A cell walled in on its four sides, and not next to a side of the goal,
/// carries no direction: it is reached by no move that cuts no corner.
pub proof fn lemma_walled_cell_uncovered(p: Path, ground: Ground, x: int, y: int)
    requires
        is_flow_field(p, ground),
        steps_to_covered(p),
        !ground.is_open(x - 1, y),
        !ground.is_open(x + 1, y),
        !ground.is_open(x, y - 1),
        !ground.is_open(x, y + 1),
        seed_direction(p.target_goal(), x, y) is None,
    ensures
        p.entry(x, y) is None,
{
    if p.entry(x, y) is Some {
        let d = p.entry(x, y)->0;
        assert(is_compass(d) && corners_open(ground, x, y, d));
        assert(p.entry(x + d.0, y + d.1) is Some) by {
            reveal(steps_to_covered);
        }
        assert(ground.is_open(x + d.0, y + d.1));
        if d.0 == 0 {
            assert(d.1 == 1 || d.1 == -1);
        } else if d.1 == 0 {
            assert(d.0 == 1 || d.0 == -1);
        } else {
            assert(!ground.is_open(x + d.0, y));
        }
    }
}

/// In a closed field, a walk that starts on a covered cell stays on covered cells.
pub proof fn lemma_closed_field_covers_walk(p: Path, ground: Ground, w: Seq<(int, int)>, i: int)
    requires
        is_closed(p, ground),
        is_walk(ground, w),
        0 <= i < w.len(),
        p.entry(w[0].0, w[0].1) is Some,
    ensures
        p.entry(w[i].0, w[i].1) is Some,
    decreases i,
{
    if i > 0 {
        lemma_closed_field_covers_walk(p, ground, w, i - 1);
        let k = choose|k: int|
            0 <= k < 8 && #[trigger] w[(i - 1) + 1] == (w[i - 1].0 + neighbour_offset(k).0, w[i - 1].1
                + neighbour_offset(k).1) && can_step(ground, w[i - 1].0, w[i - 1].1, neighbour_offset(k));
        assert(p.entry(w[i - 1].0 + neighbour_offset(k).0, w[i - 1].1 + neighbour_offset(k).1) is Some);
    }
}

/// The sign of `v`: -1, 0 or 1.
pub open spec fn sign(v: int) -> int {
    if v > 0 {
        1
    } else if v == 0 {
        0
    } else {
        -1
    }
}

/// Whether `p` stores a direction for cell `c`.
pub open spec fn has_entry(p: Path, c: (int, int)) -> bool {
    p.entry(c.0, c.1) is Some
}

/// The pairs of neighbouring cells whose direction rays an orienting round
/// tests, in order, for the cell `(x, y)`, when `p` holds the direction class
/// of each cell (read by the signs of its components).
///
/// A diagonal class looks at the two cells along its components and the one
/// along the diagonal, all three of which must be present. A straight class
/// looks at the cell ahead, reads the sideways sign of that cell's class, and
/// pairs the cell ahead with the cell beside this one on that side, provided
/// that it and the cell diagonally ahead on that side are present.
pub open spec fn orienting_pairs_of(p: Path, x: int, y: int) -> Seq<((int, int), (int, int))> {
    match p.entry(x, y) {
        None => seq![],
        Some(d) => {
            let dx = sign(d.0);
            let dy = sign(d.1);
            if dx != 0 && dy != 0 {
                let beside_x = (x + dx, y);
                let beside_y = (x, y + dy);
                let corner = (x + dx, y + dy);
                if has_entry(p, beside_x) && has_entry(p, beside_y) && has_entry(p, corner) {
                    seq![(beside_x, beside_y), (corner, beside_y), (beside_x, corner)]
                } else {
                    seq![]
                }
            } else if dx == 0 && dy == 0 {
                seq![]
            } else {
                let f = (x + dx, y + dy);
                match p.entry(f.0, f.1) {
                    None => seq![],
                    Some(o) => {
                        let (o2, o3) = if dx == 0 {
                            ((x + sign(o.0), y), (x + sign(o.0), y + dy))
                        } else {
                            ((x, y + sign(o.1)), (x + dx, y + sign(o.1)))
                        };
                        if has_entry(p, o2) && has_entry(p, o3) {
                            seq![(f, o2)]
                        } else {
                            seq![]
                        }
                    },
                }
            }
        },
    }
}

fn sign_of(v: i32) -> (r: i32)
    ensures
        r == sign(v as int),
{
    if v > 0 {
        1
    } else if v == 0 {
        0
    } else {
        -1
    }
}

impl Path {
    /// Whether a direction is stored for `(x, y)`.
    fn present(&self, x: i32, y: i32) -> (r: bool)
        requires
            self.wf(),
        ensures
            r == has_entry(*self, (x as int, y as int)),
    {
        match self.get_direction(&Vec2i::new(x, y)) {
            Some(_) => true,
            None => false,
        }
    }

    /// The neighbour pairs that an orienting round tests for `position`, when
    /// this field holds the direction class of each cell; see `orienting_pairs_of`.
    pub fn orienting_pairs(&self, position: &Vec2i) -> (r: Vec<(Vec2i, Vec2i)>)
        requires
            self.wf(),
        ensures
            r@.len() == orienting_pairs_of(*self, position.x as int, position.y as int).len(),
            forall|i: int|
                0 <= i < r@.len() ==> ((#[trigger] r@[i]).0.cell(), r@[i].1.cell())
                    == orienting_pairs_of(*self, position.x as int, position.y as int)[i],
    {
        let x = position.x;
        let y = position.y;
        let ghost want = orienting_pairs_of(*self, x as int, y as int);
        let mut r: Vec<(Vec2i, Vec2i)> = Vec::new();
        let d = match self.get_direction(position) {
            None => {
                return r;
            },
            Some(d) => d,
        };
        proof {
            self.lemma_entry_in_bounds(x as int, y as int);
        }
        let dx = sign_of(d.x);
        let dy = sign_of(d.y);
        if dx != 0 && dy != 0 {
            if self.present(x + dx, y) && self.present(x, y + dy) && self.present(x + dx, y + dy) {
                let beside_x = Vec2i::new(x + dx, y);
                let beside_y = Vec2i::new(x, y + dy);
                let corner = Vec2i::new(x + dx, y + dy);
                r.push((beside_x, beside_y));
                r.push((corner, beside_y));
                r.push((beside_x, corner));
            }
        } else if dx != 0 || dy != 0 {
            let f = Vec2i::new(x + dx, y + dy);
            match self.get_direction(&f) {
                None => {},
                Some(o) => {
                    let (o2, o3) = if dx == 0 {
                        let s = sign_of(o.x);
                        (Vec2i::new(x + s, y), Vec2i::new(x + s, y + dy))
                    } else {
                        let s = sign_of(o.y);
                        (Vec2i::new(x, y + s), Vec2i::new(x + dx, y + s))
                    };
                    if self.present(o2.x, o2.y) && self.present(o3.x, o3.y) {
                        r.push((f, o2));
                    }
                },
            }
        }
        proof {
            assert(r@.len() == want.len());
        }
        r
    }
}

/// Every cell that an orienting round pairs up carries a direction, so the
/// rays it tests always exist.
pub proof fn lemma_orienting_pairs_covered(p: Path, x: int, y: int, i: int)
    requires
        0 <= i < orienting_pairs_of(p, x, y).len(),
    ensures
        has_entry(p, orienting_pairs_of(p, x, y)[i].0),
        has_entry(p, orienting_pairs_of(p, x, y)[i].1),
{
}

} // verus!
