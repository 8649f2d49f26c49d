//! The search: from the cells around a goal outward, best first, until the
//! units it serves are covered.

use crate::field::{
    corners_open, covers_at_least, in_goal, is_closed, is_compass, is_flow_field, neighbour_offset,
    reaches_goal, steps_to_covered,
    seed_direction, can_step, goal_region, goal_wf, leads_to_goal, is_walk,
    lemma_closed_field_covers_walk,
};
use crate::frontier::{best_index, reweight_all};
use crate::ground::Ground;
use crate::vec::Vec2i;
use vstd::prelude::*;

pub use crate::field::{Path, PathGoal};
pub use crate::frontier::{isqrt, WPathItem};

verus! {

/// The cost of a move along a row or a column.
pub const STRAIGHT_STEP_COST: i64 = 100;

/// The cost of a diagonal move, about `100 * sqrt(2)`.
pub const DIAGONAL_STEP_COST: i64 = 141;

/// The most cells that one search expands before it stops with what it has.
pub const MAX_EXPANSIONS: usize = 100000;

/// The move tried in the `k`-th place, and its cost.
fn offset_of(k: usize) -> (r: (i32, i32, i64))
    requires
        k < 8,
    ensures
        (r.0 as int, r.1 as int) == neighbour_offset(k as int),
        r.2 == if r.0 != 0 && r.1 != 0 {
            DIAGONAL_STEP_COST
        } else {
            STRAIGHT_STEP_COST
        },
{
    if k == 0 {
        (-1, 0, STRAIGHT_STEP_COST)
    } else if k == 1 {
        (1, 0, STRAIGHT_STEP_COST)
    } else if k == 2 {
        (0, -1, STRAIGHT_STEP_COST)
    } else if k == 3 {
        (0, 1, STRAIGHT_STEP_COST)
    } else if k == 4 {
        (1, 1, DIAGONAL_STEP_COST)
    } else if k == 5 {
        (1, -1, DIAGONAL_STEP_COST)
    } else if k == 6 {
        (-1, 1, DIAGONAL_STEP_COST)
    } else {
        (-1, -1, DIAGONAL_STEP_COST)
    }
}

/// Moves `first` past the start cells that the field already covers.
fn advance_first(path: &Path, starts: &Vec<Vec2i>, first: usize) -> (r: usize)
    requires
        path.wf(),
        first <= starts.len(),
        forall|i: int|
            0 <= i < first ==> path.entry((#[trigger] starts@[i]).x as int, starts@[i].y as int) is Some,
    ensures
        first <= r <= starts.len(),
        forall|i: int|
            0 <= i < r ==> path.entry((#[trigger] starts@[i]).x as int, starts@[i].y as int) is Some,
        r < starts.len() ==> path.entry(starts@[r as int].x as int, starts@[r as int].y as int) is None,
{
    let mut r = first;
    while r < starts.len()
        invariant
            first <= r <= starts.len(),
            path.wf(),
            forall|i: int|
                0 <= i < r ==> path.entry((#[trigger] starts@[i]).x as int, starts@[i].y as int) is Some,
        decreases starts.len() - r,
    {
        match path.get_direction(&starts[r]) {
            Some(_) => {
                r = r + 1;
            },
            None => {
                return r;
            },
        }
    }
    r
}

/// Gives the open cell `(x, y)` the direction `dir` and puts it in the
/// frontier; a blocked cell is left alone.
fn try_seed(
    ground: &Ground,
    path: &mut Path,
    frontier: &mut Vec<WPathItem>,
    x: i64,
    y: i64,
    dir: Vec2i,
    target: &Vec2i,
) -> (seeded: bool)
    requires
        ground.wf(),
        old(path).wf(),
        old(path).w() == ground.w(),
        old(path).h() == ground.h(),
    ensures
        seeded == ground.is_open(x as int, y as int),
        final(path).wf(),
        final(path).w() == old(path).w(),
        final(path).h() == old(path).h(),
        final(path).target_goal() == old(path).target_goal(),
        forall|a: int, b: int|
            #![trigger final(path).entry(a, b)]
            final(path).entry(a, b) == if seeded && a == x && b == y {
                Some(dir.cell())
            } else {
                old(path).entry(a, b)
            },
        final(frontier).len() == old(frontier).len() + if seeded { 1int } else { 0int },
        forall|j: int| 0 <= j < old(frontier).len() ==> #[trigger] final(frontier)@[j] == old(frontier)@[j],
        seeded ==> final(frontier)@[old(frontier).len() as int].pos() == (x as int, y as int),
        seeded ==> final(frontier)@[old(frontier).len() as int].moved() == 0,
        seeded ==> final(frontier)@[old(frontier).len() as int].weighted_for(target.cell()),
{
    if ground.blocked_at_wide(x, y) {
        return false;
    }
    proof {
        ground.lemma_dims();
    }
    let pos = Vec2i::new(x as i32, y as i32);
    path.set_direction(&pos, dir);
    frontier.push(WPathItem::new((x as i32, y as i32), 0, target));
    true
}


/// Cells beside the left and right sides of the goal, in its first `i` rows.
pub open spec fn side_seed_cell(g: PathGoal, x: int, y: int, i: int) -> bool {
    let r = goal_region(g);
    (x == r.0 - 1 || x == r.0 + r.2) && r.1 <= y < r.1 + i
}

/// Cells beside the top and bottom sides of the goal, in its first `i` columns.
pub open spec fn end_seed_cell(g: PathGoal, x: int, y: int, i: int) -> bool {
    let r = goal_region(g);
    (y == r.1 - 1 || y == r.1 + r.3) && r.0 <= x < r.0 + i
}

/// What a search stores before it expands any cell: each open cell next to a
/// side of the goal, with the step into the goal.
pub open spec fn seeded_entry(g: PathGoal, ground: Ground, x: int, y: int) -> Option<(int, int)> {
    if seed_direction(g, x, y) is Some && ground.is_open(x, y) {
        seed_direction(g, x, y)
    } else {
        None
    }
}

/// Puts every open cell next to a side of the goal in the field and in the
/// frontier; returns the set of cells in the frontier.
fn seed_goal(
    ground: &Ground,
    path: &mut Path,
    frontier: &mut Vec<WPathItem>,
    goal: PathGoal,
    target: &Vec2i,
) -> (queued: Ghost<Set<(int, int)>>)
    requires
        ground.wf(),
        goal_wf(goal),
        old(path).wf(),
        old(path).w() == ground.w(),
        old(path).h() == ground.h(),
        old(path).target_goal() == goal,
        forall|x: int, y: int| #[trigger] old(path).entry(x, y) is None,
        old(frontier).len() == 0,
    ensures
        final(path).wf(),
        final(path).w() == ground.w(),
        final(path).h() == ground.h(),
        final(path).target_goal() == goal,
        forall|x: int, y: int|
            #![trigger final(path).entry(x, y)]
            final(path).entry(x, y) == seeded_entry(goal, *ground, x, y),
        queued@.finite(),
        queued@.len() == final(frontier).len(),
        forall|j: int|
            0 <= j < final(frontier).len() ==> queued@.contains((#[trigger] final(frontier)@[j]).pos())
                && final(frontier)@[j].moved() == 0,
        forall|i: int, j: int|
            0 <= i < j < final(frontier).len() ==> (#[trigger] final(frontier)@[i]).pos()
                != (#[trigger] final(frontier)@[j]).pos(),
        forall|c: (int, int)| #[trigger] queued@.contains(c) <==> final(path).entry(c.0, c.1) is Some,
        forall|j: int|
            0 <= j < final(frontier).len() ==> (#[trigger] final(frontier)@[j]).weighted_for(target.cell()),
{
    let (gx, gy, gw, gh): (i64, i64, i64, i64) = match goal {
        PathGoal::Point { pos } => (pos.x as i64, pos.y as i64, 1, 1),
        PathGoal::Rect { pos, size } => (pos.x as i64, pos.y as i64, size.x as i64, size.y as i64),
    };
    assert(goal_region(goal) == (gx as int, gy as int, gw as int, gh as int));
    let ghost mut queued: Set<(int, int)> = Set::empty();
    let mut i: i64 = 0;
    while i < gh
        invariant
            0 <= i <= gh,
            goal_region(goal) == (gx as int, gy as int, gw as int, gh as int),
            goal_wf(goal),
            i32::MIN <= gx <= i32::MAX,
            i32::MIN <= gy <= i32::MAX,
            1 <= gw <= i32::MAX,
            1 <= gh <= i32::MAX,
            ground.wf(),
            path.wf(),
            path.w() == ground.w(),
            path.h() == ground.h(),
            path.target_goal() == goal,
            forall|x: int, y: int|
                #![trigger path.entry(x, y)]
                path.entry(x, y) == if side_seed_cell(goal, x, y, i as int) {
                    seeded_entry(goal, *ground, x, y)
                } else {
                    None
                },
            queued.finite(),
            queued.len() == frontier.len(),
            forall|j: int|
                0 <= j < frontier.len() ==> queued.contains((#[trigger] frontier@[j]).pos())
                    && frontier@[j].moved() == 0,
            forall|a: int, b: int|
                0 <= a < b < frontier.len() ==> (#[trigger] frontier@[a]).pos()
                    != (#[trigger] frontier@[b]).pos(),
            forall|c: (int, int)| #[trigger] queued.contains(c) <==> path.entry(c.0, c.1) is Some,
            forall|j: int| 0 <= j < frontier.len() ==> (#[trigger] frontier@[j]).weighted_for(target.cell()),
        decreases gh - i,
    {
        let ghost path_before = *path;
        let ghost front_before = frontier@;
        let left = try_seed(ground, path, frontier, gx - 1, gy + i, Vec2i::new(1, 0), target);
        proof {
            if left {
                queued = queued.insert((gx - 1, gy + i));
            }
        }
        let right = try_seed(ground, path, frontier, gx + gw, gy + i, Vec2i::new(-1, 0), target);
        proof {
            if right {
                queued = queued.insert((gx + gw, gy + i));
            }
            assert forall|a: int, b: int|
                0 <= a < b < frontier.len() implies (#[trigger] frontier@[a]).pos()
                != (#[trigger] frontier@[b]).pos() by {
                if b >= front_before.len() {
                    assert(path_before.entry(frontier@[a].pos().0, frontier@[a].pos().1) is Some || a
                        >= front_before.len());
                }
            }
        }
        i = i + 1;
    }
    let mut i: i64 = 0;
    while i < gw
        invariant
            0 <= i <= gw,
            goal_region(goal) == (gx as int, gy as int, gw as int, gh as int),
            goal_wf(goal),
            i32::MIN <= gx <= i32::MAX,
            i32::MIN <= gy <= i32::MAX,
            1 <= gw <= i32::MAX,
            1 <= gh <= i32::MAX,
            ground.wf(),
            path.wf(),
            path.w() == ground.w(),
            path.h() == ground.h(),
            path.target_goal() == goal,
            forall|x: int, y: int|
                #![trigger path.entry(x, y)]
                path.entry(x, y) == if side_seed_cell(goal, x, y, gh as int) || end_seed_cell(
                    goal,
                    x,
                    y,
                    i as int,
                ) {
                    seeded_entry(goal, *ground, x, y)
                } else {
                    None
                },
            queued.finite(),
            queued.len() == frontier.len(),
            forall|j: int|
                0 <= j < frontier.len() ==> queued.contains((#[trigger] frontier@[j]).pos())
                    && frontier@[j].moved() == 0,
            forall|a: int, b: int|
                0 <= a < b < frontier.len() ==> (#[trigger] frontier@[a]).pos()
                    != (#[trigger] frontier@[b]).pos(),
            forall|c: (int, int)| #[trigger] queued.contains(c) <==> path.entry(c.0, c.1) is Some,
            forall|j: int| 0 <= j < frontier.len() ==> (#[trigger] frontier@[j]).weighted_for(target.cell()),
        decreases gw - i,
    {
        let ghost path_before = *path;
        let ghost front_before = frontier@;
        let top = try_seed(ground, path, frontier, gx + i, gy - 1, Vec2i::new(0, 1), target);
        proof {
            if top {
                queued = queued.insert((gx + i, gy - 1));
            }
        }
        let bottom = try_seed(ground, path, frontier, gx + i, gy + gh, Vec2i::new(0, -1), target);
        proof {
            if bottom {
                queued = queued.insert((gx + i, gy + gh));
            }
            assert forall|a: int, b: int|
                0 <= a < b < frontier.len() implies (#[trigger] frontier@[a]).pos()
                != (#[trigger] frontier@[b]).pos() by {
                if b >= front_before.len() {
                    assert(path_before.entry(frontier@[a].pos().0, frontier@[a].pos().1) is Some || a
                        >= front_before.len());
                }
            }
        }
        i = i + 1;
    }
    proof {
        assert forall|x: int, y: int|
            #![trigger path.entry(x, y)]
            path.entry(x, y) == seeded_entry(goal, *ground, x, y) by {
            if seed_direction(goal, x, y) is Some {
                assert(side_seed_cell(goal, x, y, gh as int) || end_seed_cell(goal, x, y, gw as int));
            }
        }
    }
    Ghost(queued)
}


/// Whether the field covers every cell of `starts`.
pub open spec fn covers_all(p: Path, starts: Seq<Vec2i>) -> bool {
    forall|i: int| 0 <= i < starts.len() ==> (#[trigger] p.entry(starts[i].x as int, starts[i].y as int)) is Some
}

/// Each covered cell has a cost, and each step that does not enter the goal
/// leads to a covered cell of lower cost.
spec fn ranked_by(p: Path, costs: Map<(int, int), int>) -> bool {
    forall|x: int, y: int|
        #![trigger p.entry(x, y)]
        p.entry(x, y) is Some ==> {
            let d = p.entry(x, y)->0;
            &&& costs.contains_key((x, y))
            &&& costs[(x, y)] >= 0
            &&& (in_goal(p.target_goal(), x + d.0, y + d.1) || (p.entry(x + d.0, y + d.1) is Some
                && costs[(x + d.0, y + d.1)] < costs[(x, y)]))
        }
}

proof fn lemma_leads_to_goal_more_fuel(p: Path, x: int, y: int, n: nat, m: nat)
    requires
        leads_to_goal(p, x, y, n),
        n <= m,
    ensures
        leads_to_goal(p, x, y, m),
    decreases n,
{
    let d = p.entry(x, y)->0;
    if !in_goal(p.target_goal(), x + d.0, y + d.1) {
        lemma_leads_to_goal_more_fuel(p, x + d.0, y + d.1, (n - 1) as nat, (m - 1) as nat);
    }
}

proof fn lemma_ranked_leads_to_goal(p: Path, costs: Map<(int, int), int>, x: int, y: int)
    requires
        ranked_by(p, costs),
        p.entry(x, y) is Some,
    ensures
        leads_to_goal(p, x, y, (costs[(x, y)] + 1) as nat),
    decreases costs[(x, y)],
{
    let d = p.entry(x, y)->0;
    if !in_goal(p.target_goal(), x + d.0, y + d.1) {
        let t = (x + d.0, y + d.1);
        lemma_ranked_leads_to_goal(p, costs, t.0, t.1);
        lemma_leads_to_goal_more_fuel(p, t.0, t.1, (costs[t] + 1) as nat, costs[(x, y)] as nat);
    }
}

/// Covering the uncovered open cell `n` with the step `d` to the covered cell
/// `c`, at a higher cost than `c`'s, keeps a field sound and ranked.
proof fn lemma_cover_keeps_field(
    before: Path,
    after: Path,
    ground: Ground,
    costs_before: Map<(int, int), int>,
    costs: Map<(int, int), int>,
    n: (int, int),
    d: (int, int),
    c: (int, int),
    v: int,
)
    requires
        is_flow_field(before, ground),
        steps_to_covered(before),
        ranked_by(before, costs_before),
        forall|a: int, b: int|
            #![trigger after.entry(a, b)]
            after.entry(a, b) == if a == n.0 && b == n.1 {
                Some(d)
            } else {
                before.entry(a, b)
            },
        after.target_goal() == before.target_goal(),
        before.entry(n.0, n.1) is None,
        before.entry(c.0, c.1) is Some,
        n.0 + d.0 == c.0,
        n.1 + d.1 == c.1,
        ground.is_open(n.0, n.1),
        is_compass(d),
        corners_open(ground, n.0, n.1, d),
        costs == costs_before.insert(n, v),
        costs_before[c] < v,
    ensures
        is_flow_field(after, ground),
        steps_to_covered(after),
        ranked_by(after, costs),
{
    assert forall|x: int, y: int|
        #![trigger after.entry(x, y)]
        after.entry(x, y) is Some implies {
            let e = after.entry(x, y)->0;
            &&& costs.contains_key((x, y))
            &&& costs[(x, y)] >= 0
            &&& (in_goal(after.target_goal(), x + e.0, y + e.1) || (after.entry(x + e.0, y + e.1) is Some
                && costs[(x + e.0, y + e.1)] < costs[(x, y)]))
        } by {
        if !(x == n.0 && y == n.1) {
            assert(before.entry(x, y) is Some);
        } else {
            assert(before.entry(c.0, c.1) is Some);
        }
    }
    assert forall|x: int, y: int|
        #![trigger after.entry(x, y)]
        after.entry(x, y) is Some implies {
            let e = after.entry(x, y)->0;
            &&& ground.is_open(x, y)
            &&& is_compass(e)
            &&& corners_open(ground, x, y, e)
            &&& (in_goal(after.target_goal(), x + e.0, y + e.1) || after.entry(x + e.0, y + e.1) is Some)
        } by {
        if !(x == n.0 && y == n.1) {
            let e = before.entry(x, y)->0;
            assert(before.entry(x, y) is Some);
            if !in_goal(before.target_goal(), x + e.0, y + e.1) {
                assert(before.entry(x + e.0, y + e.1) is Some);
            }
        } else {
            assert(after.entry(c.0, c.1) is Some);
        }
    }
    reveal(steps_to_covered);
    assert forall|x: int, y: int|
        #![trigger after.entry(x, y)]
        after.entry(x, y) is Some && seed_direction(after.target_goal(), x, y) is None implies after.entry(
            x + (after.entry(x, y)->0).0,
            y + (after.entry(x, y)->0).1,
        ) is Some by {
        if !(x == n.0 && y == n.1) {
            assert(before.entry(x, y) is Some);
        } else {
            assert(after.entry(c.0, c.1) is Some);
        }
    }
}

/// What a search toward `goal` from `starts` guarantees of the field it
/// returns: the map's size and the goal; a sound field in which every covered
/// cell leads to the goal, every non-seed cell points at a covered cell, and
/// the cells next to the goal hold the step into it; and either every start
/// cell is covered, or no allowed move leaves the field, or the expansion
/// budget was spent.
pub open spec fn is_search_result(p: Path, ground: Ground, goal: PathGoal, starts: Seq<Vec2i>) -> bool {
    &&& p.wf()
    &&& p.w() == ground.w()
    &&& p.h() == ground.h()
    &&& p.target_goal() == goal
    &&& is_flow_field(p, ground)
    &&& forall|x: int, y: int|
        #![trigger p.entry(x, y)]
        p.entry(x, y) is Some ==> reaches_goal(p, x, y)
    &&& forall|x: int, y: int|
        #![trigger p.entry(x, y)]
        seeded_entry(goal, ground, x, y) is Some ==> p.entry(x, y) == seeded_entry(
            goal,
            ground,
            x,
            y,
        )
    &&& steps_to_covered(p)
    &&& covers_all(p, starts) || is_closed(p, ground) || covers_at_least(p, MAX_EXPANSIONS as int)
}

/// On a map with fewer open cells than the expansion budget, a search covers
/// every start cell that a walk of allowed moves joins to an open cell next
/// to the goal.
pub proof fn lemma_connected_start_covered(
    p: Path,
    ground: Ground,
    goal: PathGoal,
    starts: Seq<Vec2i>,
    open_cells: Set<(int, int)>,
    walk: Seq<(int, int)>,
    i: int,
)
    requires
        is_search_result(p, ground, goal, starts),
        open_cells.finite(),
        open_cells.len() < MAX_EXPANSIONS,
        forall|c: (int, int)| ground.is_open(c.0, c.1) ==> #[trigger] open_cells.contains(c),
        is_walk(ground, walk),
        walk.len() > 0,
        seed_direction(goal, walk[0].0, walk[0].1) is Some,
        ground.is_open(walk[0].0, walk[0].1),
        0 <= i < starts.len(),
        walk.last() == starts[i].cell(),
    ensures
        p.entry(starts[i].x as int, starts[i].y as int) is Some,
{
    if covers_at_least(p, MAX_EXPANSIONS as int) {
        let s = choose|s: Set<(int, int)>|
            s.finite() && s.len() >= MAX_EXPANSIONS && forall|c: (int, int)| #[trigger] s.contains(c) ==> p.entry(c.0, c.1) is Some;
        assert(s.subset_of(open_cells)) by {
            assert forall|c: (int, int)| #[trigger] s.contains(c) implies open_cells.contains(c) by {
                assert(p.entry(c.0, c.1) is Some);
                assert(ground.is_open(c.0, c.1));
            }
        }
        vstd::set_lib::lemma_len_subset(s, open_cells);
    }
    if !covers_all(p, starts) {
        assert(seeded_entry(goal, ground, walk[0].0, walk[0].1) is Some);
        lemma_closed_field_covers_walk(p, ground, walk, walk.len() - 1);
    }
}

/// Computes direction fields toward goals.
pub struct PathFinder {}

impl PathFinder {
    pub fn new() -> (r: PathFinder) {
        PathFinder {  }
    }

    /// Searches outward from the goal until every cell of `start_positions` is
    /// covered, the frontier runs dry, or `MAX_EXPANSIONS` cells were expanded.
    /// `None` exactly when there is no start cell.
    ///
    /// The search expands the frontier cell of lowest priority (see
    /// `frontier::precedes`). It heads for the first start cell; whenever the
    /// cell it heads for gets covered, it heads for the first start cell, in
    /// the order given, not yet covered, and weighs the whole frontier anew.
    pub fn find_path(&self, ground: &Ground, goal: PathGoal, start_positions: &Vec<Vec2i>) -> (r:
        Option<Path>)
        requires
            ground.wf(),
            goal_wf(goal),
        ensures
            r is None <==> start_positions.len() == 0,
            r matches Some(p) ==> is_search_result(p, *ground, goal, start_positions@),
    {
        if start_positions.len() == 0 {
            return None;
        }
        let mut target: Vec2i = start_positions[0];
        proof {
            ground.lemma_dims();
        }
        let mut path = Path::new(ground.get_width(), ground.get_height(), goal);
        let mut frontier: Vec<WPathItem> = Vec::new();
        let queued = seed_goal(ground, &mut path, &mut frontier, goal, &target);
        let ghost mut queued: Set<(int, int)> = queued@;
        let ghost mut expanded: Set<(int, int)> = Set::empty();
        let ghost mut costs: Map<(int, int), int> = Map::new(
            |c: (int, int)| path.entry(c.0, c.1) is Some,
            |c: (int, int)| 0int,
        );
        proof {
            assert forall|x: int, y: int|
                #![trigger path.entry(x, y)]
                path.entry(x, y) is Some implies {
                    let d = path.entry(x, y)->0;
                    &&& ground.is_open(x, y)
                    &&& is_compass(d)
                    &&& corners_open(*ground, x, y, d)
                    &&& (in_goal(path.target_goal(), x + d.0, y + d.1) || path.entry(x + d.0, y + d.1) is Some)
                } by {
                assert(seeded_entry(goal, *ground, x, y) is Some);
            }
            assert(steps_to_covered(path)) by {
                reveal(steps_to_covered);
                assert forall|x: int, y: int|
                    #![trigger path.entry(x, y)]
                    path.entry(x, y) is Some && seed_direction(path.target_goal(), x, y) is None
                        implies path.entry(x + (path.entry(x, y)->0).0, y + (path.entry(x, y)->0).1) is Some by {
                    assert(seeded_entry(goal, *ground, x, y) is Some);
                }
            }
        }
        let mut index: usize = 0;
        let mut first: usize = 0;
        let mut done = false;
        while !done && frontier.len() > 0 && index < MAX_EXPANSIONS
            invariant
                ground.wf(),
                goal_wf(goal),
                path.wf(),
                path.w() == ground.w(),
                path.h() == ground.h(),
                path.target_goal() == goal,
                is_flow_field(path, *ground),
                steps_to_covered(path),
                ranked_by(path, costs),
                forall|j: int|
                    0 <= j < frontier.len() ==> costs[(#[trigger] frontier@[j]).pos()] == frontier@[j].moved(),
                forall|x: int, y: int|
                    #![trigger path.entry(x, y)]
                    seeded_entry(goal, *ground, x, y) is Some ==> path.entry(x, y) == seeded_entry(
                        goal,
                        *ground,
                        x,
                        y,
                    ),
                index <= MAX_EXPANSIONS,
                ground.w() <= i32::MAX,
                ground.h() <= i32::MAX,
                forall|j: int|
                    0 <= j < frontier.len() ==> {
                        &&& queued.contains((#[trigger] frontier@[j]).pos())
                        &&& 0 <= frontier@[j].moved() <= DIAGONAL_STEP_COST * index
                    },
                forall|a: int, b: int|
                    0 <= a < b < frontier.len() ==> (#[trigger] frontier@[a]).pos()
                        != (#[trigger] frontier@[b]).pos(),
                queued.finite(),
                queued.len() == frontier.len(),
                forall|c: (int, int)|
                    #[trigger] queued.contains(c) ==> path.entry(c.0, c.1) is Some && !expanded.contains(c),
                expanded.finite(),
                !done ==> expanded.len() == index,
                forall|c: (int, int)| #[trigger] expanded.contains(c) ==> path.entry(c.0, c.1) is Some,
                forall|x: int, y: int, k: int|
                    #![trigger expanded.contains((x, y)), neighbour_offset(k)]
                    expanded.contains((x, y)) && 0 <= k < 8 && can_step(*ground, x, y, neighbour_offset(k))
                        ==> path.entry(x + neighbour_offset(k).0, y + neighbour_offset(k).1) is Some,
                !done ==> forall|x: int, y: int|
                    #![trigger path.entry(x, y)]
                    path.entry(x, y) is Some ==> expanded.contains((x, y)) || queued.contains((x, y)),
                first <= start_positions.len(),
                forall|i: int|
                    0 <= i < first ==> path.entry(
                        (#[trigger] start_positions@[i]).x as int,
                        start_positions@[i].y as int,
                    ) is Some,
                done ==> first == start_positions.len(),
            decreases MAX_EXPANSIONS - index,
        {
            let bi = best_index(&frontier);
            let ghost f_before = frontier@;
            let item = frontier.remove(bi);
            let ipos = item.get_position();
            let px = ipos.x;
            let py = ipos.y;
            let ghost c = (px as int, py as int);
            proof {
                assert(item.pos() == c);
                assert(queued.contains(c));
                queued = queued.remove(c);
                assert(costs[c] == item.moved());
                assert forall|j: int| 0 <= j < frontier.len() implies queued.contains(
                    (#[trigger] frontier@[j]).pos(),
                ) && costs[frontier@[j].pos()] == frontier@[j].moved() by {
                    if j < bi {
                        assert(frontier@[j] == f_before[j]);
                    } else {
                        assert(frontier@[j] == f_before[j + 1]);
                    }
                }
                path.lemma_entry_in_bounds(px as int, py as int);
            }
            let mut k: usize = 0;
            while k < 8 && !done
                invariant
                    0 <= k <= 8,
                    ground.wf(),
                    goal_wf(goal),
                    path.wf(),
                    path.w() == ground.w(),
                    path.h() == ground.h(),
                    path.target_goal() == goal,
                    is_flow_field(path, *ground),
                    steps_to_covered(path),
                    ranked_by(path, costs),
                    forall|j: int|
                        0 <= j < frontier.len() ==> costs[(#[trigger] frontier@[j]).pos()]
                            == frontier@[j].moved(),
                    costs[c] == item.moved(),
                    forall|x: int, y: int|
                        #![trigger path.entry(x, y)]
                        seeded_entry(goal, *ground, x, y) is Some ==> path.entry(x, y) == seeded_entry(
                            goal,
                            *ground,
                            x,
                            y,
                        ),
                    index < MAX_EXPANSIONS,
                    ground.w() <= i32::MAX,
                    ground.h() <= i32::MAX,
                    c == (px as int, py as int),
                    0 <= px < ground.w(),
                    0 <= py < ground.h(),
                    path.entry(px as int, py as int) is Some,
                    !expanded.contains(c),
                    !queued.contains(c),
                    0 <= item.moved() <= DIAGONAL_STEP_COST * index,
                    forall|j: int|
                        0 <= j < frontier.len() ==> {
                            &&& queued.contains((#[trigger] frontier@[j]).pos())
                            &&& 0 <= frontier@[j].moved() <= DIAGONAL_STEP_COST * (index + 1)
                        },
                    forall|a: int, b: int|
                        0 <= a < b < frontier.len() ==> (#[trigger] frontier@[a]).pos()
                            != (#[trigger] frontier@[b]).pos(),
                    queued.finite(),
                    queued.len() == frontier.len(),
                    forall|c2: (int, int)|
                        #[trigger] queued.contains(c2) ==> path.entry(c2.0, c2.1) is Some
                            && !expanded.contains(c2),
                    expanded.finite(),
                    expanded.len() == index,
                    forall|c2: (int, int)| #[trigger] expanded.contains(c2) ==> path.entry(c2.0, c2.1) is Some,
                    forall|x: int, y: int, k2: int|
                        #![trigger expanded.contains((x, y)), neighbour_offset(k2)]
                        expanded.contains((x, y)) && 0 <= k2 < 8 && can_step(*ground, x, y, neighbour_offset(k2))
                            ==> path.entry(x + neighbour_offset(k2).0, y + neighbour_offset(k2).1) is Some,
                    !done ==> forall|k2: int|
                        #![trigger neighbour_offset(k2)]
                        0 <= k2 < k && can_step(*ground, px as int, py as int, neighbour_offset(k2))
                            ==> path.entry(px + neighbour_offset(k2).0, py + neighbour_offset(k2).1) is Some,
                    !done ==> forall|x: int, y: int|
                        #![trigger path.entry(x, y)]
                        path.entry(x, y) is Some ==> expanded.contains((x, y)) || queued.contains((x, y))
                            || (x, y) == c,
                    first <= start_positions.len(),
                    forall|i: int|
                        0 <= i < first ==> path.entry(
                            (#[trigger] start_positions@[i]).x as int,
                            start_positions@[i].y as int,
                        ) is Some,
                    done ==> first == start_positions.len(),
                decreases 8 - k,
            {
                let (ox, oy, step) = offset_of(k);
                let nx = px + ox;
                let ny = py + oy;
                let corners_ok = ox == 0 || oy == 0 || (!ground.blocked_at(px + ox, py)
                    && !ground.blocked_at(px, py + oy));
                let npos = Vec2i::new(nx, ny);
                let vacant = match path.get_direction(&npos) {
                    Some(_) => false,
                    None => true,
                };
                if !ground.blocked_at(nx, ny) && vacant && corners_ok {
                    let ghost path_before = path;
                    let ghost costs_before = costs;
                    path.set_direction(&npos, Vec2i::new(-ox, -oy));
                    proof {
                        let n = (nx as int, ny as int);
                        let d = (-ox as int, -oy as int);
                        costs = costs.insert(n, item.moved() + step);
                        assert forall|a: int, b: int|
                            #![trigger path.entry(a, b)]
                            path.entry(a, b) == if a == n.0 && b == n.1 {
                                Some(d)
                            } else {
                                path_before.entry(a, b)
                            } by {
                        }
                        lemma_cover_keeps_field(
                            path_before,
                            path,
                            *ground,
                            costs_before,
                            costs,
                            n,
                            d,
                            c,
                            item.moved() + step,
                        );
                        assert(!queued.contains(n));
                        assert(!expanded.contains(n));
                    }
                    first = advance_first(&path, start_positions, first);
                    if first == start_positions.len() {
                        done = true;
                    } else {
                        if target.x == nx && target.y == ny {
                            target = start_positions[first];
                            reweight_all(&mut frontier, &target);
                        }
                        let ghost front_before = frontier@;
                        frontier.push(WPathItem::new((nx, ny), item.get_move_cost() + step, &target));
                        proof {
                            queued = queued.insert((nx as int, ny as int));
                            assert(item.moved() + step <= DIAGONAL_STEP_COST * (index + 1)) by (nonlinear_arith)
                                requires
                                    item.moved() <= DIAGONAL_STEP_COST * index,
                                    step <= DIAGONAL_STEP_COST,
                            ;
                            assert forall|a: int, b: int|
                                0 <= a < b < frontier.len() implies (#[trigger] frontier@[a]).pos()
                                != (#[trigger] frontier@[b]).pos() by {
                                if b == front_before.len() {
                                    assert(front_before[a] == frontier@[a]);
                                    assert(queued.contains(front_before[a].pos()) || front_before[a].pos() == (nx as int, ny as int));
                                }
                            }
                        }
                    }
                }
                k = k + 1;
            }
            proof {
                if !done {
                    assert forall|x: int, y: int, k2: int|
                        #![trigger expanded.insert(c).contains((x, y)), neighbour_offset(k2)]
                        expanded.insert(c).contains((x, y)) && 0 <= k2 < 8 && can_step(*ground, x, y, neighbour_offset(k2))
                            implies path.entry(x + neighbour_offset(k2).0, y + neighbour_offset(k2).1) is Some by {
                        if (x, y) != c {
                            assert(expanded.contains((x, y)));
                        }
                    }
                    expanded = expanded.insert(c);
                }
            }
            index = index + 1;
        }
        proof {
            assert forall|x: int, y: int|
                #![trigger path.entry(x, y)]
                path.entry(x, y) is Some implies reaches_goal(path, x, y) by {
                lemma_ranked_leads_to_goal(path, costs, x, y);
            }
            if !done {
                if frontier.len() == 0 {
                    queued.lemma_len0_is_empty();
                    assert forall|x: int, y: int, k: int|
                        #![trigger path.entry(x, y), neighbour_offset(k)]
                        path.entry(x, y) is Some && 0 <= k < 8 && can_step(*ground, x, y, neighbour_offset(k))
                            implies path.entry(x + neighbour_offset(k).0, y + neighbour_offset(k).1) is Some by {
                        assert(!queued.contains((x, y)));
                        assert(expanded.contains((x, y)));
                    }
                } else {
                    assert(expanded.finite() && expanded.len() >= MAX_EXPANSIONS && forall|c2: (int, int)|
                        #[trigger] expanded.contains(c2) ==> path.entry(c2.0, c2.1) is Some);
                }
            }
        }
        Some(path)
    }

    /// A field toward the single cell `goal` from the single cell `start`.
    pub fn find_path_simple(&self, ground: &Ground, goal: Vec2i, start: Vec2i) -> (r: Option<Path>)
        requires
            ground.wf(),
        ensures
            r matches Some(p) && is_search_result(p, *ground, PathGoal::Point { pos: goal }, seq![start]),
    {
        let mut start_positions: Vec<Vec2i> = Vec::new();
        start_positions.push(start);
        assert(start_positions@ =~= seq![start]);
        self.find_path(ground, PathGoal::Point { pos: goal }, &start_positions)
    }
}

} // verus!
