use flowfield::ground::{Ground, GroundType};
use flowfield::path_finder::{isqrt, Path, PathFinder, PathGoal, WPathItem};
use flowfield::vec::Vec2i;

fn rect(x: i32, y: i32, w: i32, h: i32) -> PathGoal {
    PathGoal::Rect { pos: Vec2i::new(x, y), size: Vec2i::new(w, h) }
}

fn in_rect(goal: &PathGoal, x: i32, y: i32) -> bool {
    let (gx, gy, gw, gh) = match goal {
        PathGoal::Point { pos } => (pos.x, pos.y, 1, 1),
        PathGoal::Rect { pos, size } => (pos.x, pos.y, size.x, size.y),
    };
    gx <= x && x < gx + gw && gy <= y && y < gy + gh
}

fn wall(ground: &mut Ground, x: i32, y: i32) {
    ground.set_at(x, y, GroundType::Wall);
}

fn entries(path: &Path) -> Vec<(Vec2i, Vec2i)> {
    let mut out = Vec::new();
    for y in 0..path.get_height() {
        for x in 0..path.get_width() {
            let c = Vec2i::new(x, y);
            if let Some(d) = path.get_direction(&c) {
                out.push((c, d));
            }
        }
    }
    out
}

#[test]
fn seeds_point_into_rect_goal() {
    let ground = Ground::new_open(10, 10);
    let goal = rect(5, 5, 1, 1);
    let path = PathFinder::new()
        .find_path(&ground, goal, &vec![Vec2i::new(0, 0)])
        .unwrap();
    assert_eq!(path.get_direction(&Vec2i::new(4, 5)), Some(Vec2i::new(1, 0)));
    assert_eq!(path.get_direction(&Vec2i::new(5, 4)), Some(Vec2i::new(0, 1)));
}

#[test]
fn seeds_on_all_four_sides() {
    let ground = Ground::new_open(12, 12);
    let goal = rect(4, 5, 3, 2);
    let path = PathFinder::new()
        .find_path(&ground, goal, &vec![Vec2i::new(0, 0)])
        .unwrap();
    for y in 5..7 {
        assert_eq!(path.get_direction(&Vec2i::new(3, y)), Some(Vec2i::new(1, 0)));
        assert_eq!(path.get_direction(&Vec2i::new(7, y)), Some(Vec2i::new(-1, 0)));
    }
    for x in 4..7 {
        assert_eq!(path.get_direction(&Vec2i::new(x, 4)), Some(Vec2i::new(0, 1)));
        assert_eq!(path.get_direction(&Vec2i::new(x, 7)), Some(Vec2i::new(0, -1)));
    }
}

#[test]
fn open_grid_covers_far_start() {
    let ground = Ground::new_open(10, 10);
    let goal = rect(8, 8, 1, 1);
    let path = PathFinder::new().find_path(&ground, goal, &vec![Vec2i::new(0, 0)]);
    assert!(path.is_some());
    assert!(path.unwrap().get_direction(&Vec2i::new(0, 0)).is_some());
}

#[test]
fn empty_start_set_gives_none() {
    let ground = Ground::new_open(10, 10);
    let path = PathFinder::new().find_path(&ground, rect(2, 2, 1, 1), &Vec::new());
    assert!(path.is_none());
}

#[test]
fn fresh_directions_are_unit_grid_steps() {
    let mut ground = Ground::new_open(15, 15);
    for y in 2..12 {
        wall(&mut ground, 7, y);
    }
    wall(&mut ground, 3, 3);
    wall(&mut ground, 4, 4);
    let goal = rect(11, 6, 2, 2);
    let path = PathFinder::new()
        .find_path(&ground, goal, &vec![Vec2i::new(1, 1), Vec2i::new(2, 13)])
        .unwrap();
    let all = entries(&path);
    assert!(!all.is_empty());
    for (_, d) in all {
        assert!(d.x >= -1 && d.x <= 1 && d.y >= -1 && d.y <= 1);
        assert!(d.x != 0 || d.y != 0);
        let (fx, fy) = (d.x as f32, d.y as f32);
        let len = (fx * fx + fy * fy).sqrt();
        let (ux, uy) = (fx / len, fy / len);
        assert!(((ux * ux + uy * uy).sqrt() - 1.0).abs() < 1e-4);
    }
}

#[test]
fn diagonal_gap_between_blocked_corners_is_not_crossed() {
    let mut ground = Ground::new_open(3, 3);
    wall(&mut ground, 2, 1);
    wall(&mut ground, 1, 2);
    let goal = rect(0, 0, 1, 1);
    let path = PathFinder::new()
        .find_path(&ground, goal, &vec![Vec2i::new(2, 2)])
        .unwrap();
    assert!(path.get_direction(&Vec2i::new(1, 1)).is_some());
    assert_eq!(path.get_direction(&Vec2i::new(2, 2)), None);
}

#[test]
fn no_entry_cuts_a_corner() {
    let mut ground = Ground::new_open(8, 8);
    wall(&mut ground, 3, 3);
    wall(&mut ground, 4, 2);
    wall(&mut ground, 2, 5);
    let goal = rect(6, 6, 1, 1);
    let path = PathFinder::new()
        .find_path(&ground, goal, &vec![Vec2i::new(0, 0), Vec2i::new(0, 7)])
        .unwrap();
    for (c, d) in entries(&path) {
        assert!(!ground.blocked_at(c.x, c.y));
        if d.x != 0 && d.y != 0 {
            assert!(!ground.blocked_at(c.x + d.x, c.y));
            assert!(!ground.blocked_at(c.x, c.y + d.y));
        }
    }
}

#[test]
fn sealed_start_is_left_out() {
    let mut ground = Ground::new_open(10, 10);
    wall(&mut ground, 6, 7);
    wall(&mut ground, 8, 7);
    wall(&mut ground, 7, 6);
    wall(&mut ground, 7, 8);
    let goal = rect(4, 2, 1, 1);
    let path = PathFinder::new().find_path(
        &ground,
        goal,
        &vec![Vec2i::new(1, 1), Vec2i::new(7, 7)],
    );
    let path = path.unwrap();
    assert!(path.get_direction(&Vec2i::new(1, 1)).is_some());
    assert_eq!(path.get_direction(&Vec2i::new(7, 7)), None);
}

#[test]
fn following_directions_enters_the_goal() {
    let mut ground = Ground::new_open(12, 9);
    for y in 0..7 {
        wall(&mut ground, 5, y);
    }
    let goal = rect(9, 1, 2, 2);
    let start = Vec2i::new(1, 1);
    let path = PathFinder::new().find_path(&ground, goal, &vec![start]).unwrap();
    let mut c = start;
    let mut steps = 0;
    while !in_rect(&goal, c.x, c.y) {
        let d = path.get_direction(&c).expect("covered cell");
        c = Vec2i::new(c.x + d.x, c.y + d.y);
        steps += 1;
        assert!(steps < 200);
    }
    assert!(steps > 8);
}

#[test]
fn start_on_a_seed_cell() {
    let ground = Ground::new_open(6, 6);
    let goal = rect(2, 2, 1, 1);
    let path = PathFinder::new()
        .find_path(&ground, goal, &vec![Vec2i::new(1, 2)])
        .unwrap();
    assert_eq!(path.get_direction(&Vec2i::new(1, 2)), Some(Vec2i::new(1, 0)));
}

#[test]
fn goal_at_map_edge_skips_blocked_sides() {
    let ground = Ground::new_open(5, 5);
    let goal = rect(0, 0, 1, 1);
    let path = PathFinder::new()
        .find_path(&ground, goal, &vec![Vec2i::new(4, 4)])
        .unwrap();
    assert_eq!(path.get_direction(&Vec2i::new(1, 0)), Some(Vec2i::new(-1, 0)));
    assert_eq!(path.get_direction(&Vec2i::new(0, 1)), Some(Vec2i::new(0, -1)));
    assert!(path.get_direction(&Vec2i::new(4, 4)).is_some());
}

#[test]
fn simple_search_to_a_point() {
    let ground = Ground::new_open(7, 7);
    let path = PathFinder::new()
        .find_path_simple(&ground, Vec2i::new(5, 5), Vec2i::new(0, 0))
        .unwrap();
    assert_eq!(path.get_goal(), PathGoal::Point { pos: Vec2i::new(5, 5) });
    assert!(path.get_direction(&Vec2i::new(0, 0)).is_some());
    assert_eq!(path.get_direction(&Vec2i::new(4, 5)), Some(Vec2i::new(1, 0)));
}

#[test]
fn integer_square_roots() {
    assert_eq!(isqrt(0), 0);
    assert_eq!(isqrt(1), 1);
    assert_eq!(isqrt(15), 3);
    assert_eq!(isqrt(16), 4);
    assert_eq!(isqrt(20000), 141);
    assert_eq!(isqrt(1u128 << 78), 1u64 << 39);
}

#[test]
fn item_priority_is_scaled_distance_plus_cost() {
    let item = WPathItem::new((3, 4), 7, &Vec2i::new(0, 0));
    assert_eq!(item.get_cost(), 507);
    assert_eq!(item.get_move_cost(), 7);
    assert_eq!(item.get_position(), Vec2i::new(3, 4));
    let diag = WPathItem::new((1, 1), 0, &Vec2i::new(0, 0));
    assert_eq!(diag.get_cost(), 141);
}

#[test]
fn reweight_uses_new_target() {
    let mut item = WPathItem::new((3, 4), 100, &Vec2i::new(0, 0));
    item.reweight(&Vec2i::new(3, 1));
    assert_eq!(item.get_cost(), 400);
    assert_eq!(item.get_move_cost(), 100);
}

#[test]
fn orienting_pairs_for_diagonal_class() {
    let mut p = Path::new(5, 5, rect(4, 4, 1, 1));
    p.set_direction(&Vec2i::new(1, 1), Vec2i::new(1, 1));
    p.set_direction(&Vec2i::new(2, 1), Vec2i::new(0, 1));
    p.set_direction(&Vec2i::new(1, 2), Vec2i::new(1, 0));
    p.set_direction(&Vec2i::new(2, 2), Vec2i::new(1, 1));
    let pairs = p.orienting_pairs(&Vec2i::new(1, 1));
    assert_eq!(
        pairs,
        vec![
            (Vec2i::new(2, 1), Vec2i::new(1, 2)),
            (Vec2i::new(2, 2), Vec2i::new(1, 2)),
            (Vec2i::new(2, 1), Vec2i::new(2, 2)),
        ]
    );
    let mut q = Path::new(5, 5, rect(4, 4, 1, 1));
    q.set_direction(&Vec2i::new(1, 1), Vec2i::new(1, 1));
    q.set_direction(&Vec2i::new(2, 1), Vec2i::new(0, 1));
    assert!(q.orienting_pairs(&Vec2i::new(1, 1)).is_empty());
}

#[test]
fn orienting_pairs_for_straight_class() {
    let mut p = Path::new(5, 5, rect(4, 4, 1, 1));
    p.set_direction(&Vec2i::new(2, 2), Vec2i::new(0, 1));
    p.set_direction(&Vec2i::new(2, 3), Vec2i::new(1, 1));
    p.set_direction(&Vec2i::new(3, 2), Vec2i::new(0, 1));
    p.set_direction(&Vec2i::new(3, 3), Vec2i::new(1, 0));
    let pairs = p.orienting_pairs(&Vec2i::new(2, 2));
    assert_eq!(pairs, vec![(Vec2i::new(2, 3), Vec2i::new(3, 2))]);
    assert!(p.orienting_pairs(&Vec2i::new(0, 0)).is_empty());
    let mut r = Path::new(5, 5, rect(4, 4, 1, 1));
    r.set_direction(&Vec2i::new(2, 2), Vec2i::new(-1, 0));
    r.set_direction(&Vec2i::new(1, 2), Vec2i::new(-1, -1));
    r.set_direction(&Vec2i::new(2, 1), Vec2i::new(0, 1));
    r.set_direction(&Vec2i::new(1, 1), Vec2i::new(0, 1));
    assert_eq!(
        r.orienting_pairs(&Vec2i::new(2, 2)),
        vec![(Vec2i::new(1, 2), Vec2i::new(2, 1))]
    );
}

#[test]
fn retargets_until_every_start_is_covered() {
    let mut ground = Ground::new_open(20, 16);
    for x in 3..17 {
        wall(&mut ground, x, 8);
    }
    let goal = rect(9, 3, 2, 2);
    let starts = vec![
        Vec2i::new(0, 0),
        Vec2i::new(19, 15),
        Vec2i::new(0, 15),
        Vec2i::new(19, 0),
        Vec2i::new(0, 0),
    ];
    let path = PathFinder::new().find_path(&ground, goal, &starts).unwrap();
    for s in &starts {
        assert!(path.get_direction(s).is_some());
    }
}

#[test]
fn unreachable_start_leaves_a_closed_field() {
    let mut ground = Ground::new_open(9, 9);
    for i in 0..9 {
        wall(&mut ground, 4, i);
    }
    let goal = rect(1, 4, 1, 1);
    let path = PathFinder::new()
        .find_path(&ground, goal, &vec![Vec2i::new(7, 7)])
        .unwrap();
    assert_eq!(path.get_direction(&Vec2i::new(7, 7)), None);
    let moves = [(-1, 0), (1, 0), (0, -1), (0, 1), (1, 1), (1, -1), (-1, 1), (-1, -1)];
    let mut covered = 0;
    for (c, _) in entries(&path) {
        covered += 1;
        assert!(c.x < 4);
        for (ox, oy) in moves {
            let open = !ground.blocked_at(c.x + ox, c.y + oy);
            let corners = ox == 0
                || oy == 0
                || (!ground.blocked_at(c.x + ox, c.y) && !ground.blocked_at(c.x, c.y + oy));
            if open && corners {
                assert!(path.get_direction(&Vec2i::new(c.x + ox, c.y + oy)).is_some());
            }
        }
    }
    assert_eq!(covered, 4 * 9);
}

#[test]
fn walled_cell_next_to_nothing_is_uncovered() {
    let mut ground = Ground::new_open(7, 7);
    wall(&mut ground, 2, 3);
    wall(&mut ground, 4, 3);
    wall(&mut ground, 3, 2);
    wall(&mut ground, 3, 4);
    let path = PathFinder::new()
        .find_path(&ground, rect(6, 6, 1, 1), &vec![Vec2i::new(3, 3)])
        .unwrap();
    assert_eq!(path.get_direction(&Vec2i::new(3, 3)), None);
    assert!(path.get_direction(&Vec2i::new(2, 2)).is_some());
}

#[test]
fn non_seed_cells_point_at_covered_cells() {
    let mut ground = Ground::new_open(12, 12);
    for y in 2..10 {
        wall(&mut ground, 6, y);
    }
    let goal = rect(9, 5, 2, 2);
    let path = PathFinder::new()
        .find_path(&ground, goal, &vec![Vec2i::new(1, 1), Vec2i::new(2, 10)])
        .unwrap();
    for (c, d) in entries(&path) {
        let seed = (c.x == 8 || c.x == 11) && (5..7).contains(&c.y)
            || (c.y == 4 || c.y == 7) && (9..11).contains(&c.x);
        if !seed {
            assert!(path.get_direction(&Vec2i::new(c.x + d.x, c.y + d.y)).is_some());
        }
    }
}
