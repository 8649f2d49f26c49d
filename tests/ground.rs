use flowfield::ground::{Ground, GroundType, GROUND_HEIGHT, GROUND_WIDTH};
use flowfield::vec::Vec2i;

#[test]
fn open_ground_has_size_and_empty_tiles() {
    let g = Ground::new_open(4, 3);
    assert_eq!(g.get_width(), 4);
    assert_eq!(g.get_height(), 3);
    for y in 0..3 {
        for x in 0..4 {
            assert_eq!(g.get_at(x, y), GroundType::Empty);
            assert!(!g.blocked_at(x, y));
        }
    }
}

#[test]
fn off_map_is_wall() {
    let g = Ground::new_open(4, 3);
    assert_eq!(g.get_at(-1, 0), GroundType::Wall);
    assert_eq!(g.get_at(4, 0), GroundType::Wall);
    assert_eq!(g.get_at(0, 3), GroundType::Wall);
    assert!(g.blocked_at(0, -1));
}

#[test]
fn set_at_changes_one_tile() {
    let mut g = Ground::new_open(4, 3);
    g.set_at(2, 1, GroundType::Gold);
    g.set_at(9, 9, GroundType::Wall);
    assert_eq!(g.get_at(2, 1), GroundType::Gold);
    assert!(g.blocked_at(2, 1));
    assert_eq!(g.get_at(1, 2), GroundType::Empty);
    assert_eq!(g.get_at(3, 0), GroundType::Empty);
}

#[test]
fn generated_ground_has_wall_border() {
    let g = Ground::new();
    assert_eq!(g.get_width(), GROUND_WIDTH);
    assert_eq!(g.get_height(), GROUND_HEIGHT);
    for x in 0..GROUND_WIDTH {
        assert_eq!(g.get_at(x, 0), GroundType::Wall);
        assert_eq!(g.get_at(x, GROUND_HEIGHT - 1), GroundType::Wall);
    }
    for y in 0..GROUND_HEIGHT {
        assert_eq!(g.get_at(0, y), GroundType::Wall);
        assert_eq!(g.get_at(GROUND_WIDTH - 1, y), GroundType::Wall);
    }
}

#[test]
fn nearest_unblocked_scans_rings() {
    let mut g = Ground::new_open(10, 10);
    for y in 0..10 {
        for x in 0..10 {
            g.set_at(x, y, GroundType::Wall);
        }
    }
    g.set_at(7, 5, GroundType::Empty);
    g.set_at(3, 6, GroundType::Empty);
    assert_eq!(g.nearest_unblocked(&Vec2i::new(5, 5)), Some(Vec2i::new(3, 6)));
    g.set_at(4, 4, GroundType::Empty);
    assert_eq!(g.nearest_unblocked(&Vec2i::new(5, 5)), Some(Vec2i::new(4, 4)));
}

#[test]
fn nearest_unblocked_none_when_all_blocked() {
    let mut g = Ground::new_open(3, 3);
    for y in 0..3 {
        for x in 0..3 {
            g.set_at(x, y, GroundType::Wall);
        }
    }
    assert_eq!(g.nearest_unblocked(&Vec2i::new(1, 1)), None);
}
