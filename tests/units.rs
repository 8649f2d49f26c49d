use flowfield::entity::EntityType;
use flowfield::health::Health;
use flowfield::resources::Resources;
use flowfield::team::Team;

#[test]
fn health_heals_up_to_max_and_dies() {
    let mut h = Health::new_with_health(5, 10);
    h.increment(3);
    assert!(h.is_alive());
    h.increment(100);
    h.take_damage(10);
    assert!(!h.is_alive());
    let mut full = Health::new(4);
    full.take_damage(3);
    assert!(full.is_alive());
}

#[test]
fn resources_arithmetic() {
    let mut r = Resources::new(50);
    assert!(r.can_afford(&Resources::new(50)));
    assert!(!r.can_afford(&Resources::new(51)));
    r.decrement(&Resources::new(20));
    assert_eq!(r.gold, 30);
    r.increment(&Resources::new(5));
    assert_eq!(r.gold, 35);
    assert_eq!(Resources::new_empty().gold, 0);
}

#[test]
fn team_starts_with_gold() {
    let mut t = Team::new(3);
    assert_eq!(t.get_id(), 3);
    assert_eq!(t.get_resources().gold, 1000);
    t.decrement_resources(&Resources::new(300));
    t.increment_resources(&Resources::new(50));
    assert_eq!(t.get_resources().gold, 750);
}

#[test]
fn entity_types_differ() {
    assert_ne!(EntityType::Melee, EntityType::Worker);
    assert_eq!(EntityType::Ranged, EntityType::Ranged.clone());
}
