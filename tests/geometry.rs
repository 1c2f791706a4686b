use dankgine::rectangle::Rectangle;
use dankgine::vector::{isqrt, Vec2, COORD_LIMIT};
use dankgine::verlet::VerletObject;

#[test]
fn vector_arithmetic() {
    let a = Vec2::new(3, -4);
    let b = Vec2::new(10, 20);
    assert_eq!(a.add(b), Vec2::new(13, 16));
    assert_eq!(b.add(a), Vec2::new(13, 16));
    assert_eq!(a.sub(b), Vec2::new(-7, -24));
    assert_eq!(a.mul(3), Vec2::new(9, -12));
    assert_eq!(Vec2::new(7, -7).div(2), Vec2::new(3, -3));
    assert_eq!(Vec2::new(7, -7).div(-2), Vec2::new(-3, 3));
}

#[test]
fn vector_length_rounds_down() {
    assert_eq!(Vec2::new(3, -4).length(), 5);
    assert_eq!(Vec2::new(0, 0).length(), 0);
    assert_eq!(Vec2::new(1, 1).length(), 1);
    assert_eq!(Vec2::new(i64::MIN, i64::MIN).length(), 13043817825332782212);
    assert_eq!(isqrt(99), 9);
    assert_eq!(isqrt(100), 10);
    assert_eq!(isqrt(u128::MAX), u64::MAX);
}

#[test]
fn rectangle_contains_and_intersects_are_closed() {
    let r = Rectangle::new(0, 0, 10, 10);
    assert!(r.contains(Vec2::new(0, 0)));
    assert!(r.contains(Vec2::new(10, 10)));
    assert!(!r.contains(Vec2::new(11, 5)));
    assert!(r.intersects(&Rectangle::new(10, 10, 5, 5)));
    assert!(r.intersects(&Rectangle::new(3, 3, 0, 0)));
    assert!(!r.intersects(&Rectangle::new(11, 0, 5, 5)));
}

#[test]
fn verlet_step_keeps_velocity_and_clears_acceleration() {
    let mut o = VerletObject::new(Vec2::new(100, 100), 5);
    o.old_position = Vec2::new(90, 105);
    o.accelerate(Vec2::new(1_000_000_000, 0));
    o.accelerate(Vec2::new(0, -2_000_000_000));
    assert_eq!(o.acceleration, Vec2::new(1_000_000_000, -2_000_000_000));
    o.update_position(1000);
    // velocity (10, -5); drift 1e9 * 1e6 / 1e12 = 1000 and -2000.
    assert_eq!(o.current_position, Vec2::new(1110, -1905));
    assert_eq!(o.old_position, Vec2::new(100, 100));
    assert_eq!(o.acceleration, Vec2::new(0, 0));
}

#[test]
fn verlet_positions_saturate_at_world_edge() {
    let mut o = VerletObject::new(Vec2::new(COORD_LIMIT, 0), 5);
    o.old_position = Vec2::new(COORD_LIMIT - 1000, 0);
    o.update_position(0);
    assert_eq!(o.current_position, Vec2::new(COORD_LIMIT, 0));
    o.accelerate(Vec2::new(COORD_LIMIT, 0));
    o.accelerate(Vec2::new(COORD_LIMIT, 0));
    assert_eq!(o.acceleration, Vec2::new(COORD_LIMIT, 0));
}
