use dankgine::collisions::{brute_force_solve, build_index, quadtree_solve, solve};
use dankgine::rectangle::Rectangle;
use dankgine::narrow_phase::solve_two_circles;
use dankgine::sweep_and_prune;
use dankgine::utils::get_two_mut;
use dankgine::vector::{Vec2, UNITS_PER_PIXEL};
use dankgine::verlet::VerletObject;

fn px(v: f64) -> i64 {
    (v * UNITS_PER_PIXEL as f64).round() as i64
}

fn object(x: f64, y: f64, radius: f64) -> VerletObject {
    VerletObject::new(Vec2::new(px(x), px(y)), px(radius))
}

fn distance(a: &VerletObject, b: &VerletObject) -> f64 {
    let dx = (a.current_position.x - b.current_position.x) as f64;
    let dy = (a.current_position.y - b.current_position.y) as f64;
    (dx * dx + dy * dy).sqrt()
}

#[test]
fn solve_one_object() {
    let obj = object(300.0, 300.0, 5.0);
    let mut bodies = Vec::new();

    bodies.push(obj);

    quadtree_solve(&mut bodies);

    println!("{:?}", obj);
    assert_eq!(bodies[0], obj);
}

#[test]
fn solve_two_colliding_objects() {
    let obj1 = object(300.0, 300.0, 10.0);
    let obj2 = object(295.0, 300.0, 10.0);
    let mut bodies = Vec::new();

    bodies.push(obj1);
    bodies.push(obj2);

    quadtree_solve(&mut bodies);
    assert!(distance(&bodies[0], &bodies[1]) >= px(20.0) as f64);
}

#[test]
fn narrow_phase_pushes_symmetrically_to_radius_sum() {
    let mut bodies = vec![object(100.0, 100.0, 5.0), object(103.0, 104.0, 5.0)];
    let before = bodies.clone();
    solve_two_circles(0, 1, &mut bodies);
    let da = (
        bodies[0].current_position.x - before[0].current_position.x,
        bodies[0].current_position.y - before[0].current_position.y,
    );
    let db = (
        bodies[1].current_position.x - before[1].current_position.x,
        bodies[1].current_position.y - before[1].current_position.y,
    );
    assert_eq!(da, (-db.0, -db.1));
    // axis (-3, -4) px at distance 5 px, pushed out to 10 px: each moves 2.5 px.
    assert_eq!(da, (px(-1.5), px(-2.0)));
    assert_eq!(distance(&bodies[0], &bodies[1]), px(10.0) as f64);
}

#[test]
fn narrow_phase_skips_coincident_and_separate_pairs() {
    let mut same = vec![object(50.0, 50.0, 5.0), object(50.0, 50.0, 5.0)];
    let copy = same.clone();
    solve_two_circles(0, 1, &mut same);
    assert_eq!(same, copy);

    let mut apart = vec![object(50.0, 50.0, 5.0), object(60.0, 50.0, 5.0)];
    let copy = apart.clone();
    solve_two_circles(0, 1, &mut apart);
    assert_eq!(apart, copy);

    let mut one = vec![object(50.0, 50.0, 5.0)];
    solve_two_circles(0, 0, &mut one);
    solve_two_circles(0, 3, &mut one);
    assert_eq!(one[0], object(50.0, 50.0, 5.0));
}

#[test]
fn get_two_mut_gives_distinct_elements() {
    let mut v = vec![10, 20, 30, 40];
    {
        let (a, b) = get_two_mut(3, 1, &mut v).unwrap();
        assert_eq!((*a, *b), (40, 20));
        *a = 4;
        *b = 2;
    }
    {
        let (a, b) = get_two_mut(0, 2, &mut v).unwrap();
        assert_eq!((*a, *b), (10, 30));
        *a += 1;
        *b += 3;
    }
    assert_eq!(v, vec![11, 2, 33, 4]);
    assert!(get_two_mut(1, 1, &mut v).is_none());
    assert!(get_two_mut(0, 4, &mut v).is_none());
    assert!(get_two_mut(9, 0, &mut v).is_none());
}

#[test]
fn brute_force_separates_overlapping_pair() {
    let mut bodies = vec![object(100.0, 100.0, 5.0), object(200.0, 200.0, 5.0), object(106.0, 100.0, 5.0)];
    brute_force_solve(&mut bodies);
    assert!(distance(&bodies[0], &bodies[2]) >= px(10.0) as f64);
    assert_eq!(bodies[1], object(200.0, 200.0, 5.0));
}

#[test]
fn sweep_and_prune_resolves_last_cluster() {
    // Clusters by x: {0} alone on the left, then {1, 2} overlapping on the right.
    let mut bodies = vec![object(10.0, 50.0, 5.0), object(200.0, 50.0, 5.0), object(204.0, 50.0, 5.0)];
    sweep_and_prune::solve(&mut bodies);
    assert_eq!(bodies[0], object(10.0, 50.0, 5.0));
    assert_eq!(bodies[1].current_position, Vec2::new(px(197.0), px(50.0)));
    assert_eq!(bodies[2].current_position, Vec2::new(px(207.0), px(50.0)));
}

#[test]
fn sweep_and_prune_keeps_particle_order() {
    let mut bodies = vec![object(300.0, 50.0, 5.0), object(100.0, 50.0, 5.0), object(296.0, 50.0, 5.0)];
    solve(&mut bodies);
    assert_eq!(bodies[1], object(100.0, 50.0, 5.0));
    assert_eq!(bodies[0].current_position, Vec2::new(px(303.0), px(50.0)));
    assert_eq!(bodies[2].current_position, Vec2::new(px(293.0), px(50.0)));
    assert_eq!(bodies[0].radius, px(5.0));
}

#[test]
fn sweep_and_prune_ignores_vertically_separate_pair() {
    let mut bodies = vec![object(100.0, 50.0, 5.0), object(102.0, 150.0, 5.0)];
    let copy = bodies.clone();
    sweep_and_prune::solve(&mut bodies);
    assert_eq!(bodies, copy);
}

#[test]
fn quadtree_and_brute_force_agree_on_a_lone_pair() {
    let start = vec![object(100.0, 100.0, 5.0), object(104.0, 103.0, 5.0)];
    let mut a = start.clone();
    let mut b = start.clone();
    quadtree_solve(&mut a);
    brute_force_solve(&mut b);
    assert_eq!(a, b);
    assert_ne!(a, start);
}

#[test]
fn built_index_answers_like_a_scan() {
    let bodies = vec![
        object(10.0, 10.0, 1.0),
        object(590.0, 20.0, 1.0),
        object(300.0, 300.0, 1.0),
        object(305.0, 290.0, 1.0),
        object(700.0, 300.0, 1.0),
        object(299.0, 310.0, 1.0),
    ];
    let tree = build_index(&bodies);
    let range = Rectangle::new(px(290.0), px(285.0), px(20.0), px(30.0));
    let mut found = tree.query(&range);
    found.sort();
    found.dedup();
    assert_eq!(found, vec![2, 3, 5]);
    let everything = Rectangle::new(px(-1000.0), px(-1000.0), px(3000.0), px(3000.0));
    let mut all = tree.query(&everything);
    all.sort();
    all.dedup();
    assert_eq!(all, vec![0, 1, 2, 3, 5]);
}

#[test]
fn near_coincident_pair_is_pushed_to_contact_distance() {
    let r = px(5.0);
    let mut bodies = vec![
        VerletObject::new(Vec2::new(1000, 1000), r),
        VerletObject::new(Vec2::new(1001, 1001), r),
    ];
    let before = bodies.clone();
    solve_two_circles(0, 1, &mut bodies);
    let m = (2 * r) as f64;
    let d = distance(&bodies[0], &bodies[1]);
    assert!(d >= m - 3.0 && d < m + 1.0, "distance {} vs {}", d, m);
    let da = bodies[0].current_position.x - before[0].current_position.x;
    let db = bodies[1].current_position.x - before[1].current_position.x;
    assert_eq!(da, -db);
}

#[test]
fn pushes_restore_contact_for_many_offsets() {
    let r = px(5.0);
    for (dx, dy) in [(1, 0), (0, 3), (7, 11), (-40, 913), (300000, -2), (123456, 200000)] {
        let mut bodies = vec![
            VerletObject::new(Vec2::new(0, 0), r),
            VerletObject::new(Vec2::new(dx, dy), r + 17),
        ];
        solve_two_circles(1, 0, &mut bodies);
        let m = (2 * r + 17) as f64;
        let d = distance(&bodies[0], &bodies[1]);
        assert!(d >= m - 3.0 && d < m + 1.0, "offset ({}, {}): distance {} vs {}", dx, dy, d, m);
    }
}
