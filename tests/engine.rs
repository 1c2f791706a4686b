use dankgine::engine::{add_body, update, SpawnError, State, FRAME_MICROS};
use dankgine::solver::{BroadPhase, Solver};
use dankgine::vector::{Vec2, COORD_LIMIT, UNITS_PER_PIXEL};
use dankgine::verlet::VerletObject;

fn px(v: f64) -> i64 {
    (v * UNITS_PER_PIXEL as f64).round() as i64
}

fn distance_to(p: Vec2, cx: f64, cy: f64) -> f64 {
    let dx = p.x as f64 - px(cx) as f64;
    let dy = p.y as f64 - px(cy) as f64;
    (dx * dx + dy * dy).sqrt()
}

#[test]
fn two_close_spawns_are_apart_after_one_step() {
    let mut state = State::new();
    add_body(&mut state, px(300.0), px(50.0), px(5.0)).unwrap();
    add_body(&mut state, px(305.0), px(50.0), px(5.0)).unwrap();
    let snapshot = update(&mut state);
    let dx = (snapshot[0].current_position.x - snapshot[1].current_position.x) as f64;
    let dy = (snapshot[0].current_position.y - snapshot[1].current_position.y) as f64;
    assert!((dx * dx + dy * dy).sqrt() >= px(10.0) as f64);
}

#[test]
fn lone_particle_settles_on_arena_edge() {
    let mut state = State::new();
    add_body(&mut state, px(300.0), px(300.0), px(5.0)).unwrap();
    for _ in 0..600 {
        update(&mut state);
    }
    let d1 = distance_to(state.bodies[0].current_position, 300.0, 300.0);
    assert!((d1 - px(295.0) as f64).abs() <= px(0.05) as f64);
    for _ in 0..60 {
        update(&mut state);
    }
    let d2 = distance_to(state.bodies[0].current_position, 300.0, 300.0);
    assert!((d2 - px(295.0) as f64).abs() <= px(0.05) as f64);
    assert!(state.bodies[0].current_position.y > px(590.0));
}

#[test]
fn identical_runs_give_identical_snapshots() {
    let spawns = [(300.0, 50.0, 5.0), (305.0, 50.0, 5.0), (310.0, 60.0, 8.0), (150.0, 300.0, 12.0)];
    let mut a = State::new();
    let mut b = State::new();
    let mut last_a = Vec::new();
    let mut last_b = Vec::new();
    for round in 0..30 {
        if round < spawns.len() {
            let (x, y, r) = spawns[round];
            add_body(&mut a, px(x), px(y), px(r)).unwrap();
            add_body(&mut b, px(x), px(y), px(r)).unwrap();
        }
        last_a = update(&mut a);
        last_b = update(&mut b);
        assert_eq!(last_a, last_b);
    }
    assert_eq!(last_a.len(), 4);
    assert_eq!(last_a, last_b);
}

#[test]
fn lone_particle_without_gravity_stays_put() {
    let solver = Solver { gravity: Vec2::new(0, 0), ..Solver::new() };
    let start = VerletObject::new(Vec2::new(px(250.0), px(310.0)), px(5.0));
    let mut bodies = vec![start];
    for _ in 0..100 {
        solver.update(FRAME_MICROS, &mut bodies);
    }
    assert_eq!(bodies, vec![start]);
}

#[test]
fn constraint_pulls_outside_particle_onto_arena() {
    let solver = Solver::new();
    let mut bodies = vec![
        VerletObject::new(Vec2::new(px(900.0), px(300.0)), px(5.0)),
        VerletObject::new(Vec2::new(px(-100.0), px(-100.0)), px(10.0)),
        VerletObject::new(Vec2::new(px(300.0), px(300.0)), px(5.0)),
        VerletObject::new(Vec2::new(px(310.0), px(320.0)), px(5.0)),
    ];
    solver.apply_constraint(&mut bodies);
    assert_eq!(bodies[0].current_position, Vec2::new(px(595.0), px(300.0)));
    let d1 = distance_to(bodies[1].current_position, 300.0, 300.0);
    assert!(d1 < (px(290.0) + 1) as f64);
    assert!(d1 > (px(290.0) - 2) as f64);
    assert_eq!(bodies[2].current_position, Vec2::new(px(300.0), px(300.0)));
    assert_eq!(bodies[3].current_position, Vec2::new(px(310.0), px(320.0)));
}

#[test]
fn gravity_accumulates_and_integration_applies_it() {
    let solver = Solver::new();
    let mut bodies = vec![VerletObject::new(Vec2::new(px(300.0), px(300.0)), px(5.0))];
    solver.apply_gravity(&mut bodies);
    assert_eq!(bodies[0].acceleration, Vec2::new(0, 1000 * UNITS_PER_PIXEL));
    solver.update_position(2000, &mut bodies);
    // 65_536_000 * 2000^2 / 10^12 = 262.144, rounded toward zero.
    assert_eq!(bodies[0].current_position, Vec2::new(px(300.0), px(300.0) + 262));
    assert_eq!(bodies[0].old_position, Vec2::new(px(300.0), px(300.0)));
    assert_eq!(bodies[0].acceleration, Vec2::new(0, 0));
}

#[test]
fn spawn_rejects_invalid_parameters() {
    let mut state = State::new();
    assert_eq!(add_body(&mut state, 0, 0, 0), Err(SpawnError::InvalidParameter));
    assert_eq!(add_body(&mut state, 0, 0, -3), Err(SpawnError::InvalidParameter));
    assert_eq!(add_body(&mut state, COORD_LIMIT + 1, 0, 5), Err(SpawnError::InvalidParameter));
    assert_eq!(add_body(&mut state, 0, -COORD_LIMIT - 1, 5), Err(SpawnError::InvalidParameter));
    assert!(state.bodies.is_empty());
    assert_eq!(add_body(&mut state, COORD_LIMIT, -COORD_LIMIT, 1), Ok(()));
    assert_eq!(state.bodies.len(), 1);
    assert_eq!(state.bodies[0].old_position, state.bodies[0].current_position);
}

#[test]
fn every_broad_phase_separates_two_close_particles_and_spares_a_lone_one() {
    for strategy in [BroadPhase::Quadtree, BroadPhase::SweepAndPrune, BroadPhase::BruteForce] {
        let solver = Solver { broad_phase: strategy, ..Solver::new() };
        let mut pair = vec![
            VerletObject::new(Vec2::new(px(300.0), px(50.0)), px(5.0)),
            VerletObject::new(Vec2::new(px(305.0), px(50.0)), px(5.0)),
        ];
        solver.update(FRAME_MICROS, &mut pair);
        let dx = (pair[0].current_position.x - pair[1].current_position.x) as f64;
        let dy = (pair[0].current_position.y - pair[1].current_position.y) as f64;
        assert!((dx * dx + dy * dy).sqrt() >= px(10.0) as f64);

        let still = Solver { gravity: Vec2::new(0, 0), broad_phase: strategy, ..Solver::new() };
        let start = VerletObject::new(Vec2::new(px(120.0), px(330.0)), px(7.0));
        let mut lone = vec![start];
        for _ in 0..20 {
            still.update(FRAME_MICROS, &mut lone);
        }
        assert_eq!(lone, vec![start]);
    }
}

#[test]
fn particle_resting_on_the_wall_stays_there() {
    let solver = Solver::new();
    let mut o = VerletObject::new(Vec2::new(px(300.0), px(595.0) + 262), px(5.0));
    o.old_position = Vec2::new(px(300.0), px(595.0));
    let mut bodies = vec![o];
    for _ in 0..50 {
        solver.update(FRAME_MICROS, &mut bodies);
        assert_eq!(bodies, vec![o]);
    }
}
