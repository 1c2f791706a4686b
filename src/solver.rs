use vstd::prelude::*;
use crate::collisions::{brute_force_pass, brute_force_solve, quadtree_pass, quadtree_solve};
use crate::sweep_and_prune::sweep_pass;
use crate::narrow_phase::{all_wf, moved_to};
use crate::vector::{UNITS_PER_PIXEL, Vec2, abs, sqrt_floor, trunc_div, isqrt, div_toward_zero};
use crate::verlet::{VerletObject, clamped, clamp_to_world};

verus! {

/// Sub-steps in one update.
pub const SUB_STEPS: u32 = 8;

/// Default downward gravity, in units per second squared.
pub const DEFAULT_GRAVITY: i64 = 1000 * UNITS_PER_PIXEL;

/// Default arena center coordinate (both axes).
pub const DEFAULT_ARENA_CENTER: i64 = 300 * UNITS_PER_PIXEL;

/// Default arena radius.
pub const DEFAULT_ARENA_RADIUS: i64 = 300 * UNITS_PER_PIXEL;

/// Half of the world box: the arena must fit well inside it.
pub const ARENA_LIMIT: i64 = 549_755_813_888;

/// `o` kept inside the circular arena of center `c` and radius `r`: a particle
/// whose center lies farther than `r - o.radius` from `c` is put back on that
/// circle along its direction from `c`; one exactly at `c` is left alone.
pub open spec fn constrained(o: VerletObject, c: Vec2, r: int) -> VerletObject {
    let dx = o.current_position.x - c.x;
    let dy = o.current_position.y - c.y;
    let d = sqrt_floor(dx * dx + dy * dy);
    let target = r - o.radius;
    if d > target && d > 0 {
        moved_to(o, clamped(c.x + trunc_div(dx * target, d), c.y + trunc_div(dy * target, d)))
    } else {
        o
    }
}

/// Squared distance between two points.
pub open spec fn dist_sq(p: Vec2, c: Vec2) -> int {
    (p.x - c.x) * (p.x - c.x) + (p.y - c.y) * (p.y - c.y)
}

/// The broad-phase strategy that proposes collision candidates.
#[derive(Clone, Copy, Debug, PartialEq, Eq, Structural)]
pub enum BroadPhase {
    Quadtree,
    SweepAndPrune,
    BruteForce,
}

/// The collision pass of a broad phase.
pub open spec fn collision_pass(strategy: BroadPhase, bodies: Seq<VerletObject>) -> Seq<VerletObject> {
    match strategy {
        BroadPhase::Quadtree => quadtree_pass(bodies),
        BroadPhase::SweepAndPrune => sweep_pass(bodies),
        BroadPhase::BruteForce => brute_force_pass(bodies),
    }
}

/// Parameters of the simulation: gravity, the circular arena, and the broad phase.
#[derive(Clone, Copy, Debug, PartialEq, Eq, Structural)]
pub struct Solver {
    pub gravity: Vec2,
    pub arena_center: Vec2,
    pub arena_radius: i64,
    pub broad_phase: BroadPhase,
}

impl Solver {
    /// Gravity in the world box; the arena, center and radius, in its inner half.
    pub open spec fn wf(self) -> bool {
        &&& self.gravity.in_world()
        &&& -ARENA_LIMIT <= self.arena_center.x <= ARENA_LIMIT
        &&& -ARENA_LIMIT <= self.arena_center.y <= ARENA_LIMIT
        &&& 0 <= self.arena_radius <= ARENA_LIMIT
    }

    /// Gravity added to every particle.
    pub open spec fn gravitate_all(self, bodies: Seq<VerletObject>) -> Seq<VerletObject> {
        bodies.map_values(|o: VerletObject| o.accelerated(self.gravity))
    }

    /// Every particle kept inside the arena.
    pub open spec fn constrain_all(self, bodies: Seq<VerletObject>) -> Seq<VerletObject> {
        bodies.map_values(|o: VerletObject| constrained(o, self.arena_center, self.arena_radius as int))
    }

    /// Every particle integrated over `dt` microseconds.
    pub open spec fn integrate_all(bodies: Seq<VerletObject>, dt: int) -> Seq<VerletObject> {
        bodies.map_values(|o: VerletObject| o.integrated(dt))
    }

    /// One sub-step: gravity, arena, collisions, integration.
    pub open spec fn substep(self, bodies: Seq<VerletObject>, dt: int) -> Seq<VerletObject> {
        Self::integrate_all(collision_pass(self.broad_phase, self.constrain_all(self.gravitate_all(bodies))), dt)
    }

    /// `n` sub-steps of `dt` each.
    pub open spec fn substeps(self, bodies: Seq<VerletObject>, dt: int, n: nat) -> Seq<VerletObject>
        decreases n,
    {
        if n == 0 {
            bodies
        } else {
            self.substep(self.substeps(bodies, dt, (n - 1) as nat), dt)
        }
    }

    /// One update of `dt` microseconds: `SUB_STEPS` sub-steps of `dt / SUB_STEPS`.
    pub open spec fn stepped(self, bodies: Seq<VerletObject>, dt: int) -> Seq<VerletObject> {
        self.substeps(bodies, dt / (SUB_STEPS as int), SUB_STEPS as nat)
    }

    /// Gravity of 1000 pixels per second squared downward, an arena of
    /// radius 300 pixels centered at (300, 300) pixels, and the quadtree broad phase.
    pub fn new() -> (s: Solver)
        ensures
            s.wf(),
            s.gravity == (Vec2 { x: 0, y: DEFAULT_GRAVITY }),
            s.arena_center == (Vec2 { x: DEFAULT_ARENA_CENTER, y: DEFAULT_ARENA_CENTER }),
            s.arena_radius == DEFAULT_ARENA_RADIUS,
            s.broad_phase == BroadPhase::Quadtree,
    {
        Solver {
            gravity: Vec2 { x: 0, y: DEFAULT_GRAVITY },
            arena_center: Vec2 { x: DEFAULT_ARENA_CENTER, y: DEFAULT_ARENA_CENTER },
            arena_radius: DEFAULT_ARENA_RADIUS,
            broad_phase: BroadPhase::Quadtree,
        }
    }

    /// Advances the particles by `dt` microseconds in `SUB_STEPS` sub-steps;
    /// each applies gravity, then the arena, then collisions, then integration.
    pub fn update(&self, dt: u32, bodies: &mut Vec<VerletObject>)
        requires
            self.wf(),
            all_wf(old(bodies)@),
        ensures
            final(bodies)@ == self.stepped(old(bodies)@, dt as int),
            final(bodies)@.len() == old(bodies)@.len(),
            all_wf(final(bodies)@),
    {
        let sub_dt = dt / SUB_STEPS;
        let ghost start = bodies@;
        let mut n: u32 = 0;
        while n < SUB_STEPS
            invariant
                self.wf(),
                n <= SUB_STEPS,
                sub_dt == dt / SUB_STEPS,
                bodies@ == self.substeps(start, sub_dt as int, n as nat),
                bodies@.len() == start.len(),
                all_wf(bodies@),
            decreases SUB_STEPS - n,
        {
            self.apply_gravity(bodies);
            self.apply_constraint(bodies);
            self.solve_collisions(bodies);
            self.update_position(sub_dt, bodies);
            n += 1;
        }
    }

    /// Integrates every particle over `dt` microseconds.
    pub fn update_position(&self, dt: u32, bodies: &mut Vec<VerletObject>)
        requires
            all_wf(old(bodies)@),
        ensures
            final(bodies)@ == Self::integrate_all(old(bodies)@, dt as int),
            all_wf(final(bodies)@),
    {
        let ghost start = bodies@;
        let mut i: usize = 0;
        while i < bodies.len()
            invariant
                i <= bodies.len(),
                bodies@.len() == start.len(),
                all_wf(start),
                all_wf(bodies@),
                forall|j: int| 0 <= j < i ==> bodies@[j] == (#[trigger] start[j]).integrated(dt as int),
                forall|j: int| i <= j < bodies@.len() ==> bodies@[j] == start[j],
            decreases bodies.len() - i,
        {
            let mut o = bodies[i];
            o.update_position(dt);
            bodies.set(i, o);
            i += 1;
        }
        proof {
            assert(bodies@ =~= Self::integrate_all(start, dt as int));
        }
    }

    /// Adds gravity to every particle's accumulated acceleration.
    pub fn apply_gravity(&self, bodies: &mut Vec<VerletObject>)
        requires
            self.wf(),
            all_wf(old(bodies)@),
        ensures
            final(bodies)@ == self.gravitate_all(old(bodies)@),
            all_wf(final(bodies)@),
    {
        let ghost start = bodies@;
        let mut i: usize = 0;
        while i < bodies.len()
            invariant
                self.wf(),
                i <= bodies.len(),
                bodies@.len() == start.len(),
                all_wf(start),
                all_wf(bodies@),
                forall|j: int| 0 <= j < i ==> bodies@[j] == (#[trigger] start[j]).accelerated(self.gravity),
                forall|j: int| i <= j < bodies@.len() ==> bodies@[j] == start[j],
            decreases bodies.len() - i,
        {
            let mut o = bodies[i];
            o.accelerate(self.gravity);
            bodies.set(i, o);
            i += 1;
        }
        proof {
            assert(bodies@ =~= self.gravitate_all(start));
        }
    }

    /// Keeps every particle inside the arena. Afterwards each particle whose
    /// radius does not exceed the arena's lies less than `arena_radius - radius + 1`
    /// from the center, wherever it started.
    pub fn apply_constraint(&self, bodies: &mut Vec<VerletObject>)
        requires
            self.wf(),
            all_wf(old(bodies)@),
        ensures
            final(bodies)@ == self.constrain_all(old(bodies)@),
            all_wf(final(bodies)@),
            forall|j: int| 0 <= j < final(bodies)@.len() && (#[trigger] final(bodies)@[j]).radius <= self.arena_radius ==>
                dist_sq(final(bodies)@[j].current_position, self.arena_center)
                    < (self.arena_radius - final(bodies)@[j].radius + 1) * (self.arena_radius - final(bodies)@[j].radius + 1),
    {
        let ghost start = bodies@;
        let mut i: usize = 0;
        while i < bodies.len()
            invariant
                self.wf(),
                i <= bodies.len(),
                bodies@.len() == start.len(),
                all_wf(start),
                all_wf(bodies@),
                forall|j: int| 0 <= j < i ==> bodies@[j] == constrained(#[trigger] start[j], self.arena_center, self.arena_radius as int),
                forall|j: int| i <= j < bodies@.len() ==> bodies@[j] == start[j],
            decreases bodies.len() - i,
        {
            let o = bodies[i];
            let c = self.constrain_one(o);
            bodies.set(i, c);
            i += 1;
        }
        proof {
            assert(bodies@ =~= self.constrain_all(start));
            assert forall|j: int| 0 <= j < bodies@.len() && (#[trigger] bodies@[j]).radius <= self.arena_radius implies
                dist_sq(bodies@[j].current_position, self.arena_center)
                    < (self.arena_radius - bodies@[j].radius + 1) * (self.arena_radius - bodies@[j].radius + 1) by {
                lemma_constrained_within(start[j], self.arena_center, self.arena_radius as int);
            }
        }
    }

    /// Runs the chosen broad phase and the narrow phase over all particles.
    pub fn solve_collisions(&self, bodies: &mut Vec<VerletObject>)
        requires
            all_wf(old(bodies)@),
        ensures
            final(bodies)@ == collision_pass(self.broad_phase, old(bodies)@),
            final(bodies)@.len() == old(bodies)@.len(),
            all_wf(final(bodies)@),
    {
        match self.broad_phase {
            BroadPhase::Quadtree => quadtree_solve(bodies),
            BroadPhase::SweepAndPrune => crate::sweep_and_prune::solve(bodies),
            BroadPhase::BruteForce => brute_force_solve(bodies),
        }
    }

    fn constrain_one(&self, o: VerletObject) -> (r: VerletObject)
        requires
            self.wf(),
            o.wf(),
        ensures
            r == constrained(o, self.arena_center, self.arena_radius as int),
            r.wf(),
    {
        let c = self.arena_center;
        let dx: i128 = o.current_position.x as i128 - c.x as i128;
        let dy: i128 = o.current_position.y as i128 - c.y as i128;
        proof {
            crate::vector::lemma_square_of_i64(dx as int);
            crate::vector::lemma_square_of_i64(dy as int);
        }
        let d: u64 = isqrt((dx * dx) as u128 + (dy * dy) as u128);
        let target: i128 = self.arena_radius as i128 - o.radius as i128;
        if d as i128 > target && d > 0 {
            let d: i128 = d as i128;
            assert(-0x100_0000_0000_0000_0000_0000 <= dx * target <= 0x100_0000_0000_0000_0000_0000) by (nonlinear_arith)
                requires
                    -0x200_0000_0000 <= dx <= 0x200_0000_0000,
                    -0x200_0000_0000 <= target <= 0x200_0000_0000,
            ;
            assert(-0x100_0000_0000_0000_0000_0000 <= dy * target <= 0x100_0000_0000_0000_0000_0000) by (nonlinear_arith)
                requires
                    -0x200_0000_0000 <= dy <= 0x200_0000_0000,
                    -0x200_0000_0000 <= target <= 0x200_0000_0000,
            ;
            let sx = div_toward_zero(dx * target, d);
            let sy = div_toward_zero(dy * target, d);
            proof {
                crate::vector::lemma_trunc_div_bounded(dx * target, d as int);
                crate::vector::lemma_trunc_div_bounded(dy * target, d as int);
            }
            let p = Vec2 { x: clamp_to_world(c.x as i128 + sx), y: clamp_to_world(c.y as i128 + sy) };
            VerletObject { current_position: p, ..o }
        } else {
            o
        }
    }
}

/// After the arena constraint, a particle whose radius does not exceed the
/// arena's lies less than `r - radius + 1` from the center.
pub proof fn lemma_constrained_within(o: VerletObject, c: Vec2, r: int)
    requires
        o.wf(),
        -ARENA_LIMIT <= c.x <= ARENA_LIMIT,
        -ARENA_LIMIT <= c.y <= ARENA_LIMIT,
        0 <= o.radius <= r <= ARENA_LIMIT,
    ensures
        dist_sq(constrained(o, c, r).current_position, c) < (r - o.radius + 1) * (r - o.radius + 1),
{
    let dx = o.current_position.x - c.x;
    let dy = o.current_position.y - c.y;
    let n = dx * dx + dy * dy;
    let d = sqrt_floor(n);
    let t = r - o.radius;
    assert(0 <= dx * dx && 0 <= dy * dy) by (nonlinear_arith);
    crate::vector::lemma_sqrt_floor_exists(n);
    assert(0 <= d && d * d <= n < (d + 1) * (d + 1));
    if d > t && d > 0 {
        let qx = trunc_div(dx * t, d);
        let qy = trunc_div(dy * t, d);
        crate::vector::lemma_trunc_div_close(dx * t, d);
        crate::vector::lemma_trunc_div_close(dy * t, d);
        crate::vector::lemma_coord_within_sqrt(dx, n, d);
        crate::vector::lemma_coord_within_sqrt(dy, n, d);
        assert(abs(qx) * d <= abs(dx) * t) by (nonlinear_arith)
            requires
                dx * t >= 0 ==> 0 <= d * qx <= dx * t,
                dx * t < 0 ==> dx * t <= d * qx <= 0,
                abs(qx) == qx || abs(qx) == -qx,
                abs(dx) == dx || abs(dx) == -dx,
                abs(qx) >= 0,
                abs(dx) >= 0,
                t >= 0,
                d > 0,
        ;
        assert(abs(qy) * d <= abs(dy) * t) by (nonlinear_arith)
            requires
                dy * t >= 0 ==> 0 <= d * qy <= dy * t,
                dy * t < 0 ==> dy * t <= d * qy <= 0,
                abs(qy) == qy || abs(qy) == -qy,
                abs(dy) == dy || abs(dy) == -dy,
                abs(qy) >= 0,
                abs(dy) >= 0,
                t >= 0,
                d > 0,
        ;
        assert(abs(qx) <= t) by (nonlinear_arith)
            requires
                abs(qx) * d <= abs(dx) * t,
                abs(dx) <= d,
                t >= 0,
                d > 0,
        ;
        assert(abs(qy) <= t) by (nonlinear_arith)
            requires
                abs(qy) * d <= abs(dy) * t,
                abs(dy) <= d,
                t >= 0,
                d > 0,
        ;
        let p = constrained(o, c, r).current_position;
        assert(p.x - c.x == qx && p.y - c.y == qy);
        crate::narrow_phase::lemma_square_le(abs(qx) * d, abs(dx) * t);
        crate::narrow_phase::lemma_square_le(abs(qy) * d, abs(dy) * t);
        assert((abs(qx) * d) * (abs(qx) * d) == (qx * qx) * (d * d)) by (nonlinear_arith)
            requires
                abs(qx) == qx || abs(qx) == -qx,
        ;
        assert((abs(qy) * d) * (abs(qy) * d) == (qy * qy) * (d * d)) by (nonlinear_arith)
            requires
                abs(qy) == qy || abs(qy) == -qy,
        ;
        assert((abs(dx) * t) * (abs(dx) * t) == (dx * dx) * (t * t)) by (nonlinear_arith)
            requires
                abs(dx) == dx || abs(dx) == -dx,
        ;
        assert((abs(dy) * t) * (abs(dy) * t) == (dy * dy) * (t * t)) by (nonlinear_arith)
            requires
                abs(dy) == dy || abs(dy) == -dy,
        ;
        assert((qx * qx + qy * qy) * (d * d) == (qx * qx) * (d * d) + (qy * qy) * (d * d)) by (nonlinear_arith);
        assert(n * (t * t) == (dx * dx) * (t * t) + (dy * dy) * (t * t)) by (nonlinear_arith)
            requires
                n == dx * dx + dy * dy,
        ;
        assert(n * (t * t) < ((t + 1) * (t + 1)) * (d * d)) by (nonlinear_arith)
            requires
                n < (d + 1) * (d + 1),
                0 <= t < d,
        ;
        assert(qx * qx + qy * qy < (t + 1) * (t + 1)) by (nonlinear_arith)
            requires
                (qx * qx + qy * qy) * (d * d) < ((t + 1) * (t + 1)) * (d * d),
                d > 0,
        ;
    } else {
        assert(n < (t + 1) * (t + 1)) by (nonlinear_arith)
            requires
                n < (d + 1) * (d + 1),
                d <= t || d == 0,
                0 <= d,
                0 <= t,
        ;
    }
}

/// A particle alone cannot be moved by collisions, whatever the candidates.
proof fn lemma_lone_resolve(b: Seq<VerletObject>, i: int, ks: Seq<usize>)
    requires
        b.len() == 1,
    ensures
        crate::narrow_phase::resolve_against(b, i, ks) == b,
    decreases ks.len(),
{
    if ks.len() > 0 {
        lemma_lone_resolve(b, i, ks.drop_last());
    }
}

proof fn lemma_lone_rows(b: Seq<VerletObject>, is: Seq<usize>, ks: Seq<usize>)
    requires
        b.len() == 1,
    ensures
        crate::narrow_phase::resolve_rows(b, is, ks) == b,
    decreases is.len(),
{
    if is.len() > 0 {
        lemma_lone_rows(b, is.drop_last(), ks);
        lemma_lone_resolve(b, is.last() as int, ks);
    }
}

proof fn lemma_lone_clusters(b: Seq<VerletObject>, cs: Seq<Seq<usize>>)
    requires
        b.len() == 1,
    ensures
        crate::sweep_and_prune::resolve_clusters(b, cs) == b,
    decreases cs.len(),
{
    if cs.len() > 0 {
        lemma_lone_clusters(b, cs.drop_last());
        lemma_lone_rows(b, cs.last(), cs.last());
    }
}

/// No broad phase moves a lone particle.
proof fn lemma_lone_collisions(strategy: BroadPhase, b: Seq<VerletObject>)
    requires
        b.len() == 1,
    ensures
        collision_pass(strategy, b) == b,
{
    let e = crate::quadtree::indexed_entries(crate::collisions::positions_of(b), crate::collisions::index_bounds());
    lemma_lone_resolve(b, 0, crate::order::ascending(crate::quadtree::hits(e, crate::collisions::search_range(b[0]))));
    assert(crate::collisions::quadtree_steps(b, e, 0) == b);
    assert(crate::collisions::quadtree_steps(b, e, 1) == b);
    lemma_lone_clusters(b, crate::sweep_and_prune::clusters(b));
    lemma_lone_rows(b, crate::collisions::all_indices(1), crate::collisions::all_indices(1));
}

/// Without gravity, a lone particle at rest inside the arena stays exactly
/// where it is, sub-step after sub-step.
pub proof fn lemma_lone_particle_at_rest(s: Solver, o: VerletObject, dt: int, n: nat)
    requires
        s.wf(),
        s.gravity == (Vec2 { x: 0, y: 0 }),
        o.wf(),
        o.old_position == o.current_position,
        o.acceleration == (Vec2 { x: 0, y: 0 }),
        o.radius <= s.arena_radius,
        dist_sq(o.current_position, s.arena_center) <= (s.arena_radius - o.radius) * (s.arena_radius - o.radius),
    ensures
        s.substeps(seq![o], dt, n) == seq![o],
    decreases n,
{
    if n > 0 {
        lemma_lone_particle_at_rest(s, o, dt, (n - 1) as nat);
        let b = seq![o];
        assert(o.accelerated(s.gravity) == o);
        assert(s.gravitate_all(b) =~= b);
        let c = s.arena_center;
        let dx = o.current_position.x - c.x;
        let dy = o.current_position.y - c.y;
        let t = s.arena_radius - o.radius;
        assert(0 <= dx * dx && 0 <= dy * dy) by (nonlinear_arith);
        crate::vector::lemma_sqrt_floor_exists(dx * dx + dy * dy);
        let d = sqrt_floor(dx * dx + dy * dy);
        assert(d <= t) by (nonlinear_arith)
            requires
                0 <= d,
                0 <= t,
                d * d <= dx * dx + dy * dy,
                dx * dx + dy * dy <= t * t,
        ;
        assert(constrained(o, c, s.arena_radius as int) == o);
        assert(s.constrain_all(b) =~= b);
        lemma_lone_collisions(s.broad_phase, b);
        assert(trunc_div(0, crate::verlet::MICROS_SQUARED as int) == 0);
        assert(crate::verlet::drift(0, dt) == 0);
        assert(o.integrated(dt) == o);
        assert(Solver::integrate_all(b, dt) =~= b);
    }
}

/// Under downward gravity, a lone particle resting on the arena wall straight
/// below the center holds there: each sub-step the constraint puts it back at
/// distance `arena_radius - radius` and integration lets it sink by the same
/// drift again, so it ends every sub-step at the same place.
pub proof fn lemma_rest_on_wall_holds(s: Solver, o: VerletObject, dt: int, n: nat)
    requires
        s.wf(),
        s.gravity.x == 0,
        s.gravity.y >= 0,
        dt >= 0,
        o.wf(),
        o.radius <= s.arena_radius,
        o.acceleration == (Vec2 { x: 0, y: 0 }),
        o.old_position == (Vec2 { x: s.arena_center.x, y: (s.arena_center.y + s.arena_radius - o.radius) as i64 }),
        o.current_position == (Vec2 {
            x: s.arena_center.x,
            y: (s.arena_center.y + s.arena_radius - o.radius + crate::verlet::drift(s.gravity.y as int, dt)) as i64,
        }),
        crate::vector::in_limit(s.arena_center.y + s.arena_radius - o.radius + crate::verlet::drift(s.gravity.y as int, dt)),
    ensures
        s.substeps(seq![o], dt, n) == seq![o],
    decreases n,
{
    if n > 0 {
        lemma_rest_on_wall_holds(s, o, dt, (n - 1) as nat);
        let b = seq![o];
        let c = s.arena_center;
        let g = s.gravity.y as int;
        let t = s.arena_radius - o.radius;
        let k = crate::verlet::drift(g, dt);
        assert(g * dt * dt >= 0) by (nonlinear_arith)
            requires
                g >= 0,
                dt >= 0,
        ;
        crate::vector::lemma_trunc_div_bounded(g * dt * dt, crate::verlet::MICROS_SQUARED as int);
        assert(k >= 0);
        let o1 = o.accelerated(s.gravity);
        assert(o1.acceleration == s.gravity);
        assert(s.gravitate_all(b) =~= seq![o1]);
        let h = t + k;
        let dx = o1.current_position.x - c.x;
        let dy = o1.current_position.y - c.y;
        assert(dx == 0 && dy == h);
        assert(h * h <= dx * dx + dy * dy < (h + 1) * (h + 1)) by (nonlinear_arith)
            requires
                dx == 0,
                dy == h,
                h >= 0,
        ;
        crate::vector::lemma_sqrt_floor_unique(dx * dx + dy * dy, h);
        let o2 = constrained(o1, c, s.arena_radius as int);
        if h > t && h > 0 {
            assert(trunc_div(dx * t, h) == 0);
            assert((h * t) / h == t) by (nonlinear_arith)
                requires
                    h > 0,
                    t >= 0,
            ;
            assert(trunc_div(dy * t, h) == t);
        }
        assert(o2.current_position == o.old_position);
        assert(o2.old_position == o.old_position);
        assert(o2.acceleration == s.gravity);
        assert(s.constrain_all(seq![o1]) =~= seq![o2]);
        lemma_lone_collisions(s.broad_phase, seq![o2]);
        assert(trunc_div(0, crate::verlet::MICROS_SQUARED as int) == 0);
        assert(o2.integrated(dt) == o);
        assert(Solver::integrate_all(seq![o2], dt) =~= b);
    }
}

} // verus!
