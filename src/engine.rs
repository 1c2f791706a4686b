use vstd::prelude::*;
use crate::narrow_phase::all_wf;
use crate::solver::Solver;
use crate::vector::{COORD_LIMIT, Vec2, in_limit};
use crate::verlet::VerletObject;

verus! {

/// Duration of one frame, in microseconds.
pub const FRAME_MICROS: u32 = 16_000;

/// Why a particle was not spawned.
#[derive(Clone, Copy, Debug, PartialEq, Eq, Structural)]
pub enum SpawnError {
    /// A coordinate outside the world box, or a radius not in `1 ..= COORD_LIMIT`.
    InvalidParameter,
}

/// A simulation: the particles, in spawn order, and the solver parameters.
pub struct State {
    pub bodies: Vec<VerletObject>,
    pub solver: Solver,
}

/// The spawn arguments describe a particle the simulation can hold.
pub open spec fn spawn_ok(x: int, y: int, radius: int) -> bool {
    in_limit(x) && in_limit(y) && 0 < radius <= COORD_LIMIT
}

/// A particle at rest at `(x, y)`.
pub open spec fn at_rest(x: i64, y: i64, radius: i64) -> VerletObject {
    VerletObject {
        current_position: Vec2 { x, y },
        old_position: Vec2 { x, y },
        acceleration: Vec2 { x: 0, y: 0 },
        radius,
    }
}

/// The particles after `n` frames.
pub open spec fn frames(solver: Solver, bodies: Seq<VerletObject>, n: nat) -> Seq<VerletObject>
    decreases n,
{
    if n == 0 {
        bodies
    } else {
        solver.stepped(frames(solver, bodies, (n - 1) as nat), FRAME_MICROS as int)
    }
}

impl State {
    /// Solver parameters in range and every particle well formed.
    pub open spec fn wf(self) -> bool {
        self.solver.wf() && all_wf(self.bodies@)
    }

    /// An empty simulation with the default solver.
    pub fn new() -> (s: State)
        ensures
            s.wf(),
            s.bodies@ == Seq::<VerletObject>::empty(),
            s.solver.gravity == (Vec2 { x: 0, y: crate::solver::DEFAULT_GRAVITY }),
            s.solver.arena_center == (Vec2 { x: crate::solver::DEFAULT_ARENA_CENTER, y: crate::solver::DEFAULT_ARENA_CENTER }),
            s.solver.arena_radius == crate::solver::DEFAULT_ARENA_RADIUS,
    {
        State { bodies: Vec::new(), solver: Solver::new() }
    }
}

/// Appends a particle at rest at `(x, y)`; rejects coordinates outside the
/// world box and radii outside `1 ..= COORD_LIMIT`, leaving the state unchanged.
pub fn add_body(state: &mut State, x: i64, y: i64, radius: i64) -> (r: Result<(), SpawnError>)
    requires
        old(state).wf(),
    ensures
        final(state).wf(),
        final(state).solver == old(state).solver,
        r.is_ok() == spawn_ok(x as int, y as int, radius as int),
        r.is_ok() ==> final(state).bodies@ == old(state).bodies@.push(at_rest(x, y, radius)),
        r.is_err() ==> r == Err::<(), SpawnError>(SpawnError::InvalidParameter) && final(state).bodies@ == old(state).bodies@,
{
    if x < -COORD_LIMIT || x > COORD_LIMIT || y < -COORD_LIMIT || y > COORD_LIMIT || radius <= 0 || radius > COORD_LIMIT {
        return Err(SpawnError::InvalidParameter);
    }
    state.bodies.push(VerletObject::new(Vec2::new(x, y), radius));
    proof {
        assert forall|j: int| 0 <= j < state.bodies@.len() implies (#[trigger] state.bodies@[j]).wf() by {
            if j < old(state).bodies@.len() {
                assert(old(state).bodies@[j].wf());
            }
        }
    }
    Ok(())
}

/// Advances the simulation by one frame and returns a snapshot of every particle.
pub fn update(state: &mut State) -> (snapshot: Vec<VerletObject>)
    requires
        old(state).wf(),
    ensures
        final(state).wf(),
        final(state).solver == old(state).solver,
        final(state).bodies@ == old(state).solver.stepped(old(state).bodies@, FRAME_MICROS as int),
        final(state).bodies@.len() == old(state).bodies@.len(),
        snapshot@ == final(state).bodies@,
{
    let solver = state.solver;
    solver.update(FRAME_MICROS, &mut state.bodies);
    let mut snapshot: Vec<VerletObject> = Vec::new();
    let mut i: usize = 0;
    while i < state.bodies.len()
        invariant
            i <= state.bodies.len(),
            snapshot@ == state.bodies@.take(i as int),
        decreases state.bodies.len() - i,
    {
        snapshot.push(state.bodies[i]);
        proof {
            assert(state.bodies@.take(i + 1) =~= state.bodies@.take(i as int).push(state.bodies@[i as int]));
        }
        i += 1;
    }
    proof {
        assert(state.bodies@.take(state.bodies@.len() as int) =~= state.bodies@);
    }
    snapshot
}

/// Two simulations with the same solver that start from the same particles
/// hold the same particles after any number of frames, so their snapshots agree.
pub proof fn lemma_frames_deterministic(solver: Solver, a: Seq<VerletObject>, b: Seq<VerletObject>, n: nat)
    requires
        a == b,
    ensures
        frames(solver, a, n) == frames(solver, b, n),
    decreases n,
{
    if n > 0 {
        lemma_frames_deterministic(solver, a, b, (n - 1) as nat);
    }
}

} // verus!
