// A 2D rigid-circle physics core on fixed-point integer coordinates.
//
// Particles are Verlet objects: a current and a previous position, an
// acceleration gathered per sub-step, and a radius. One update runs a fixed
// number of sub-steps, each applying gravity, a circular arena, a broad phase
// (quadtree or sweep and prune) feeding a circle-circle narrow phase, and
// integration. Coordinates are in units of `vector::UNITS_PER_PIXEL` per pixel
// and saturate at `vector::COORD_LIMIT`; time is in microseconds.

pub mod collisions;
pub mod engine;
pub mod narrow_phase;
pub mod order;
pub mod quadtree;
pub mod rectangle;
pub mod solver;
pub mod sweep_and_prune;
pub mod utils;
pub mod vector;
pub mod verlet;
