use vstd::prelude::*;
use crate::narrow_phase::{all_wf, resolve_against, resolve_rows, solve_two_circles, lemma_resolve_pair_wf};
use crate::order::{ascending, sorted_distinct};
use crate::quadtree::{QuadTree, hits, indexed_entries, indexed_prefix};
use crate::rectangle::Rectangle;
use crate::vector::{Vec2, UNITS_PER_PIXEL};
use crate::verlet::VerletObject;

verus! {

/// Marker for the family of collision strategies below.
#[derive(Clone, Copy, Debug, PartialEq, Eq, Structural)]
pub struct CollisionSolver {}

/// Side of the square region, from the origin, that the broad-phase quadtree covers.
pub const INDEX_EXTENT: i64 = 600 * UNITS_PER_PIXEL;

/// Entries a quadtree leaf holds before it splits.
pub const INDEX_LIMIT: usize = 32;

/// Depth of the broad-phase quadtree's root.
pub const INDEX_ROOT_DEPTH: usize = 1;

/// Depth below which the broad-phase quadtree does not split.
pub const INDEX_MAX_DEPTH: usize = 64;

/// The region the broad-phase quadtree covers.
pub open spec fn index_bounds() -> Rectangle {
    Rectangle { position: Vec2 { x: 0, y: 0 }, width: INDEX_EXTENT, height: INDEX_EXTENT }
}

/// The centers of the particles.
pub open spec fn positions_of(bodies: Seq<VerletObject>) -> Seq<Vec2> {
    bodies.map_values(|b: VerletObject| b.current_position)
}

/// The square around a particle searched for collision candidates: twice its radius each way.
pub open spec fn search_range(o: VerletObject) -> Rectangle {
    Rectangle {
        position: Vec2 {
            x: (o.current_position.x - 2 * o.radius) as i64,
            y: (o.current_position.y - 2 * o.radius) as i64,
        },
        width: (4 * o.radius) as i64,
        height: (4 * o.radius) as i64,
    }
}

/// The first `i` particles, in index order, each resolved against the indexed
/// particles found in its search range (in increasing index order), where the
/// range is taken around the particle's position at its turn.
pub open spec fn quadtree_steps(bodies: Seq<VerletObject>, entries: Set<crate::quadtree::QuadEntry>, i: int) -> Seq<VerletObject>
    decreases i,
{
    if i <= 0 {
        bodies
    } else {
        let prev = quadtree_steps(bodies, entries, i - 1);
        resolve_against(prev, i - 1, ascending(hits(entries, search_range(prev[i - 1]))))
    }
}

/// One quadtree collision pass: positions are indexed once, then every
/// particle is resolved against its candidates.
pub open spec fn quadtree_pass(bodies: Seq<VerletObject>) -> Seq<VerletObject> {
    quadtree_steps(bodies, indexed_entries(positions_of(bodies), index_bounds()), bodies.len() as int)
}

/// The indices `0 .. n`.
pub open spec fn all_indices(n: int) -> Seq<usize> {
    Seq::new(n as nat, |k: int| k as usize)
}

/// One brute-force collision pass: every ordered pair of distinct particles, row by row.
pub open spec fn brute_force_pass(bodies: Seq<VerletObject>) -> Seq<VerletObject> {
    resolve_rows(bodies, all_indices(bodies.len() as int), all_indices(bodies.len() as int))
}

/// Resolving against a list keeps every particle well formed, the length, and the radii.
pub proof fn lemma_resolve_against_wf(bodies: Seq<VerletObject>, i: int, ks: Seq<usize>)
    requires
        all_wf(bodies),
    ensures
        all_wf(resolve_against(bodies, i, ks)),
        resolve_against(bodies, i, ks).len() == bodies.len(),
        forall|j: int| 0 <= j < bodies.len() ==> (#[trigger] resolve_against(bodies, i, ks)[j]).radius == bodies[j].radius,
    decreases ks.len(),
{
    if ks.len() > 0 {
        lemma_resolve_against_wf(bodies, i, ks.drop_last());
        lemma_resolve_pair_wf(resolve_against(bodies, i, ks.drop_last()), i, ks.last() as int);
    }
}

/// Resolves particle `i` against each index of `ks` in turn.
pub(crate) fn solve_against_row(i: usize, ks: &Vec<usize>, bodies: &mut Vec<VerletObject>)
    requires
        all_wf(old(bodies)@),
    ensures
        final(bodies)@ == resolve_against(old(bodies)@, i as int, ks@),
        all_wf(final(bodies)@),
        final(bodies)@.len() == old(bodies)@.len(),
{
    let ghost start = bodies@;
    let mut m: usize = 0;
    while m < ks.len()
        invariant
            m <= ks.len(),
            all_wf(start),
            bodies@ == resolve_against(start, i as int, ks@.take(m as int)),
            all_wf(bodies@),
        decreases ks.len() - m,
    {
        proof {
            assert(ks@.take(m + 1).drop_last() =~= ks@.take(m as int));
        }
        solve_two_circles(i, ks[m], bodies);
        m += 1;
    }
    proof {
        assert(ks@.take(ks@.len() as int) =~= ks@);
        lemma_resolve_against_wf(start, i as int, ks@);
    }
}

/// A quadtree over the particles' current centers, each under its index;
/// centers outside the indexed region are left out.
pub fn build_index(bodies: &Vec<VerletObject>) -> (t: QuadTree)
    ensures
        t.wf(),
        t.entries() == indexed_entries(positions_of(bodies@), index_bounds()),
{
    let bounds = Rectangle::new(0, 0, INDEX_EXTENT, INDEX_EXTENT);
    let mut t = QuadTree::new(bounds, INDEX_LIMIT, INDEX_ROOT_DEPTH, INDEX_MAX_DEPTH);
    let ghost positions = positions_of(bodies@);
    proof {
        assert(t.entries() =~= indexed_prefix(positions, 0, bounds));
    }
    let mut i: usize = 0;
    while i < bodies.len()
        invariant
            i <= bodies.len(),
            positions == positions_of(bodies@),
            bounds == index_bounds(),
            t.wf(),
            t.bounds == bounds,
            t.entries() == indexed_prefix(positions, i as int, bounds),
        decreases bodies.len() - i,
    {
        let p = bodies[i].current_position;
        t.insert(i, p);
        proof {
            assert(positions[i as int] == p);
            assert(t.entries() =~= indexed_prefix(positions, i + 1, bounds));
        }
        i += 1;
    }
    t
}

/// The search range of a particle, computed.
fn search_range_of(o: &VerletObject) -> (r: Rectangle)
    requires
        o.wf(),
    ensures
        r == search_range(*o),
{
    Rectangle::new(
        o.current_position.x - 2 * o.radius,
        o.current_position.y - 2 * o.radius,
        4 * o.radius,
        4 * o.radius,
    )
}

/// Broad phase by quadtree: the current centers are indexed once; then each
/// particle in index order queries the square of twice its radius around its
/// current center and is resolved against every candidate found, each once and
/// in increasing index order. The tree holds center points only; searching
/// twice the radius lets the larger of two overlapping particles find the
/// smaller one even where their bodies cross node boundaries.
pub fn quadtree_solve(bodies: &mut Vec<VerletObject>)
    requires
        all_wf(old(bodies)@),
    ensures
        final(bodies)@ == quadtree_pass(old(bodies)@),
        final(bodies)@.len() == old(bodies)@.len(),
        all_wf(final(bodies)@),
{
    let tree = build_index(bodies);
    let ghost start = bodies@;
    let ghost entries = tree.entries();
    let len = bodies.len();
    let mut current: usize = 0;
    while current < len
        invariant
            len == start.len(),
            current <= len,
            tree.wf(),
            tree.entries() == entries,
            entries == indexed_entries(positions_of(start), index_bounds()),
            bodies@ == quadtree_steps(start, entries, current as int),
            all_wf(bodies@),
            bodies@.len() == len,
        decreases len - current,
    {
        let range = search_range_of(&bodies[current]);
        let found = tree.query(&range);
        let candidates = sorted_distinct(&found);
        proof {
            let s = hits(entries, range);
            assert(found@.to_set() =~= s);
            assert(candidates@ == ascending(s));
        }
        solve_against_row(current, &candidates, bodies);
        current += 1;
    }
}

/// Broad phase by brute force: every ordered pair of distinct particles is
/// resolved, row by row in index order.
pub fn brute_force_solve(bodies: &mut Vec<VerletObject>)
    requires
        all_wf(old(bodies)@),
    ensures
        final(bodies)@ == brute_force_pass(old(bodies)@),
        final(bodies)@.len() == old(bodies)@.len(),
        all_wf(final(bodies)@),
{
    let ghost start = bodies@;
    let len = bodies.len();
    let mut all: Vec<usize> = Vec::new();
    let mut k: usize = 0;
    while k < len
        invariant
            k <= len,
            all@ == all_indices(k as int),
        decreases len - k,
    {
        all.push(k);
        proof {
            assert(all@ =~= all_indices(k + 1));
        }
        k += 1;
    }
    let mut i: usize = 0;
    while i < len
        invariant
            len == start.len(),
            i <= len,
            all@ == all_indices(len as int),
            bodies@ == resolve_rows(start, all_indices(i as int), all@),
            bodies@.len() == len,
            all_wf(bodies@),
        decreases len - i,
    {
        proof {
            assert(all_indices(i + 1).drop_last() =~= all_indices(i as int));
        }
        solve_against_row(i, &all, bodies);
        i += 1;
    }
}

/// Broad phase by sweep and prune (see `sweep_and_prune::solve`).
pub fn solve(bodies: &mut Vec<VerletObject>)
    requires
        all_wf(old(bodies)@),
    ensures
        final(bodies)@ == crate::sweep_and_prune::sweep_pass(old(bodies)@),
        final(bodies)@.len() == old(bodies)@.len(),
        all_wf(final(bodies)@),
{
    crate::sweep_and_prune::solve(bodies);
}

} // verus!
