use vstd::prelude::*;
use crate::vector::{Vec2, abs, in_limit, sqrt_floor, trunc_div, isqrt, div_toward_zero};
use crate::verlet::{VerletObject, clamped, clamp_to_world};
use crate::utils::get_two_mut;

verus! {

/// Every particle of the sequence is well formed.
pub open spec fn all_wf(bodies: Seq<VerletObject>) -> bool {
    forall|j: int| 0 <= j < bodies.len() ==> (#[trigger] bodies[j]).wf()
}

/// The vector from `b`'s center to `a`'s center.
pub open spec fn axis_of(a: VerletObject, b: VerletObject) -> (int, int) {
    (a.current_position.x - b.current_position.x, a.current_position.y - b.current_position.y)
}

/// Squared center distance.
pub open spec fn axis_sq(a: VerletObject, b: VerletObject) -> int {
    let (ax, ay) = axis_of(a, b);
    ax * ax + ay * ay
}

/// Lower end of the range that a squared distance is scaled into before its
/// square root is taken.
pub const SCALE_FLOOR: u128 = 0x1000_0000_0000_0000_0000_0000_0000_0000;

/// The power of two `s` with `n * s * s` in `[SCALE_FLOOR, 4 * SCALE_FLOOR)`,
/// for `0 < n < SCALE_FLOOR`; `1` otherwise.
pub open spec fn scale_for(n: int) -> int
    decreases (if 0 < n < SCALE_FLOOR { SCALE_FLOOR - n } else { 0 }),
{
    if n <= 0 || n >= SCALE_FLOOR {
        1
    } else {
        2 * scale_for(4 * n)
    }
}

/// The scaling of a squared distance into `[SCALE_FLOOR, 4 * SCALE_FLOOR)`.
pub proof fn lemma_scale_for(n: int)
    requires
        0 < n < SCALE_FLOOR,
    ensures
        scale_for(n) >= 1,
        SCALE_FLOOR <= n * scale_for(n) * scale_for(n) < 4 * SCALE_FLOOR,
    decreases SCALE_FLOOR - n,
{
    let s = scale_for(n);
    if 4 * n >= SCALE_FLOOR {
        assert(scale_for(4 * n) == 1);
        assert(n * s * s == 4 * n) by (nonlinear_arith)
            requires
                s == 2,
        ;
    } else {
        lemma_scale_for(4 * n);
        let t = scale_for(4 * n);
        assert(n * s * s == (4 * n) * t * t) by (nonlinear_arith)
            requires
                s == 2 * t,
        ;
    }
}

/// Center distance in units of `1 / scale`, rounded down, with the scale
/// chosen so that this distance has at least 62 significant bits.
pub open spec fn fine_distance(a: VerletObject, b: VerletObject) -> int {
    let n = axis_sq(a, b);
    let s = scale_for(n);
    sqrt_floor(n * s * s)
}

/// The shift applied to `a` (and, negated, to `b`) when the two overlap:
/// half the penetration depth along the normalised axis, rounded toward zero.
/// Depth and length are both taken at the fine scale.
pub open spec fn push_of(a: VerletObject, b: VerletObject) -> (int, int) {
    let (ax, ay) = axis_of(a, b);
    let s = scale_for(axis_sq(a, b));
    let d = fine_distance(a, b);
    let delta = (a.radius + b.radius) * s - d;
    (trunc_div(ax * delta, 2 * d), trunc_div(ay * delta, 2 * d))
}

/// The centers differ and lie closer than the sum of the radii.
pub open spec fn overlapping(a: VerletObject, b: VerletObject) -> bool {
    0 < axis_sq(a, b) < (a.radius + b.radius) * (a.radius + b.radius)
}

/// Center positions of `a` and `b` after the circle-circle correction.
pub open spec fn separated(a: VerletObject, b: VerletObject) -> (Vec2, Vec2) {
    if overlapping(a, b) {
        let (px, py) = push_of(a, b);
        (
            clamped(a.current_position.x + px, a.current_position.y + py),
            clamped(b.current_position.x - px, b.current_position.y - py),
        )
    } else {
        (a.current_position, b.current_position)
    }
}

/// The particle moved to `p`, everything else kept.
pub open spec fn moved_to(o: VerletObject, p: Vec2) -> VerletObject {
    VerletObject { current_position: p, ..o }
}

/// The particles after resolving the pair `(i, k)`; equal or out-of-range indices change nothing.
pub open spec fn resolve_pair(bodies: Seq<VerletObject>, i: int, k: int) -> Seq<VerletObject> {
    if i == k || !(0 <= i < bodies.len()) || !(0 <= k < bodies.len()) {
        bodies
    } else {
        let (pa, pb) = separated(bodies[i], bodies[k]);
        bodies.update(i, moved_to(bodies[i], pa)).update(k, moved_to(bodies[k], pb))
    }
}

/// Resolves `i` against each index of `ks`, in order.
pub open spec fn resolve_against(bodies: Seq<VerletObject>, i: int, ks: Seq<usize>) -> Seq<VerletObject>
    decreases ks.len(),
{
    if ks.len() == 0 {
        bodies
    } else {
        resolve_pair(resolve_against(bodies, i, ks.drop_last()), i, ks.last() as int)
    }
}

/// Resolves every ordered pair `(is[j], ks[m])`, row by row.
pub open spec fn resolve_rows(bodies: Seq<VerletObject>, is: Seq<usize>, ks: Seq<usize>) -> Seq<VerletObject>
    decreases is.len(),
{
    if is.len() == 0 {
        bodies
    } else {
        resolve_against(resolve_rows(bodies, is.drop_last(), ks), is.last() as int, ks)
    }
}

/// Facts about the fine distance `d` at scale `s` of a well-formed pair:
/// `d` is the floor square root of `n * s * s`, has at least 62 bits, and each
/// axis coordinate times `s` stays below `2^63`.
pub proof fn lemma_fine_distance(a: VerletObject, b: VerletObject)
    requires
        a.wf(),
        b.wf(),
        0 < axis_sq(a, b),
    ensures
        ({
            let (ax, ay) = axis_of(a, b);
            let n = axis_sq(a, b);
            let s = scale_for(n);
            let d = fine_distance(a, b);
            &&& n < 0x100_0000_0000_0000_0000_0000
            &&& s >= 1
            &&& SCALE_FLOOR <= n * s * s < 4 * SCALE_FLOOR
            &&& d * d <= n * s * s < (d + 1) * (d + 1)
            &&& 0x4000_0000_0000_0000 <= d < 0x8000_0000_0000_0000
            &&& s < 0x8000_0000_0000_0000
            &&& abs(ax) * s < 0x8000_0000_0000_0000
            &&& abs(ay) * s < 0x8000_0000_0000_0000
        }),
{
    let (ax, ay) = axis_of(a, b);
    let n = axis_sq(a, b);
    assert(0 <= ax * ax <= 0x4_0000_0000_0000_0000_0000) by (nonlinear_arith)
        requires
            -0x200_0000_0000 <= ax <= 0x200_0000_0000,
    ;
    assert(0 <= ay * ay <= 0x4_0000_0000_0000_0000_0000) by (nonlinear_arith)
        requires
            -0x200_0000_0000 <= ay <= 0x200_0000_0000,
    ;
    lemma_scale_for(n);
    let s = scale_for(n);
    let sc = n * s * s;
    crate::vector::lemma_sqrt_floor_exists(sc);
    let d = fine_distance(a, b);
    assert(0 <= d && d * d <= sc < (d + 1) * (d + 1));
    assert(0x4000_0000_0000_0000 <= d) by (nonlinear_arith)
        requires
            0x1000_0000_0000_0000_0000_0000_0000_0000 <= sc < (d + 1) * (d + 1),
            0 <= d,
    ;
    assert(d < 0x8000_0000_0000_0000) by (nonlinear_arith)
        requires
            d * d <= sc < 0x4000_0000_0000_0000_0000_0000_0000_0000,
            0 <= d,
    ;
    assert(s * s <= sc) by (nonlinear_arith)
        requires
            sc == n * s * s,
            n >= 1,
            s >= 1,
    ;
    assert(s < 0x8000_0000_0000_0000) by (nonlinear_arith)
        requires
            s * s <= sc < 0x4000_0000_0000_0000_0000_0000_0000_0000,
            s >= 1,
    ;
    assert(abs(ax) * s < 0x8000_0000_0000_0000) by (nonlinear_arith)
        requires
            sc == (ax * ax + ay * ay) * s * s,
            sc < 0x4000_0000_0000_0000_0000_0000_0000_0000,
            0 <= ay * ay,
            abs(ax) == ax || abs(ax) == -ax,
            abs(ax) >= 0,
            s >= 1,
    ;
    assert(abs(ay) * s < 0x8000_0000_0000_0000) by (nonlinear_arith)
        requires
            sc == (ax * ax + ay * ay) * s * s,
            sc < 0x4000_0000_0000_0000_0000_0000_0000_0000,
            0 <= ax * ax,
            abs(ay) == ay || abs(ay) == -ay,
            abs(ay) >= 0,
            s >= 1,
    ;
}

/// For one axis coordinate `c` of an overlapping pair: the corrected
/// coordinate `c + 2 * p` times `d` lies within `[|c| m s - 2d, |c| m s]`
/// in magnitude.
proof fn lemma_push_coordinate(c: int, p: int, d: int, s: int, m: int)
    requires
        d > 0,
        s >= 1,
        m * s > d,
        p == trunc_div(c * (m * s - d), 2 * d),
    ensures
        abs(c + 2 * p) * d <= abs(c) * m * s,
        abs(c) * m * s < (abs(c + 2 * p) + 2) * d,
{
    let delta = m * s - d;
    crate::vector::lemma_trunc_div_close(c * delta, 2 * d);
    assert(c >= 0 ==> c * delta >= 0) by (nonlinear_arith)
        requires
            delta > 0,
    ;
    assert(c < 0 ==> c * delta < 0) by (nonlinear_arith)
        requires
            delta > 0,
    ;
    assert(c >= 0 ==> p >= 0) by (nonlinear_arith)
        requires
            c >= 0 ==> 0 <= (2 * d) * p,
            d > 0,
    ;
    assert(c < 0 ==> p <= 0) by (nonlinear_arith)
        requires
            c < 0 ==> (2 * d) * p <= 0,
            d > 0,
    ;
    let nc = c + 2 * p;
    assert(nc * d - c * (m * s) == 2 * d * p - c * delta) by (nonlinear_arith)
        requires
            nc == c + 2 * p,
            delta == m * s - d,
    ;
    assert(abs(nc) * d <= abs(c) * (m * s)) by (nonlinear_arith)
        requires
            nc * d - c * (m * s) == 2 * d * p - c * delta,
            c >= 0 ==> 0 <= (2 * d) * p <= c * delta,
            c < 0 ==> c * delta <= (2 * d) * p <= 0,
            c >= 0 ==> p >= 0,
            c < 0 ==> p <= 0,
            nc == c + 2 * p,
            c >= 0 ==> abs(c) == c,
            c < 0 ==> abs(c) == -c,
            nc >= 0 ==> abs(nc) == nc,
            nc < 0 ==> abs(nc) == -nc,
            d > 0,
    ;
    assert(abs(c) * (m * s) < (abs(nc) + 2) * d) by (nonlinear_arith)
        requires
            nc * d - c * (m * s) == 2 * d * p - c * delta,
            abs(c * delta - 2 * d * p) < 2 * d,
            c >= 0 ==> p >= 0,
            c < 0 ==> p <= 0,
            nc == c + 2 * p,
            c >= 0 ==> abs(c) == c,
            c < 0 ==> abs(c) == -c,
            nc >= 0 ==> abs(nc) == nc,
            nc < 0 ==> abs(nc) == -nc,
            abs(c * delta - 2 * d * p) == c * delta - 2 * d * p || abs(c * delta - 2 * d * p) == -(c * delta - 2 * d * p),
            d > 0,
    ;
    assert(abs(c) * (m * s) == abs(c) * m * s) by (nonlinear_arith);
}

/// Resolving an overlapping pair moves the two centers by exactly opposite
/// amounts and leaves them `m = a.radius + b.radius` apart up to rounding:
/// the squared corrected distance lies in `[(m - 3)^2, (m + 1)^2)`.
/// Stated where the pushed centers stay inside the world box, so no clamping occurs.
pub proof fn lemma_pair_correction(a: VerletObject, b: VerletObject)
    requires
        a.wf(),
        b.wf(),
        overlapping(a, b),
        ({
            let (px, py) = push_of(a, b);
            &&& in_limit(a.current_position.x + px)
            &&& in_limit(a.current_position.y + py)
            &&& in_limit(b.current_position.x - px)
            &&& in_limit(b.current_position.y - py)
        }),
    ensures
        ({
            let (pa, pb) = separated(a, b);
            let m = a.radius + b.radius;
            let nx = pa.x - pb.x;
            let ny = pa.y - pb.y;
            &&& pa.x - a.current_position.x == -(pb.x - b.current_position.x)
            &&& pa.y - a.current_position.y == -(pb.y - b.current_position.y)
            &&& nx * nx + ny * ny < (m + 1) * (m + 1)
            &&& m >= 3 ==> (m - 3) * (m - 3) <= nx * nx + ny * ny
        }),
{
    let (pa, pb) = separated(a, b);
    let (ax, ay) = axis_of(a, b);
    let (px, py) = push_of(a, b);
    let n = axis_sq(a, b);
    let s = scale_for(n);
    let d = fine_distance(a, b);
    let m = a.radius + b.radius;
    lemma_fine_distance(a, b);
    let sc = n * s * s;
    assert(m > 0) by (nonlinear_arith)
        requires
            0 < n < m * m,
            m >= 0,
    ;
    assert(d < m * s) by (nonlinear_arith)
        requires
            d * d <= n * s * s,
            n < m * m,
            s >= 1,
            d >= 0,
            m > 0,
    ;
    let nx = pa.x - pb.x;
    let ny = pa.y - pb.y;
    assert(nx == ax + 2 * px);
    assert(ny == ay + 2 * py);
    lemma_push_coordinate(ax, px, d, s, m);
    lemma_push_coordinate(ay, py, d, s, m);
    let u = abs(nx);
    let v = abs(ny);
    assert(u * u == nx * nx && v * v == ny * ny) by (nonlinear_arith)
        requires
            u == nx || u == -nx,
            v == ny || v == -ny,
    ;
    // upper bound
    lemma_square_le(u * d, abs(ax) * m * s);
    lemma_square_le(v * d, abs(ay) * m * s);
    assert((u * d) * (u * d) + (v * d) * (v * d) <= (abs(ax) * m * s) * (abs(ax) * m * s) + (abs(ay) * m * s) * (abs(ay) * m * s));
    assert((abs(ax) * m * s) * (abs(ax) * m * s) == (ax * ax) * (s * s) * (m * m)) by (nonlinear_arith)
        requires
            abs(ax) == ax || abs(ax) == -ax,
    ;
    assert((abs(ay) * m * s) * (abs(ay) * m * s) == (ay * ay) * (s * s) * (m * m)) by (nonlinear_arith)
        requires
            abs(ay) == ay || abs(ay) == -ay,
    ;
    assert((ax * ax) * (s * s) * (m * m) + (ay * ay) * (s * s) * (m * m) == sc * (m * m)) by (nonlinear_arith)
        requires
            sc == (ax * ax + ay * ay) * s * s,
    ;
    assert((u * d) * (u * d) + (v * d) * (v * d) == (nx * nx + ny * ny) * (d * d)) by (nonlinear_arith)
        requires
            u * u == nx * nx,
            v * v == ny * ny,
    ;
    assert(sc * (m * m) < ((m + 1) * (m + 1)) * (d * d)) by (nonlinear_arith)
        requires
            sc < (d + 1) * (d + 1),
            0 < m <= d,
    ;
    assert(nx * nx + ny * ny < (m + 1) * (m + 1)) by (nonlinear_arith)
        requires
            (nx * nx + ny * ny) * (d * d) < ((m + 1) * (m + 1)) * (d * d),
            d > 0,
    ;
    // lower bound
    lemma_square_le(abs(ax) * m * s, (u + 2) * d);
    lemma_square_le(abs(ay) * m * s, (v + 2) * d);
    let t = (u + 2) * (u + 2) + (v + 2) * (v + 2);
    assert(((u + 2) * d) * ((u + 2) * d) + ((v + 2) * d) * ((v + 2) * d) == t * (d * d)) by (nonlinear_arith)
        requires
            t == (u + 2) * (u + 2) + (v + 2) * (v + 2),
    ;
    assert((d * d) * (m * m) <= sc * (m * m)) by (nonlinear_arith)
        requires
            d * d <= sc,
    ;
    assert(m * m <= t) by (nonlinear_arith)
        requires
            (d * d) * (m * m) <= t * (d * d),
            d > 0,
    ;
    if m >= 3 && nx * nx + ny * ny < (m - 3) * (m - 3) {
        assert((u + v) * (u + v) <= 2 * (u * u + v * v)) by (nonlinear_arith);
        assert(16 * ((u + v) * (u + v)) < (6 * m - 17) * (6 * m - 17)) by (nonlinear_arith)
            requires
                (u + v) * (u + v) <= 2 * (u * u + v * v),
                u * u + v * v < (m - 3) * (m - 3),
                m >= 3,
        ;
        assert(4 * (u + v) < 6 * m - 17) by (nonlinear_arith)
            requires
                16 * ((u + v) * (u + v)) < (6 * m - 17) * (6 * m - 17),
                u >= 0,
                v >= 0,
                m >= 3,
        ;
        assert(t < m * m) by (nonlinear_arith)
            requires
                t == (u + 2) * (u + 2) + (v + 2) * (v + 2),
                u * u + v * v < (m - 3) * (m - 3),
                4 * (u + v) < 6 * m - 17,
        ;
    }
}

/// Squaring keeps the order of non-negative numbers.
pub proof fn lemma_square_le(u: int, v: int)
    requires
        0 <= u <= v,
    ensures
        u * u <= v * v,
{
    assert(u * u <= v * v) by (nonlinear_arith)
        requires
            0 <= u <= v,
    ;
}

/// Resolving a pair keeps every particle well formed, the length, and the radii.
pub proof fn lemma_resolve_pair_wf(bodies: Seq<VerletObject>, i: int, k: int)
    requires
        all_wf(bodies),
    ensures
        all_wf(resolve_pair(bodies, i, k)),
        resolve_pair(bodies, i, k).len() == bodies.len(),
        forall|j: int| 0 <= j < bodies.len() ==> (#[trigger] resolve_pair(bodies, i, k)[j]).radius == bodies[j].radius,
{
}

/// Narrow phase for the pair `(i, k)`: when the two circles overlap and their
/// centers differ, both are pushed apart along their axis by half the overlap each.
pub fn solve_two_circles(i: usize, k: usize, bodies: &mut Vec<VerletObject>)
    requires
        all_wf(old(bodies)@),
    ensures
        final(bodies)@ == resolve_pair(old(bodies)@, i as int, k as int),
        all_wf(final(bodies)@),
{
    proof {
        lemma_resolve_pair_wf(bodies@, i as int, k as int);
    }
    let (b1, b2) = match get_two_mut(i, k, bodies) {
        Some((b1, b2)) => (b1, b2),
        None => return,
    };
    let ghost (o1, o2) = (*b1, *b2);
    let axis_x: i128 = b1.current_position.x as i128 - b2.current_position.x as i128;
    let axis_y: i128 = b1.current_position.y as i128 - b2.current_position.y as i128;
    proof {
        crate::vector::lemma_square_of_i64(axis_x as int);
        crate::vector::lemma_square_of_i64(axis_y as int);
    }
    let n: u128 = (axis_x * axis_x) as u128 + (axis_y * axis_y) as u128;
    let min_dist: i128 = b1.radius as i128 + b2.radius as i128;
    assert(0 <= min_dist * min_dist <= 0x4_0000_0000_0000_0000_0000) by (nonlinear_arith)
        requires
            0 <= min_dist <= 0x200_0000_0000,
    ;
    if n == 0 || n >= (min_dist * min_dist) as u128 {
        return;
    }
    proof {
        lemma_fine_distance(o1, o2);
    }
    let mut scaled: u128 = n;
    let mut scale: u128 = 1;
    while scaled < SCALE_FLOOR
        invariant
            0 < n < SCALE_FLOOR,
            1 <= scale,
            0 < scaled < 4 * SCALE_FLOOR,
            scaled == n * scale * scale,
            scale_for(n as int) == scale * scale_for(scaled as int),
        decreases (if scaled < SCALE_FLOOR { SCALE_FLOOR - scaled } else { 0 }),
    {
        assert(scale_for(scaled as int) == 2 * scale_for(4 * scaled as int));
        assert(scale * scale <= scaled) by (nonlinear_arith)
            requires
                scaled == n * scale * scale,
                n >= 1,
        ;
        assert(scale < 0x1_0000_0000_0000_0000) by (nonlinear_arith)
            requires
                scale * scale <= scaled < 0x1000_0000_0000_0000_0000_0000_0000_0000,
                scale >= 1,
        ;
        assert(scaled * 4 == n * (scale * 2) * (scale * 2)) by (nonlinear_arith)
            requires
                scaled == n * scale * scale,
        ;
        let ghost rest = scale_for(4 * scaled as int);
        assert(scale * (2 * rest) == (scale * 2) * rest) by (nonlinear_arith);
        scaled = scaled * 4;
        scale = scale * 2;
    }
    proof {
        assert(scale_for(scaled as int) == 1);
    }
    let d: i128 = isqrt(scaled) as i128;
    let s: i128 = scale as i128;
    assert(0 <= min_dist * s <= 0x1_0000_0000_0000_0000_0000_0000_0000) by (nonlinear_arith)
        requires
            0 <= min_dist <= 0x200_0000_0000,
            1 <= s < 0x8000_0000_0000_0000,
    ;
    proof {
        assert(n == axis_sq(o1, o2));
        assert(d == fine_distance(o1, o2));
        assert(d < min_dist * s) by (nonlinear_arith)
            requires
                d * d <= n * s * s,
                n < min_dist * min_dist,
                s >= 1,
                d >= 0,
                min_dist >= 0,
        ;
    }
    let delta: i128 = min_dist * s - d;
    assert(abs(axis_x * delta) < 0x1_0000_0000_0000_0000_0000_0000_0000) by (nonlinear_arith)
        requires
            abs(axis_x as int) * s < 0x8000_0000_0000_0000,
            0 < delta <= min_dist * s,
            0 <= min_dist <= 0x200_0000_0000,
            abs(axis_x as int) == axis_x || abs(axis_x as int) == -axis_x,
            abs(axis_x as int) >= 0,
            abs(axis_x * delta) == axis_x * delta || abs(axis_x * delta) == -(axis_x * delta),
    ;
    assert(abs(axis_y * delta) < 0x1_0000_0000_0000_0000_0000_0000_0000) by (nonlinear_arith)
        requires
            abs(axis_y as int) * s < 0x8000_0000_0000_0000,
            0 < delta <= min_dist * s,
            0 <= min_dist <= 0x200_0000_0000,
            abs(axis_y as int) == axis_y || abs(axis_y as int) == -axis_y,
            abs(axis_y as int) >= 0,
            abs(axis_y * delta) == axis_y * delta || abs(axis_y * delta) == -(axis_y * delta),
    ;
    let push_x = div_toward_zero(axis_x * delta, 2 * d);
    let push_y = div_toward_zero(axis_y * delta, 2 * d);
    proof {
        crate::vector::lemma_trunc_div_bounded(axis_x * delta, 2 * d);
        crate::vector::lemma_trunc_div_bounded(axis_y * delta, 2 * d);
    }
    b1.current_position = Vec2 {
        x: clamp_to_world(b1.current_position.x as i128 + push_x),
        y: clamp_to_world(b1.current_position.y as i128 + push_y),
    };
    b2.current_position = Vec2 {
        x: clamp_to_world(b2.current_position.x as i128 - push_x),
        y: clamp_to_world(b2.current_position.y as i128 - push_y),
    };
}

} // verus!
