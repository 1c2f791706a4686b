use vstd::prelude::*;

verus! {

/// Largest magnitude a stored coordinate may take, in fixed-point units.
pub const COORD_LIMIT: i64 = 1_099_511_627_776;

/// Fixed-point units in one pixel.
pub const UNITS_PER_PIXEL: i64 = 65536;

/// Clamps a mathematical coordinate into the representable world box.
pub open spec fn clamp_coord(v: int) -> int {
    if v > COORD_LIMIT {
        COORD_LIMIT as int
    } else if v < -COORD_LIMIT {
        -COORD_LIMIT
    } else {
        v
    }
}

/// The value lies within the world box's coordinate range.
pub open spec fn in_limit(v: int) -> bool {
    -COORD_LIMIT <= v <= COORD_LIMIT
}

/// The magnitude of an integer.
pub open spec fn abs(v: int) -> int {
    if v >= 0 {
        v
    } else {
        -v
    }
}

/// Integer division that rounds toward zero.
pub open spec fn trunc_div(a: int, d: int) -> int {
    let q = abs(a) / abs(d);
    if (a >= 0) == (d >= 0) {
        q
    } else {
        -q
    }
}

/// `r` is the floor of the square root of `n`.
pub open spec fn is_sqrt_floor(n: int, r: int) -> bool {
    0 <= r && r * r <= n < (r + 1) * (r + 1)
}

/// The floor of the square root of `n`.
pub open spec fn sqrt_floor(n: int) -> int {
    choose|r: int| #[trigger] is_sqrt_floor(n, r)
}

/// The floor square root is the only non-negative `r` with `r*r <= n < (r+1)*(r+1)`.
pub proof fn lemma_sqrt_floor_unique(n: int, r: int)
    requires
        0 <= r,
        r * r <= n < (r + 1) * (r + 1),
    ensures
        sqrt_floor(n) == r,
{
    assert(is_sqrt_floor(n, r));
    let s = sqrt_floor(n);
    assert(0 <= s && s * s <= n < (s + 1) * (s + 1));
    if s < r {
        assert((s + 1) * (s + 1) <= r * r) by (nonlinear_arith)
            requires
                0 <= s,
                s + 1 <= r,
        ;
    }
    if r < s {
        assert((r + 1) * (r + 1) <= s * s) by (nonlinear_arith)
            requires
                0 <= r,
                r + 1 <= s,
        ;
    }
}

/// Every non-negative integer has a floor square root.
pub proof fn lemma_sqrt_floor_exists(n: int)
    requires
        0 <= n,
    ensures
        is_sqrt_floor(n, sqrt_floor(n)),
    decreases n,
{
    if n == 0 {
        assert(is_sqrt_floor(0, 0));
    } else {
        lemma_sqrt_floor_exists(n - 1);
        let r = sqrt_floor(n - 1);
        if (r + 1) * (r + 1) <= n {
            assert(n < (r + 2) * (r + 2)) by (nonlinear_arith)
                requires
                    n - 1 < (r + 1) * (r + 1),
                    0 <= r,
            ;
            assert(is_sqrt_floor(n, r + 1));
        } else {
            assert(is_sqrt_floor(n, r));
        }
    }
}

/// A coordinate whose square does not exceed `n` is bounded by the floor square root of `n`.
pub proof fn lemma_coord_within_sqrt(c: int, n: int, r: int)
    requires
        0 <= r,
        c * c <= n,
        n < (r + 1) * (r + 1),
    ensures
        abs(c) <= r,
{
    if abs(c) > r {
        assert((r + 1) * (r + 1) <= c * c) by (nonlinear_arith)
            requires
                0 <= r,
                r + 1 <= abs(c),
                abs(c) == c || abs(c) == -c,
        ;
    }
}

/// Floor square root of an unsigned integer.
pub fn isqrt(n: u128) -> (r: u64)
    ensures
        r * r <= n < (r + 1) * (r + 1),
        r == sqrt_floor(n as int),
{
    let mut lo: u128 = 0;
    let mut hi: u128 = 0x1_0000_0000_0000_0000;
    assert(n < hi * hi) by (nonlinear_arith)
        requires
            hi == 0x1_0000_0000_0000_0000u128,
            n <= u128::MAX,
    ;
    while hi - lo > 1
        invariant
            lo < hi <= 0x1_0000_0000_0000_0000u128,
            lo * lo <= n,
            n < hi * hi,
        decreases hi - lo,
    {
        let mid: u128 = lo + (hi - lo) / 2;
        assert(mid * mid <= 0xFFFF_FFFF_FFFF_FFFFu128 * 0xFFFF_FFFF_FFFF_FFFFu128) by (nonlinear_arith)
            requires
                mid <= 0xFFFF_FFFF_FFFF_FFFFu128,
        ;
        if mid * mid <= n {
            lo = mid;
        } else {
            hi = mid;
        }
    }
    proof {
        lemma_sqrt_floor_unique(n as int, lo as int);
    }
    lo as u64
}

/// Integer division rounding toward zero.
pub fn div_toward_zero(a: i128, d: i128) -> (q: i128)
    requires
        d != 0,
        a > i128::MIN,
        d > i128::MIN,
    ensures
        q == trunc_div(a as int, d as int),
{
    let ua: i128 = if a >= 0 { a } else { -a };
    let ud: i128 = if d >= 0 { d } else { -d };
    let m: i128 = ua / ud;
    if (a >= 0) == (d >= 0) {
        m
    } else {
        -m
    }
}

/// A 2D vector with fixed-point integer coordinates.
#[derive(Clone, Copy, Debug, PartialEq, Eq, Structural)]
pub struct Vec2 {
    pub x: i64,
    pub y: i64,
}

impl Vec2 {
    /// Squared Euclidean norm.
    pub open spec fn norm_sq(self) -> int {
        self.x * self.x + self.y * self.y
    }

    /// Both coordinates lie within the world box.
    pub open spec fn in_world(self) -> bool {
        -COORD_LIMIT <= self.x <= COORD_LIMIT && -COORD_LIMIT <= self.y <= COORD_LIMIT
    }

    pub fn new(x: i64, y: i64) -> (r: Vec2)
        ensures
            r.x == x,
            r.y == y,
    {
        Vec2 { x, y }
    }

    /// Euclidean norm, rounded down.
    pub fn length(self) -> (r: u64)
        ensures
            r == sqrt_floor(self.norm_sq()),
            r * r <= self.norm_sq() < (r + 1) * (r + 1),
    {
        proof {
            lemma_square_of_i64(self.x as int);
            lemma_square_of_i64(self.y as int);
        }
        let xx: i128 = (self.x as i128) * (self.x as i128);
        let yy: i128 = (self.y as i128) * (self.y as i128);
        isqrt((xx as u128) + (yy as u128))
    }

    pub fn add(self, other: Vec2) -> (r: Vec2)
        requires
            i64::MIN <= self.x + other.x <= i64::MAX,
            i64::MIN <= self.y + other.y <= i64::MAX,
        ensures
            r.x == self.x + other.x,
            r.y == self.y + other.y,
    {
        Vec2 { x: self.x + other.x, y: self.y + other.y }
    }

    pub fn sub(self, other: Vec2) -> (r: Vec2)
        requires
            i64::MIN <= self.x - other.x <= i64::MAX,
            i64::MIN <= self.y - other.y <= i64::MAX,
        ensures
            r.x == self.x - other.x,
            r.y == self.y - other.y,
    {
        Vec2 { x: self.x - other.x, y: self.y - other.y }
    }

    pub fn mul(self, factor: i64) -> (r: Vec2)
        requires
            i64::MIN <= self.x * factor <= i64::MAX,
            i64::MIN <= self.y * factor <= i64::MAX,
        ensures
            r.x == self.x * factor,
            r.y == self.y * factor,
    {
        Vec2 { x: self.x * factor, y: self.y * factor }
    }

    /// Divides both coordinates, rounding toward zero; the divisor must not be zero.
    pub fn div(self, denominator: i64) -> (r: Vec2)
        requires
            denominator != 0,
            self.x > i64::MIN,
            self.y > i64::MIN,
            denominator > i64::MIN,
        ensures
            r.x == trunc_div(self.x as int, denominator as int),
            r.y == trunc_div(self.y as int, denominator as int),
    {
        let qx = div_toward_zero(self.x as i128, denominator as i128);
        let qy = div_toward_zero(self.y as i128, denominator as i128);
        proof {
            lemma_trunc_div_bounded(self.x as int, denominator as int);
            lemma_trunc_div_bounded(self.y as int, denominator as int);
        }
        Vec2 { x: qx as i64, y: qy as i64 }
    }
}

/// `d * trunc_div(a, d)` lies between zero and `a`, less than `d` away from `a`.
pub proof fn lemma_trunc_div_close(a: int, d: int)
    requires
        d > 0,
    ensures
        a >= 0 ==> 0 <= d * trunc_div(a, d) <= a,
        a < 0 ==> a <= d * trunc_div(a, d) <= 0,
        abs(a - d * trunc_div(a, d)) < d,
{
    vstd::arithmetic::div_mod::lemma_fundamental_div_mod(abs(a), d);
    vstd::arithmetic::div_mod::lemma_mod_bound(abs(a), d);
    let q = abs(a) / d;
    assert(d * q >= 0) by (nonlinear_arith)
        requires
            d > 0,
            q >= 0,
    ;
    lemma_trunc_div_bounded(a, d);
    if a < 0 {
        assert(d * trunc_div(a, d) == -(d * q)) by (nonlinear_arith)
            requires
                trunc_div(a, d) == -q,
        ;
    }
}

/// The square of an `i64` lies in `0 ..= 2^126`.
pub proof fn lemma_square_of_i64(v: int)
    requires
        i64::MIN <= v <= i64::MAX,
    ensures
        0 <= v * v <= 0x4000_0000_0000_0000_0000_0000_0000_0000,
{
    assert(0 <= v * v <= 0x4000_0000_0000_0000_0000_0000_0000_0000) by (nonlinear_arith)
        requires
            -0x8000_0000_0000_0000 <= v <= 0x8000_0000_0000_0000,
    ;
}

/// A quotient rounded toward zero is no larger in magnitude than the dividend.
pub proof fn lemma_trunc_div_bounded(a: int, d: int)
    requires
        d != 0,
    ensures
        abs(trunc_div(a, d)) <= abs(a),
        abs(trunc_div(a, d)) == abs(a) / abs(d),
{
    assert(abs(a) / abs(d) <= abs(a)) by (nonlinear_arith)
        requires
            abs(d) >= 1,
            abs(a) >= 0,
    ;
    assert(abs(a) / abs(d) >= 0) by (nonlinear_arith)
        requires
            abs(d) >= 1,
            abs(a) >= 0,
    ;
}

} // verus!
