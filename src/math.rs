use vstd::prelude::*;

verus! {

/// One unit in fixed point: every real quantity is stored in thousandths.
pub const SCALE: i64 = 1000;

/// Largest magnitude of a coordinate of a position in the world.
pub const COORD_LIMIT: i64 = 100_000_000;

/// Largest magnitude of a coordinate of a ray direction.
pub const DIR_LIMIT: i64 = 200_000_000;

/// Largest magnitude of a coordinate that `normalize` accepts.
pub const NORMALIZE_LIMIT: i64 = 2_000_000_000;

/// Largest magnitude of a coordinate that `dot` accepts.
pub const DOT_LIMIT: i64 = 4_000_000_000_000_000_000;

/// A point or vector in fixed point; used both as a position and as a direction.
#[derive(Clone, Copy, Debug, PartialEq, Eq, Structural)]
pub struct Point(pub i64, pub i64, pub i64);

/// A three-component vector of mathematical integers.
pub type V3 = (int, int, int);

impl View for Point {
    type V = V3;

    open spec fn view(&self) -> V3 {
        (self.0 as int, self.1 as int, self.2 as int)
    }
}

pub open spec fn bounded(v: V3, lim: int) -> bool {
    &&& -lim <= v.0 <= lim
    &&& -lim <= v.1 <= lim
    &&& -lim <= v.2 <= lim
}

pub open spec fn v_add(a: V3, b: V3) -> V3 {
    (a.0 + b.0, a.1 + b.1, a.2 + b.2)
}

pub open spec fn v_sub(a: V3, b: V3) -> V3 {
    (a.0 - b.0, a.1 - b.1, a.2 - b.2)
}

pub open spec fn v_neg(a: V3) -> V3 {
    (-a.0, -a.1, -a.2)
}

pub open spec fn v_dot(a: V3, b: V3) -> int {
    a.0 * b.0 + a.1 * b.1 + a.2 * b.2
}

/// Integer division rounded toward zero, as a cast of a real quotient to an integer.
pub open spec fn tdiv(a: int, b: int) -> int {
    if a >= 0 {
        a / b
    } else {
        -((-a) / b)
    }
}

/// Integer division by a positive divisor, rounded to the nearest integer (halves away from zero).
pub open spec fn rdiv(a: int, b: int) -> int {
    if a >= 0 {
        (2 * a + b) / (2 * b)
    } else {
        -((2 * (-a) + b) / (2 * b))
    }
}

/// Each component times `k`, divided by `d`, rounded toward zero.
pub open spec fn v_scale(a: V3, k: int, d: int) -> V3 {
    (tdiv(a.0 * k, d), tdiv(a.1 * k, d), tdiv(a.2 * k, d))
}

pub open spec fn is_isqrt(n: int, s: int) -> bool {
    0 <= s && s * s <= n < (s + 1) * (s + 1)
}

/// The integer square root: the largest `s` with `s * s <= n`.
pub open spec fn isqrt_spec(n: int) -> int {
    choose|s: int| #[trigger] is_isqrt(n, s)
}

/// Euclidean length, rounded down.
pub open spec fn v_len(a: V3) -> int {
    isqrt_spec(v_dot(a, a))
}

/// The vector scaled to length `SCALE`; the zero vector stays zero.
pub open spec fn v_normalize(a: V3) -> V3 {
    if v_dot(a, a) == 0 {
        (0, 0, 0)
    } else {
        v_scale(a, SCALE as int, v_len(a))
    }
}

pub proof fn lemma_mul_bound(a: int, b: int, la: int, lb: int)
    requires
        -la <= a <= la,
        -lb <= b <= lb,
    ensures
        -(la * lb) <= a * b <= la * lb,
{
    assert(-(la * lb) <= a * b <= la * lb) by (nonlinear_arith)
        requires
            -la <= a <= la,
            -lb <= b <= lb,
    ;
}

pub proof fn lemma_dot_bound(a: V3, b: V3, la: int, lb: int)
    requires
        bounded(a, la),
        bounded(b, lb),
    ensures
        -(3 * (la * lb)) <= v_dot(a, b) <= 3 * (la * lb),
{
    lemma_mul_bound(a.0, b.0, la, lb);
    lemma_mul_bound(a.1, b.1, la, lb);
    lemma_mul_bound(a.2, b.2, la, lb);
}

pub proof fn lemma_square_nonneg(a: V3)
    ensures
        v_dot(a, a) >= 0,
        v_dot(a, a) == 0 <==> a == (0int, 0int, 0int),
{
    assert(a.0 * a.0 >= 0 && a.1 * a.1 >= 0 && a.2 * a.2 >= 0) by (nonlinear_arith);
    assert(a.0 != 0 ==> a.0 * a.0 > 0) by (nonlinear_arith);
    assert(a.1 != 0 ==> a.1 * a.1 > 0) by (nonlinear_arith);
    assert(a.2 != 0 ==> a.2 * a.2 > 0) by (nonlinear_arith);
}

pub proof fn lemma_isqrt_unique(n: int, s: int, t: int)
    requires
        is_isqrt(n, s),
        is_isqrt(n, t),
    ensures
        s == t,
{
    if s < t {
        assert((s + 1) * (s + 1) <= t * t) by (nonlinear_arith)
            requires
                0 <= s < t,
        ;
    } else if t < s {
        assert((t + 1) * (t + 1) <= s * s) by (nonlinear_arith)
            requires
                0 <= t < s,
        ;
    }
}

/// Any witness of the square-root relation is the integer square root.
pub proof fn lemma_isqrt_is(n: int, s: int)
    requires
        is_isqrt(n, s),
    ensures
        isqrt_spec(n) == s,
{
    let c = isqrt_spec(n);
    assert(is_isqrt(n, c));
    lemma_isqrt_unique(n, s, c);
}

/// The integer square root is at most its argument, and bounds each factor of the square.
pub proof fn lemma_isqrt_bounds(n: int, a: int)
    requires
        n >= 0,
        a * a <= n,
    ensures
        is_isqrt(n, isqrt_spec(n)),
        0 <= isqrt_spec(n) <= n,
        -isqrt_spec(n) <= a <= isqrt_spec(n),
{
    let s = isqrt_spec(n);
    assert(exists|x: int| #[trigger] is_isqrt(n, x)) by {
        lemma_isqrt_exists(n);
    }
    assert(is_isqrt(n, s));
    assert(s <= n) by (nonlinear_arith)
        requires
            0 <= s,
            s * s <= n,
    ;
    assert(-s <= a <= s) by (nonlinear_arith)
        requires
            0 <= s,
            a * a < (s + 1) * (s + 1),
    ;
}

proof fn lemma_isqrt_exists(n: int)
    requires
        n >= 0,
    ensures
        exists|x: int| #[trigger] is_isqrt(n, x),
    decreases n,
{
    if n == 0 {
        assert(is_isqrt(0, 0));
    } else {
        lemma_isqrt_exists(n - 1);
        let s = choose|x: int| #[trigger] is_isqrt(n - 1, x);
        if (s + 1) * (s + 1) <= n {
            assert((s + 1) * (s + 1) == n) by (nonlinear_arith)
                requires
                    n - 1 < (s + 1) * (s + 1),
                    (s + 1) * (s + 1) <= n,
            ;
            assert(n < (s + 2) * (s + 2)) by (nonlinear_arith)
                requires
                    (s + 1) * (s + 1) == n,
                    s >= 0,
            ;
            assert(is_isqrt(n, s + 1));
        } else {
            assert(is_isqrt(n, s));
        }
    }
}

/// Whether every coordinate lies in `[-lim, lim]`.
pub fn is_bounded(c: &Point, lim: i64) -> (r: bool)
    requires
        lim >= 0,
    ensures
        r == bounded(c@, lim as int),
{
    -lim <= c.0 && c.0 <= lim && -lim <= c.1 && c.1 <= lim && -lim <= c.2 && c.2 <= lim
}

/// Componentwise sum.
pub fn add(c1: &Point, c2: &Point) -> (r: Point)
    requires
        i64::MIN <= c1.0 + c2.0 <= i64::MAX,
        i64::MIN <= c1.1 + c2.1 <= i64::MAX,
        i64::MIN <= c1.2 + c2.2 <= i64::MAX,
    ensures
        r@ == v_add(c1@, c2@),
{
    Point(c1.0 + c2.0, c1.1 + c2.1, c1.2 + c2.2)
}

/// Componentwise difference.
pub fn subtract(c1: &Point, c2: &Point) -> (r: Point)
    requires
        i64::MIN <= c1.0 - c2.0 <= i64::MAX,
        i64::MIN <= c1.1 - c2.1 <= i64::MAX,
        i64::MIN <= c1.2 - c2.2 <= i64::MAX,
    ensures
        r@ == v_sub(c1@, c2@),
{
    Point(c1.0 - c2.0, c1.1 - c2.1, c1.2 - c2.2)
}

/// Componentwise negation.
pub fn negate(c: &Point) -> (r: Point)
    requires
        bounded(c@, DOT_LIMIT as int),
    ensures
        r@ == v_neg(c@),
{
    Point(-c.0, -c.1, -c.2)
}

/// Dot product, exact.
pub fn dot(c1: &Point, c2: &Point) -> (r: i128)
    requires
        bounded(c1@, DOT_LIMIT as int),
        bounded(c2@, DOT_LIMIT as int),
    ensures
        r == v_dot(c1@, c2@),
{
    proof {
        let l = DOT_LIMIT as int;
        lemma_mul_bound(c1.0 as int, c2.0 as int, l, l);
        lemma_mul_bound(c1.1 as int, c2.1 as int, l, l);
        lemma_mul_bound(c1.2 as int, c2.2 as int, l, l);
    }
    (c1.0 as i128) * (c2.0 as i128) + (c1.1 as i128) * (c2.1 as i128) + (c1.2 as i128) * (
    c2.2 as i128)
}

/// Division rounded toward zero by a positive divisor.
pub fn div_toward_zero(a: i128, b: i128) -> (r: i128)
    requires
        a > i128::MIN,
        b > 0,
    ensures
        r == tdiv(a as int, b as int),
        -a <= r <= a || a <= r <= -a,
{
    if a >= 0 {
        let q = ((a as u128) / (b as u128)) as i128;
        proof {
            assert(q <= a) by (nonlinear_arith)
                requires
                    q as int == (a as int) / (b as int),
                    a >= 0,
                    b > 0,
            ;
        }
        q
    } else {
        let q = (((-a) as u128) / (b as u128)) as i128;
        proof {
            assert(q <= -a) by (nonlinear_arith)
                requires
                    q as int == (-(a as int)) / (b as int),
                    -a >= 0,
                    b > 0,
            ;
            assert(q >= 0) by (nonlinear_arith)
                requires
                    q as int == (-(a as int)) / (b as int),
                    -a >= 0,
                    b > 0,
            ;
        }
        -q
    }
}

/// Division rounded to the nearest integer by a positive divisor.
pub fn div_round(a: i128, b: i128) -> (r: i128)
    requires
        -0x1_0000_0000_0000_0000_0000_0000_0000 <= a <= 0x1_0000_0000_0000_0000_0000_0000_0000,
        0 < b <= 0x1_0000_0000_0000_0000_0000_0000_0000,
    ensures
        r == rdiv(a as int, b as int),
        -a <= r <= a || a <= r <= -a,
{
    let m: i128 = if a >= 0 {
        a
    } else {
        -a
    };
    let q = (2 * m + b) / (2 * b);
    proof {
        assert(0 <= q <= m) by (nonlinear_arith)
            requires
                q == (2 * m + b) / (2 * b),
                m >= 0,
                b > 0,
        ;
    }
    if a >= 0 {
        q
    } else {
        -q
    }
}

/// Integer square root by bisection.
pub fn isqrt(n: u128) -> (r: u128)
    requires
        n < 0x4000_0000_0000_0000_0000_0000_0000_0000,
    ensures
        r == isqrt_spec(n as int),
        is_isqrt(n as int, r as int),
        r < 0x8000_0000_0000_0000,
{
    let mut lo: u128 = 0;
    let mut hi: u128 = 0x8000_0000_0000_0000;
    assert(hi * hi == 0x4000_0000_0000_0000_0000_0000_0000_0000) by (nonlinear_arith)
        requires
            hi == 0x8000_0000_0000_0000u128,
    ;
    while hi - lo > 1
        invariant
            lo < hi <= 0x8000_0000_0000_0000,
            lo * lo <= n,
            n < hi * hi,
        decreases hi - lo,
    {
        let mid = lo + (hi - lo) / 2;
        assert(mid * mid <= 0x4000_0000_0000_0000_0000_0000_0000_0000) by (nonlinear_arith)
            requires
                mid < 0x8000_0000_0000_0000u128,
        ;
        if mid * mid <= n {
            lo = mid;
        } else {
            hi = mid;
        }
    }
    assert(is_isqrt(n as int, lo as int));
    proof {
        lemma_isqrt_is(n as int, lo as int);
    }
    lo
}

/// Euclidean length, rounded down.
pub fn length(c: &Point) -> (r: i128)
    requires
        bounded(c@, DOT_LIMIT as int),
    ensures
        r == v_len(c@),
        0 <= r,
{
    proof {
        lemma_square_nonneg(c@);
        lemma_dot_bound(c@, c@, DOT_LIMIT as int, DOT_LIMIT as int);
    }
    let d = dot(c, c);
    let s = isqrt(d as u128);
    s as i128
}

/// Each component times the fixed-point scalar `k`, rounded toward zero.
pub fn multiply(c1: &Point, k: i64) -> (r: Point)
    requires
        bounded(c1@, DIR_LIMIT as int),
        -COORD_LIMIT <= k <= COORD_LIMIT,
    ensures
        r@ == v_scale(c1@, k as int, SCALE as int),
{
    proof {
        lemma_mul_bound(c1.0 as int, k as int, DIR_LIMIT as int, COORD_LIMIT as int);
        lemma_mul_bound(c1.1 as int, k as int, DIR_LIMIT as int, COORD_LIMIT as int);
        lemma_mul_bound(c1.2 as int, k as int, DIR_LIMIT as int, COORD_LIMIT as int);
    }
    let s = SCALE as i128;
    let x = div_toward_zero((c1.0 as i128) * (k as i128), s);
    let y = div_toward_zero((c1.1 as i128) * (k as i128), s);
    let z = div_toward_zero((c1.2 as i128) * (k as i128), s);
    Point(x as i64, y as i64, z as i64)
}

/// Each component divided by the nonzero fixed-point scalar `k`, rounded toward zero.
pub open spec fn v_div(a: V3, k: int) -> V3 {
    if k > 0 {
        v_scale(a, SCALE as int, k)
    } else {
        v_scale(v_neg(a), SCALE as int, -k)
    }
}

pub fn divide(c1: &Point, k: i64) -> (r: Point)
    requires
        bounded(c1@, DIR_LIMIT as int),
        k != 0,
        -COORD_LIMIT <= k <= COORD_LIMIT,
    ensures
        r@ == v_div(c1@, k as int),
{
    let c = if k > 0 {
        *c1
    } else {
        negate(c1)
    };
    let m: i128 = if k > 0 {
        k as i128
    } else {
        -(k as i128)
    };
    proof {
        lemma_mul_bound(c.0 as int, SCALE as int, DIR_LIMIT as int, SCALE as int);
        lemma_mul_bound(c.1 as int, SCALE as int, DIR_LIMIT as int, SCALE as int);
        lemma_mul_bound(c.2 as int, SCALE as int, DIR_LIMIT as int, SCALE as int);
    }
    let s = SCALE as i128;
    let x = div_toward_zero((c.0 as i128) * s, m);
    let y = div_toward_zero((c.1 as i128) * s, m);
    let z = div_toward_zero((c.2 as i128) * s, m);
    Point(x as i64, y as i64, z as i64)
}

/// Scales a direction to length `SCALE`; the zero vector stays zero.
pub fn normalize(c: &Point) -> (r: Point)
    requires
        bounded(c@, NORMALIZE_LIMIT as int),
    ensures
        r@ == v_normalize(c@),
        bounded(r@, SCALE as int),
{
    proof {
        lemma_square_nonneg(c@);
        lemma_dot_bound(c@, c@, NORMALIZE_LIMIT as int, NORMALIZE_LIMIT as int);
    }
    let d = dot(c, c);
    if d == 0 {
        return Point(0, 0, 0);
    }
    let len = length(c);
    proof {
        let n = v_dot(c@, c@);
        let (x, y, z) = (c.0 as int, c.1 as int, c.2 as int);
        assert(x * x <= n && y * y <= n && z * z <= n) by (nonlinear_arith)
            requires
                n == x * x + y * y + z * z,
        ;
        lemma_isqrt_bounds(n, x);
        lemma_isqrt_bounds(n, y);
        lemma_isqrt_bounds(n, z);
        if len == 0 {
            assert(x == 0 && y == 0 && z == 0);
        }
    }
    let x = normalize_component(c.0, len);
    let y = normalize_component(c.1, len);
    let z = normalize_component(c.2, len);
    Point(x, y, z)
}

fn normalize_component(a: i64, len: i128) -> (r: i64)
    requires
        len > 0,
        -len <= a <= len,
        len <= 100_000_000_000_000_000_000,
    ensures
        r == tdiv(a * SCALE, len as int),
        -SCALE <= r <= SCALE,
{
    proof {
        lemma_mul_bound(a as int, SCALE as int, len as int, SCALE as int);
        assert((len * SCALE) / (len as int) == SCALE as int) by (nonlinear_arith)
            requires
                len > 0,
        ;
        assert(0 <= a * SCALE ==> (a * SCALE) / (len as int) <= (len * SCALE) / (len as int)) by (nonlinear_arith)
            requires
                len > 0,
                a * SCALE <= len * SCALE,
        ;
        assert(a * SCALE < 0 ==> (-(a * SCALE)) / (len as int) <= (len * SCALE) / (len as int)) by (nonlinear_arith)
            requires
                len > 0,
                -(a * SCALE) <= len * SCALE,
        ;
    }
    let q = div_toward_zero((a as i128) * (SCALE as i128), len);
    q as i64
}

} // verus!
