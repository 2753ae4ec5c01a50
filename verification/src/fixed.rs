//! Fixed-point arithmetic: floor division, clamping, integer square roots
//! and unit vectors.
use vstd::prelude::*;
use vstd::arithmetic::div_mod::lemma_fundamental_div_mod;
use vstd::arithmetic::div_mod::lemma_fundamental_div_mod_converse;

verus! {

/// Steps per metre; also the fixed-point representation of the scalar one.
pub const ONE: i64 = 65536;

/// Length of a unit direction vector.
pub const UNIT: i64 = 0x4000_0000;

/// Largest magnitude of a coordinate that the wide helpers accept.
pub const WIDE: i64 = 0x100_0000_0000;

/// `v` limited to the interval from `lo` to `hi`.
pub open spec fn clamped(v: int, lo: int, hi: int) -> int {
    if v < lo {
        lo
    } else if v > hi {
        hi
    } else {
        v
    }
}

/// The absolute value of `v`.
pub open spec fn magnitude(v: int) -> int {
    if v < 0 {
        -v
    } else {
        v
    }
}

/// The quotient of `n` by `d`, rounded towards minus infinity.
pub open spec fn floor_div(n: int, d: int) -> int {
    if d > 0 {
        n / d
    } else {
        (-n) / (-d)
    }
}

/// `r` is the integer square root of `n`.
pub open spec fn is_sqrt_floor(n: int, r: int) -> bool {
    r >= 0 && r * r <= n < (r + 1) * (r + 1)
}

/// The integer square root of `n`: the largest `r` with `r * r <= n`.
pub open spec fn sqrt_floor(n: int) -> int {
    choose|r: int| is_sqrt_floor(n, r)
}

/// The length of the vector `(dx, dy)`, rounded down.
pub open spec fn length(dx: int, dy: int) -> int {
    sqrt_floor(dx * dx + dy * dy)
}

/// One component of the unit vector along `(dx, dy)`, scaled by `UNIT`.
pub open spec fn unit_part(c: int, dx: int, dy: int) -> int {
    let l = sqrt_floor((dx * dx + dy * dy) * 0x1_0000_0000);
    if l == 0 {
        0
    } else {
        clamped((c * 0x4000_0000_0000) / l, -(UNIT as int), UNIT as int)
    }
}

/// A product of two bounded factors is bounded by the product of the bounds.
pub proof fn lemma_product_bound(a: int, b: int, ka: int, kb: int)
    requires
        -ka <= a <= ka,
        -kb <= b <= kb,
    ensures
        -(ka * kb) <= a * b <= ka * kb,
{
    assert(-(ka * kb) <= a * b <= ka * kb) by (nonlinear_arith)
        requires
            -ka <= a <= ka,
            -kb <= b <= kb,
    ;
}

/// A number has at most one integer square root.
pub proof fn lemma_sqrt_unique(n: int, r: int, s: int)
    requires
        is_sqrt_floor(n, r),
        is_sqrt_floor(n, s),
    ensures
        r == s,
{
    if r < s {
        assert((r + 1) * (r + 1) <= s * s) by (nonlinear_arith)
            requires
                0 <= r,
                r + 1 <= s,
        ;
    } else if s < r {
        assert((s + 1) * (s + 1) <= r * r) by (nonlinear_arith)
            requires
                0 <= s,
                s + 1 <= r,
        ;
    }
}

/// The integer square root does not decrease when its argument grows.
pub proof fn lemma_sqrt_monotone(n: int, r: int, m: int, s: int)
    requires
        is_sqrt_floor(n, r),
        is_sqrt_floor(m, s),
        n <= m,
    ensures
        r <= s,
{
    if s < r {
        assert((s + 1) * (s + 1) <= r * r) by (nonlinear_arith)
            requires
                0 <= s,
                s + 1 <= r,
        ;
    }
}

/// The exact product of two 64-bit integers.
pub fn prod(a: i64, b: i64) -> (r: i128)
    ensures
        r == a * b,
{
    proof {
        lemma_product_bound(a as int, b as int, 0x8000_0000_0000_0000, 0x8000_0000_0000_0000);
    }
    (a as i128) * (b as i128)
}

/// `v` limited to the range of `i32`.
pub fn clamp_i32(v: i128) -> (r: i32)
    ensures
        r == clamped(v as int, i32::MIN as int, i32::MAX as int),
{
    if v < -0x8000_0000 {
        i32::MIN
    } else if v > 0x7fff_ffff {
        i32::MAX
    } else {
        v as i32
    }
}

/// `v` limited to the interval from `lo` to `hi`.
pub fn clamp_between(v: i128, lo: i64, hi: i64) -> (r: i64)
    requires
        lo <= hi,
    ensures
        r == clamped(v as int, lo as int, hi as int),
{
    if v < lo as i128 {
        lo
    } else if v > hi as i128 {
        hi
    } else {
        v as i64
    }
}

/// Floor division by a positive divisor.
pub fn div_floor(n: i128, d: i128) -> (q: i128)
    requires
        d > 0,
        n > i128::MIN,
    ensures
        q == n / d,
        q == floor_div(n as int, d as int),
        -magnitude(n as int) <= q <= magnitude(n as int),
{
    if n >= 0 {
        proof {
            vstd::arithmetic::div_mod::lemma_div_is_ordered_by_denominator(n as int, 1, d as int);
            vstd::arithmetic::div_mod::lemma_div_is_ordered(0, n as int, d as int);
        }
        n / d
    } else {
        let m: i128 = -n;
        let q: i128 = m / d;
        let rem: i128 = m % d;
        proof {
            lemma_fundamental_div_mod(m as int, d as int);
            vstd::arithmetic::div_mod::lemma_div_is_ordered(0, m as int, d as int);
            assert(q <= d * q) by (nonlinear_arith)
                requires
                    q >= 0,
                    d >= 1,
            ;
            if rem == 0 {
                assert(n == (-q) * d + 0) by (nonlinear_arith)
                    requires
                        m == d * q + rem,
                        rem == 0,
                        n == -m,
                ;
                lemma_fundamental_div_mod_converse(n as int, d as int, -q as int, 0);
            } else {
                assert(n == (-q - 1) * d + (d - rem)) by (nonlinear_arith)
                    requires
                        m == d * q + rem,
                        n == -m,
                ;
                lemma_fundamental_div_mod_converse(
                    n as int,
                    d as int,
                    (-q - 1) as int,
                    (d - rem) as int,
                );
            }
        }
        if rem == 0 {
            -q
        } else {
            -q - 1
        }
    }
}

/// Floor division by a divisor of either sign.
pub fn div_signed(n: i128, d: i128) -> (q: i128)
    requires
        d != 0,
        n > i128::MIN,
        d > i128::MIN,
    ensures
        q == floor_div(n as int, d as int),
        -magnitude(n as int) <= q <= magnitude(n as int),
{
    if d > 0 {
        div_floor(n, d)
    } else {
        div_floor(-n, -d)
    }
}

/// The integer square root, by bisection.
pub fn isqrt(n: u128) -> (r: u128)
    ensures
        is_sqrt_floor(n as int, r as int),
        r == sqrt_floor(n as int),
        r < 0x1_0000_0000_0000_0000,
{
    let mut lo: u128 = 0;
    let mut hi: u128 = 0x1_0000_0000_0000_0000;
    assert(n < hi * hi) by {
        assert(0x1_0000_0000_0000_0000int * 0x1_0000_0000_0000_0000int
            == 0x1_0000_0000_0000_0000_0000_0000_0000_0000int) by (nonlinear_arith);
    }
    while hi - lo > 1
        invariant
            lo < hi <= 0x1_0000_0000_0000_0000,
            lo * lo <= n < hi * hi,
        decreases hi - lo,
    {
        let mid: u128 = lo + (hi - lo) / 2;
        assert(mid * mid <= 0xffff_ffff_ffff_ffff * 0xffff_ffff_ffff_ffff) by (nonlinear_arith)
            requires
                0 <= mid <= 0xffff_ffff_ffff_ffff,
        ;
        assert(0xffff_ffff_ffff_ffffint * 0xffff_ffff_ffff_ffffint < 0x1_0000_0000_0000_0000_0000_0000_0000_0000int) by (nonlinear_arith);
        if mid * mid <= n {
            lo = mid;
        } else {
            hi = mid;
        }
    }
    proof {
        assert(hi == lo + 1);
        assert(is_sqrt_floor(n as int, lo as int));
        lemma_sqrt_unique(n as int, lo as int, sqrt_floor(n as int));
    }
    lo
}

/// The length of the vector `(dx, dy)`, rounded down.
pub fn vector_length(dx: i64, dy: i64) -> (l: i64)
    requires
        -2 * WIDE <= dx <= 2 * WIDE,
        -2 * WIDE <= dy <= 2 * WIDE,
    ensures
        l == length(dx as int, dy as int),
        0 <= l <= magnitude(dx as int) + magnitude(dy as int),
{
    proof {
        lemma_product_bound(dx as int, dx as int, 0x200_0000_0000, 0x200_0000_0000);
        lemma_product_bound(dy as int, dy as int, 0x200_0000_0000, 0x200_0000_0000);
        assert(dx * dx >= 0) by (nonlinear_arith);
        assert(dy * dy >= 0) by (nonlinear_arith);
    }
    let sq: u128 = (prod(dx, dx) + prod(dy, dy)) as u128;
    proof {
        assert(dx * dx == magnitude(dx as int) * magnitude(dx as int)) by (nonlinear_arith);
        assert(dy * dy == magnitude(dy as int) * magnitude(dy as int)) by (nonlinear_arith);
    }
    let l = isqrt(sq);
    proof {
        let ax = magnitude(dx as int);
        let ay = magnitude(dy as int);
        if l > ax + ay {
            assert(l * l > sq) by (nonlinear_arith)
                requires
                    l >= ax + ay + 1,
                    ax >= 0,
                    ay >= 0,
                    sq == ax * ax + ay * ay,
            ;
        }
    }
    l as i64
}

/// The unit vector along `(dx, dy)`, scaled by `UNIT`; the zero vector
/// for the zero vector.
pub fn unit_vector(dx: i64, dy: i64) -> (u: (i64, i64))
    requires
        -2 * WIDE <= dx <= 2 * WIDE,
        -2 * WIDE <= dy <= 2 * WIDE,
    ensures
        u.0 == unit_part(dx as int, dx as int, dy as int),
        u.1 == unit_part(dy as int, dx as int, dy as int),
        -UNIT <= u.0 <= UNIT,
        -UNIT <= u.1 <= UNIT,
{
    proof {
        lemma_product_bound(dx as int, dx as int, 0x200_0000_0000, 0x200_0000_0000);
        lemma_product_bound(dy as int, dy as int, 0x200_0000_0000, 0x200_0000_0000);
        assert(dx * dx >= 0) by (nonlinear_arith);
        assert(dy * dy >= 0) by (nonlinear_arith);
    }
    let sq: u128 = (prod(dx, dx) + prod(dy, dy)) as u128;
    let l = isqrt(sq * 0x1_0000_0000);
    if l == 0 {
        return (0, 0);
    }
    let ux = div_floor((dx as i128) * 0x4000_0000_0000, l as i128);
    let uy = div_floor((dy as i128) * 0x4000_0000_0000, l as i128);
    (clamp_between(ux, -UNIT, UNIT), clamp_between(uy, -UNIT, UNIT))
}

/// Every number from zero on has an integer square root.
pub proof fn lemma_sqrt_exists(n: int)
    requires
        n >= 0,
    ensures
        is_sqrt_floor(n, sqrt_floor(n)),
    decreases n,
{
    if n == 0 {
        assert(is_sqrt_floor(0, 0));
    } else {
        lemma_sqrt_exists(n - 1);
        let r = sqrt_floor(n - 1);
        if (r + 1) * (r + 1) <= n {
            assert((r + 2) * (r + 2) > (r + 1) * (r + 1)) by (nonlinear_arith)
                requires
                    r >= 0,
            ;
            assert(is_sqrt_floor(n, r + 1));
        } else {
            assert(is_sqrt_floor(n, r));
        }
    }
}

/// The unit vector along a vector that is neither short nor long has the
/// length `UNIT`, give or take a little: its square lies within five
/// times `UNIT` of the square of `UNIT`.
pub proof fn lemma_unit_norm(dx: int, dy: int)
    requires
        -UNIT <= dx <= UNIT,
        -UNIT <= dy <= UNIT,
        dx * dx + dy * dy >= 0x400_0000_0000_0000,
    ensures
        ({
            let ux = unit_part(dx, dx, dy);
            let uy = unit_part(dy, dx, dy);
            &&& -UNIT <= ux <= UNIT
            &&& -UNIT <= uy <= UNIT
            &&& UNIT * UNIT - 4 * UNIT <= ux * ux + uy * uy <= UNIT * UNIT + 5 * UNIT
        }),
{
    let u: int = 0x4000_0000;
    let k: int = 0x4000_0000_0000;
    let n = dx * dx + dy * dy;
    let m = n * 0x1_0000_0000;
    lemma_product_bound(dx, dx, u, u);
    lemma_product_bound(dy, dy, u, u);
    lemma_sqrt_exists(m);
    let l = sqrt_floor(m);
    // The root lies between 2^45 and 2^47.
    assert(is_sqrt_floor(0x400_0000_0000_0000_0000_0000, 0x2000_0000_0000)) by {
        assert(0x2000_0000_0000int * 0x2000_0000_0000int == 0x400_0000_0000_0000_0000_0000int)
            by (nonlinear_arith);
        assert(0x2000_0000_0001int * 0x2000_0000_0001int > 0x400_0000_0000_0000_0000_0000int)
            by (nonlinear_arith);
    }
    lemma_sqrt_monotone(0x400_0000_0000_0000_0000_0000, 0x2000_0000_0000, m, l);
    let qx = (dx * k) / l;
    let qy = (dy * k) / l;
    assert(dx * dx >= 0 && dy * dy >= 0) by (nonlinear_arith);
    lemma_unit_quotient(dx, n, l);
    lemma_unit_quotient(dy, n, l);
    let ex = dx * k - l * qx;
    let ey = dy * k - l * qy;
    assert(unit_part(dx, dx, dy) == qx);
    assert(unit_part(dy, dx, dy) == qy);
    let ax = dx * k;
    let ay = dy * k;
    // The squares of the scaled components.
    assert(ax * ax + ay * ay == u * u * m) by (nonlinear_arith)
        requires
            ax == dx * k,
            ay == dy * k,
            m == (dx * dx + dy * dy) * 0x1_0000_0000,
            k == 0x4000_0000_0000,
            u == 0x4000_0000,
    ;
    assert(u * u * (l * l) <= u * u * m) by (nonlinear_arith)
        requires
            l * l <= m,
            u == 0x4000_0000,
    ;
    assert(u * u * m < u * u * ((l + 1) * (l + 1))) by (nonlinear_arith)
        requires
            m < (l + 1) * (l + 1),
            u == 0x4000_0000,
    ;
    lemma_square_near(ax, l, qx, ex, u);
    lemma_square_near(ay, l, qy, ey, u);
    let total = l * l * (qx * qx) + l * l * (qy * qy);
    assert(total == l * l * (qx * qx + qy * qy)) by (nonlinear_arith)
        requires
            total == l * l * (qx * qx) + l * l * (qy * qy),
    ;
    // From below.
    assert(total >= l * l * (u * u - 4 * u)) by (nonlinear_arith)
        requires
            total == l * l * (qx * qx) + l * l * (qy * qy),
            l * l * (qx * qx) >= ax * ax - 2 * (l * l) * u,
            l * l * (qy * qy) >= ay * ay - 2 * (l * l) * u,
            ax * ax + ay * ay >= u * u * (l * l),
    ;
    assert(qx * qx + qy * qy >= u * u - 4 * u) by (nonlinear_arith)
        requires
            l * l * (qx * qx + qy * qy) >= l * l * (u * u - 4 * u),
            l > 0,
    ;
    // From above.
    assert(u * u * ((l + 1) * (l + 1)) <= l * l * (u * u + 0x1_0001)) by (nonlinear_arith)
        requires
            l >= 0x2000_0000_0000,
            u == 0x4000_0000,
    ;
    assert(total < l * l * (u * u + 5 * u + 1)) by (nonlinear_arith)
        requires
            total == l * l * (qx * qx) + l * l * (qy * qy),
            l * l * (qx * qx) <= ax * ax + 2 * (l * l) * u + l * l,
            l * l * (qy * qy) <= ay * ay + 2 * (l * l) * u + l * l,
            ax * ax + ay * ay < l * l * (u * u + 0x1_0001),
            u == 0x4000_0000,
            l > 0,
    ;
    assert(qx * qx + qy * qy < u * u + 5 * u + 1) by (nonlinear_arith)
        requires
            l * l * (qx * qx + qy * qy) < l * l * (u * u + 5 * u + 1),
            l > 0,
    ;
}

/// One component of a vector, scaled and divided by the root of the
/// scaled square of its length, lies within the unit.
proof fn lemma_unit_quotient(c: int, n: int, l: int)
    requires
        c * c <= n,
        is_sqrt_floor(n * 0x1_0000_0000, l),
        l > 0,
    ensures
        -UNIT <= (c * 0x4000_0000_0000) / l <= UNIT,
        0 <= c * 0x4000_0000_0000 - l * ((c * 0x4000_0000_0000) / l) < l,
        -(l * UNIT) <= c * 0x4000_0000_0000 <= l * UNIT,
{
    let a = magnitude(c);
    let s = a * 0x1_0000;
    assert(a * a == c * c) by (nonlinear_arith)
        requires
            a == c || a == -c,
    ;
    assert(s * s <= n * 0x1_0000_0000) by (nonlinear_arith)
        requires
            s == a * 0x1_0000,
            a * a <= n,
    ;
    if s > l {
        assert(s * s >= (l + 1) * (l + 1)) by (nonlinear_arith)
            requires
                s >= l + 1,
                l >= 0,
        ;
    }
    assert(a * 0x4000_0000_0000 == s * 0x4000_0000);
    let v = c * 0x4000_0000_0000;
    assert(-(l * 0x4000_0000) <= v <= l * 0x4000_0000);
    vstd::arithmetic::div_mod::lemma_fundamental_div_mod(v, l);
    vstd::arithmetic::div_mod::lemma_mod_bound(v, l);
    vstd::arithmetic::div_mod::lemma_div_is_ordered(v, l * 0x4000_0000, l);
    vstd::arithmetic::div_mod::lemma_div_is_ordered(-(l * 0x4000_0000), v, l);
    vstd::arithmetic::div_mod::lemma_div_multiples_vanish(0x4000_0000, l);
    vstd::arithmetic::div_mod::lemma_div_multiples_vanish(-0x4000_0000, l);
    assert(l * (-0x4000_0000) == -(l * 0x4000_0000));
}

/// The square of a quotient, scaled back, lies near the square of what
/// was divided.
pub proof fn lemma_square_near(a: int, l: int, q: int, e: int, u: int)
    requires
        l > 0,
        u >= 0,
        e == a - l * q,
        0 <= e < l,
        -(l * u) <= a <= l * u,
    ensures
        a * a - 2 * (l * l) * u <= l * l * (q * q) <= a * a + 2 * (l * l) * u + l * l,
{
    assert(l * l * (q * q) == (a - e) * (a - e)) by (nonlinear_arith)
        requires
            e == a - l * q,
    ;
    assert((a - e) * (a - e) == a * a - 2 * (a * e) + e * e) by (nonlinear_arith);
    assert(-(l * l * u) <= a * e <= l * l * u) by (nonlinear_arith)
        requires
            0 <= e < l,
            -(l * u) <= a <= l * u,
            u >= 0,
    ;
    assert(0 <= e * e <= l * l) by (nonlinear_arith)
        requires
            0 <= e < l,
    ;
    assert(2 * (l * l) * u == 2 * (l * l * u)) by (nonlinear_arith);
}

} // verus!
