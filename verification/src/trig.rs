//! Fixed-point sine, cosine and powers of two, by their power series.
//!
//! Angles and exponents are in parts of `ONE`; sines, cosines and the
//! intermediate sums are in parts of `UNIT`.
use vstd::prelude::*;
use vstd::arithmetic::div_mod::lemma_fundamental_div_mod;
use vstd::arithmetic::div_mod::lemma_mod_bound;
use crate::fixed::clamp_between;
use crate::fixed::clamped;
use crate::fixed::div_floor;
use crate::fixed::lemma_product_bound;
use crate::fixed::lemma_unit_norm;
use crate::fixed::unit_part;
use crate::fixed::unit_vector;
use crate::fixed::ONE;
use crate::fixed::UNIT;

verus! {

/// A full turn, in parts of 2^32 of a radian.
pub const TURN: i64 = 26_986_075_409;

/// A quarter turn, in parts of 2^32 of a radian.
pub const QUARTER: i64 = 6_746_518_852;

/// The natural logarithm of two, in parts of `UNIT`.
pub const LN2: i64 = 744_261_118;

/// One step of an alternating series: `1 - y * acc / m`.
pub open spec fn falling(y: int, m: int, acc: int) -> int {
    clamped(UNIT - (y * acc) / (UNIT * m), 0, UNIT as int)
}

/// One step of a series of positive terms: `1 + z * acc / m`.
pub open spec fn rising(z: int, m: int, acc: int) -> int {
    UNIT + (z * acc) / (UNIT * m)
}

/// The cosine of the angle whose square is `y`, to the twelfth power of
/// the angle.
pub open spec fn cos_series(y: int) -> int {
    falling(
        y,
        2,
        falling(y, 12, falling(y, 30, falling(y, 56, falling(y, 90, falling(y, 132, UNIT as int))))),
    )
}

/// The sine of the angle `x`, whose square is `y`, to the thirteenth power
/// of the angle.
pub open spec fn sin_series(x: int, y: int) -> int {
    clamped(
        (x * falling(
            y,
            6,
            falling(
                y,
                20,
                falling(y, 42, falling(y, 72, falling(y, 110, falling(y, 156, UNIT as int)))),
            ),
        )) / (UNIT as int),
        0,
        UNIT as int,
    )
}

/// The angle reduced to one turn, in parts of 2^32 of a radian.
pub open spec fn reduced(angle: int) -> int {
    angle % (TURN as int)
}

/// Cosine and sine in the quadrant `q`, from those of the angle within it.
pub open spec fn in_quadrant(q: int, c: int, s: int) -> (int, int) {
    if q % 4 == 0 {
        (c, s)
    } else if q % 4 == 1 {
        (-s, c)
    } else if q % 4 == 2 {
        (-c, -s)
    } else {
        (s, -c)
    }
}

/// The cosine and the sine of an angle given in parts of 2^32 of a
/// radian, each in parts of `UNIT`.
pub open spec fn cos_sin_fine_of(angle: int) -> (int, int) {
    let r = reduced(angle);
    let q = r / (QUARTER as int);
    let x = (r - q * QUARTER) / 4;
    let y = (x * x) / (UNIT as int);
    in_quadrant(q, cos_series(y), sin_series(x, y))
}

/// The cosine and the sine of an angle given in parts of `ONE` of a
/// radian, each in parts of `UNIT`.
pub open spec fn cos_sin_of(angle: int) -> (int, int) {
    cos_sin_fine_of(angle * 65536)
}

/// Two to the power `k`.
pub open spec fn two_to(k: nat) -> int
    decreases k,
{
    if k == 0 {
        1
    } else {
        2 * two_to((k - 1) as nat)
    }
}

/// Two to the power of the fraction `f` of one, in parts of `UNIT`.
pub open spec fn exp2_series(f: int) -> int {
    let z = (f * LN2) / (ONE as int);
    rising(z, 1, rising(z, 2, rising(z, 3, rising(z, 4, rising(z, 5, rising(z, 6, rising(z, 7, UNIT as int)))))))
}

/// Two to the power `e`, in parts of `ONE`. The exponent is limited to
/// the interval from -16 to 15.
pub open spec fn exp2_of(e: int) -> int {
    let c = clamped(e, -16 * ONE, 15 * ONE);
    let k = c / (ONE as int);
    let p = exp2_series(c - k * ONE);
    if k >= 0 {
        (p * two_to(k as nat)) / 16384
    } else {
        p / two_to((14 - k) as nat)
    }
}

fn falling_step(y: i64, m: i64, acc: i64) -> (r: i64)
    requires
        0 <= y <= 4 * UNIT,
        1 <= m <= 1000,
        0 <= acc <= UNIT,
    ensures
        r == falling(y as int, m as int, acc as int),
        0 <= r <= UNIT,
{
    let d: i128 = 0x4000_0000 * (m as i128);
    proof {
        lemma_product_bound(y as int, acc as int, 4 * UNIT, UNIT as int);
        assert(d == UNIT * m);
    }
    let q: i128 = div_floor((y as i128) * (acc as i128), d);
    clamp_between(UNIT as i128 - q, 0, UNIT)
}

fn rising_step(z: i64, m: i64, acc: i64) -> (r: i64)
    requires
        0 <= z <= UNIT,
        1 <= m <= 1000,
        UNIT <= acc <= 8 * UNIT,
    ensures
        r == rising(z as int, m as int, acc as int),
        UNIT <= r <= UNIT + acc,
{
    let d: i128 = 0x4000_0000 * (m as i128);
    proof {
        lemma_product_bound(z as int, acc as int, UNIT as int, 8 * UNIT);
        assert(d == UNIT * m);
        assert(0 <= z * acc <= d * acc) by (nonlinear_arith)
            requires
                0 <= z <= 0x4000_0000,
                d == 0x4000_0000 * m,
                m >= 1,
                acc >= 0,
        ;
        vstd::arithmetic::div_mod::lemma_div_is_ordered(z * acc, d * acc, d as int);
        vstd::arithmetic::div_mod::lemma_div_is_ordered(0, z * acc, d as int);
        vstd::arithmetic::div_mod::lemma_div_multiples_vanish(acc as int, d as int);
    }
    let q: i128 = div_floor((z as i128) * (acc as i128), d);
    (UNIT as i128 + q) as i64
}

/// The cosine and the sine of an angle given in parts of 2^32 of a
/// radian, each in parts of `UNIT`.
pub fn cos_sin_fine(angle: i128) -> (r: (i64, i64))
    requires
        -0x100_0000_0000_0000_0000_0000_0000_0000 <= angle <= 0x100_0000_0000_0000_0000_0000_0000_0000,
    ensures
        (r.0 as int, r.1 as int) == cos_sin_fine_of(angle as int),
        -UNIT <= r.0 <= UNIT,
        -UNIT <= r.1 <= UNIT,
{
    let turns: i128 = div_floor(angle, TURN as i128);
    proof {
        lemma_fundamental_div_mod(angle as int, TURN as int);
        lemma_mod_bound(angle as int, TURN as int);
        assert(turns * TURN == TURN * turns) by (nonlinear_arith);
    }
    let r: i64 = (angle - turns * (TURN as i128)) as i64;
    assert(r == reduced(angle as int));
    let q: i64 = r / QUARTER;
    assert(0 <= q <= 4);
    let x: i64 = (r - q * QUARTER) / 4;
    proof {
        lemma_fundamental_div_mod(r as int, QUARTER as int);
        lemma_mod_bound(r as int, QUARTER as int);
        lemma_product_bound(x as int, x as int, 0x8000_0000, 0x8000_0000);
    }
    assert(0 <= x < 0x8000_0000);
    let y: i64 = (((x as i128) * (x as i128)) / (UNIT as i128)) as i64;
    let c = falling_step(
        y,
        2,
        falling_step(
            y,
            12,
            falling_step(y, 30, falling_step(y, 56, falling_step(y, 90, falling_step(y, 132, UNIT)))),
        ),
    );
    let t = falling_step(
        y,
        6,
        falling_step(
            y,
            20,
            falling_step(y, 42, falling_step(y, 72, falling_step(y, 110, falling_step(y, 156, UNIT)))),
        ),
    );
    proof {
        lemma_product_bound(x as int, t as int, 0x8000_0000, UNIT as int);
    }
    let s = clamp_between(((x as i128) * (t as i128)) / (UNIT as i128), 0, UNIT);
    let m = q % 4;
    if m == 0 {
        (c, s)
    } else if m == 1 {
        (-s, c)
    } else if m == 2 {
        (-c, -s)
    } else {
        (s, -c)
    }
}

/// The cosine and the sine of an angle given in parts of `ONE` of a
/// radian, each in parts of `UNIT`.
pub fn cos_sin(angle: i64) -> (r: (i64, i64))
    ensures
        (r.0 as int, r.1 as int) == cos_sin_of(angle as int),
        -UNIT <= r.0 <= UNIT,
        -UNIT <= r.1 <= UNIT,
{
    cos_sin_fine((angle as i128) * 65536)
}

/// Two to the power `k`, for a small `k`.
fn power_of_two(k: u32) -> (r: i64)
    requires
        k <= 40,
    ensures
        r == two_to(k as nat),
        1 <= r <= 0x100_0000_0000,
{
    let mut r: i64 = 1;
    let mut i: u32 = 0;
    proof {
        lemma_two_to_bound(0);
    }
    while i < k
        invariant
            i <= k <= 40,
            r == two_to(i as nat),
            1 <= r <= 0x100_0000_0000,
        decreases k - i,
    {
        proof {
            lemma_two_to_bound((i + 1) as nat);
        }
        r = r * 2;
        i = i + 1;
    }
    r
}

proof fn lemma_two_to_bound(k: nat)
    requires
        k <= 40,
    ensures
        1 <= two_to(k) <= 0x100_0000_0000,
{
    lemma_two_to_monotone(k, 40);
    assert(two_to(10) == 1024) by {
        reveal_with_fuel(two_to, 11);
    }
    lemma_two_to_step(20, 10);
    assert(two_to(20) == 0x10_0000);
    lemma_two_to_step(40, 20);
    assert(two_to(40) == 0x100_0000_0000);
}

proof fn lemma_two_to_monotone(j: nat, k: nat)
    requires
        j <= k,
    ensures
        1 <= two_to(j) <= two_to(k),
    decreases k,
{
    if j < k {
        lemma_two_to_monotone(j, (k - 1) as nat);
    } else if k > 0 {
        lemma_two_to_monotone((j - 1) as nat, (k - 1) as nat);
    }
}

proof fn lemma_two_to_step(k: nat, j: nat)
    requires
        j <= k,
    ensures
        two_to(k) == two_to(j) * two_to((k - j) as nat),
    decreases j,
{
    if j > 0 {
        lemma_two_to_step((k - 1) as nat, (j - 1) as nat);
        assert(two_to(k) == 2 * two_to((k - 1) as nat));
        assert(two_to(j) == 2 * two_to((j - 1) as nat));
        assert(2 * (two_to((j - 1) as nat) * two_to((k - j) as nat)) == (2 * two_to(
            (j - 1) as nat,
        )) * two_to((k - j) as nat)) by (nonlinear_arith);
    }
}

/// Two to the power `e`, both in parts of `ONE`.
pub fn exp2(e: i64) -> (r: i64)
    ensures
        r == exp2_of(e as int),
        0 <= r <= 0x2_0000_0000_0000,
{
    let c: i64 = clamp_between(e as i128, -16 * ONE, 15 * ONE);
    let k: i64 = div_floor(c as i128, ONE as i128) as i64;
    proof {
        lemma_fundamental_div_mod(c as int, ONE as int);
        lemma_mod_bound(c as int, ONE as int);
    }
    let f: i64 = c - k * ONE;
    assert(0 <= f < ONE);
    assert(-16 <= k <= 15);
    proof {
        lemma_product_bound(f as int, LN2 as int, ONE as int, LN2 as int);
        assert(0 <= f * LN2 <= ONE * LN2) by (nonlinear_arith)
            requires
                0 <= f <= ONE,
        ;
        vstd::arithmetic::div_mod::lemma_div_is_ordered(f * LN2, ONE * LN2, ONE as int);
        vstd::arithmetic::div_mod::lemma_div_is_ordered(0, f * LN2, ONE as int);
    }
    let z: i64 = (f * LN2) / ONE;
    let p = rising_step(
        z,
        1,
        rising_step(
            z,
            2,
            rising_step(
                z,
                3,
                rising_step(z, 4, rising_step(z, 5, rising_step(z, 6, rising_step(z, 7, UNIT)))),
            ),
        ),
    );
    if k >= 0 {
        let w = power_of_two(k as u32);
        proof {
            lemma_two_to_monotone(k as nat, 15);
            lemma_two_to_step(15, 10);
            assert(two_to(10) == 1024) by {
                reveal_with_fuel(two_to, 11);
            }
            assert(two_to(5) == 32) by {
                reveal_with_fuel(two_to, 6);
            }
            lemma_product_bound(p as int, w as int, 8 * UNIT, 32768);
            assert(0 <= p * w) by (nonlinear_arith)
                requires
                    p >= 0,
                    w >= 0,
            ;
            vstd::arithmetic::div_mod::lemma_div_is_ordered(0, p * w, 16384);
            vstd::arithmetic::div_mod::lemma_div_is_ordered(p * w, 8 * UNIT * 32768, 16384);
        }
        (((p as i128) * (w as i128)) / 16384) as i64
    } else {
        let w = power_of_two((14 - k) as u32);
        proof {
            vstd::arithmetic::div_mod::lemma_div_is_ordered(0, p as int, w as int);
            vstd::arithmetic::div_mod::lemma_div_is_ordered_by_denominator(p as int, 1, w as int);
        }
        p / w
    }
}

/// Every power of two is at least one.
pub proof fn lemma_two_to_positive(k: nat)
    ensures
        two_to(k) >= 1,
    decreases k,
{
    if k > 0 {
        lemma_two_to_positive((k - 1) as nat);
    }
}

/// The unit vector at an angle given in parts of 2^32 of a radian: the
/// cosine and the sine, brought to the length `UNIT`.
pub open spec fn direction_of(angle: int) -> (int, int) {
    let cs = cos_sin_fine_of(angle);
    (unit_part(cs.0, cs.0, cs.1), unit_part(cs.1, cs.0, cs.1))
}

proof fn lemma_falling_bound(y: int, m: int, acc: int)
    requires
        0 <= y,
        1 <= m,
        0 <= acc <= UNIT,
    ensures
        0 <= falling(y, m, acc) <= UNIT,
        falling(y, m, acc) >= UNIT - y / m,
{
    let d = UNIT * m;
    assert(0 <= y * acc <= UNIT * y) by (nonlinear_arith)
        requires
            0 <= y,
            0 <= acc <= UNIT,
    ;
    vstd::arithmetic::div_mod::lemma_div_is_ordered(y * acc, UNIT * y, d);
    vstd::arithmetic::div_mod::lemma_div_multiples_vanish_quotient(UNIT as int, y, m);
}

/// The series keep the cosine and the sine from vanishing together: the
/// sum of their squares is at least a quarter of the square of `UNIT`.
pub proof fn lemma_cos_sin_large(angle: int)
    ensures
        ({
            let cs = cos_sin_fine_of(angle);
            &&& -UNIT <= cs.0 <= UNIT
            &&& -UNIT <= cs.1 <= UNIT
            &&& cs.0 * cs.0 + cs.1 * cs.1 >= 0x400_0000_0000_0000
        }),
{
    let r = reduced(angle);
    lemma_mod_bound(angle, TURN as int);
    let q = r / (QUARTER as int);
    lemma_fundamental_div_mod(r, QUARTER as int);
    lemma_mod_bound(r, QUARTER as int);
    let x = (r - q * QUARTER) / 4;
    assert(0 <= x <= 1_686_629_712);
    let y = (x * x) / (UNIT as int);
    assert(0 <= x * x <= 2844719785401202944) by (nonlinear_arith)
        requires
            0 <= x <= 1_686_629_712,
    ;
    vstd::arithmetic::div_mod::lemma_div_is_ordered(0, x * x, UNIT as int);
    vstd::arithmetic::div_mod::lemma_div_is_ordered(
        x * x,
        2844719785401202944int,
        UNIT as int,
    );
    assert(0 <= y <= 2_649_360_000);
    let c = cos_series(y);
    let s = sin_series(x, y);
    // The cosine.
    let a5 = falling(y, 132, UNIT as int);
    lemma_falling_bound(y, 132, UNIT as int);
    let a4 = falling(y, 90, a5);
    lemma_falling_bound(y, 90, a5);
    let a3 = falling(y, 56, a4);
    lemma_falling_bound(y, 56, a4);
    let a2 = falling(y, 30, a3);
    lemma_falling_bound(y, 30, a3);
    let a1 = falling(y, 12, a2);
    lemma_falling_bound(y, 12, a2);
    lemma_falling_bound(y, 2, a1);
    assert(c == falling(y, 2, a1));
    // The sine.
    let b5 = falling(y, 156, UNIT as int);
    lemma_falling_bound(y, 156, UNIT as int);
    let b4 = falling(y, 110, b5);
    lemma_falling_bound(y, 110, b5);
    let b3 = falling(y, 72, b4);
    lemma_falling_bound(y, 72, b4);
    let b2 = falling(y, 42, b3);
    lemma_falling_bound(y, 42, b3);
    let b1 = falling(y, 20, b2);
    lemma_falling_bound(y, 20, b2);
    let t = falling(y, 6, b1);
    lemma_falling_bound(y, 6, b1);
    assert(0 <= c <= UNIT && 0 <= s <= UNIT);
    if y <= UNIT {
        assert(c >= 0x2000_0000);
        assert(c * c >= 0x400_0000_0000_0000) by (nonlinear_arith)
            requires
                c >= 0x2000_0000,
        ;
        assert(s * s >= 0) by (nonlinear_arith);
    } else {
        vstd::arithmetic::div_mod::lemma_fundamental_div_mod(x * x, UNIT as int);
        vstd::arithmetic::div_mod::lemma_mod_bound(x * x, UNIT as int);
        if x <= UNIT {
            assert(x * x <= 0x1000_0000_0000_0000) by (nonlinear_arith)
                requires
                    0 <= x <= 0x4000_0000,
            ;
            vstd::arithmetic::div_mod::lemma_div_is_ordered(
                x * x,
                0x1000_0000_0000_0000int,
                UNIT as int,
            );
        }
        assert(x > UNIT);
        vstd::arithmetic::div_mod::lemma_div_is_ordered(y, 2_649_360_000, 6);
        assert(t >= 632_000_000);
        assert(x * t >= 678604832768000000) by (nonlinear_arith)
            requires
                x >= 0x4000_0000,
                t >= 632_000_000,
        ;
        vstd::arithmetic::div_mod::lemma_div_is_ordered(
            678604832768000000int,
            x * t,
            UNIT as int,
        );
        assert(678604832768000000int / 0x4000_0000 == 632_000_000);
        assert(s >= 0x2000_0000);
        assert(s * s >= 0x400_0000_0000_0000) by (nonlinear_arith)
            requires
                s >= 0x2000_0000,
        ;
        assert(c * c >= 0) by (nonlinear_arith);
    }
    let cs = in_quadrant(q, c, s);
    assert(cs.0 * cs.0 + cs.1 * cs.1 == c * c + s * s) by (nonlinear_arith)
        requires
            cs == (c, s) || cs == (-s, c) || cs == (-c, -s) || cs == (s, -c),
    ;
}

/// A direction has the length `UNIT`, give or take a little: its square
/// lies within five times `UNIT` of the square of `UNIT`.
pub proof fn lemma_direction_norm(angle: int)
    ensures
        ({
            let d = direction_of(angle);
            &&& -UNIT <= d.0 <= UNIT
            &&& -UNIT <= d.1 <= UNIT
            &&& UNIT * UNIT - 4 * UNIT <= d.0 * d.0 + d.1 * d.1 <= UNIT * UNIT + 5 * UNIT
        }),
{
    lemma_cos_sin_large(angle);
    let cs = cos_sin_fine_of(angle);
    lemma_unit_norm(cs.0, cs.1);
}

/// The unit vector at an angle given in parts of 2^32 of a radian.
pub fn direction(angle: i128) -> (d: (i64, i64))
    requires
        -0x100_0000_0000_0000_0000_0000_0000_0000 <= angle <= 0x100_0000_0000_0000_0000_0000_0000_0000,
    ensures
        (d.0 as int, d.1 as int) == direction_of(angle as int),
        -UNIT <= d.0 <= UNIT,
        -UNIT <= d.1 <= UNIT,
{
    let (c, s) = cos_sin_fine(angle);
    unit_vector(c, s)
}

} // verus!
