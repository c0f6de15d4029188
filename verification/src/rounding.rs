//! Rounding of `significand * 2^exponent` to the nearest pattern of a sample format.

use vstd::prelude::*;
use vstd::arithmetic::power2::*;
use vstd::arithmetic::mul::*;
use vstd::arithmetic::div_mod::*;
use crate::ieee;

verus! {

/// `x` where it is positive, and 0 elsewhere.
pub open spec fn positive_part(x: int) -> nat {
    if x > 0 {
        x as nat
    } else {
        0
    }
}

/// Whether `significand * 2^exponent` rounds to the pattern `n`, to the nearest and to the even
/// one of two that are equally near.
pub open spec fn rounds_to(p: nat, top: nat, significand: nat, exponent: int, n: nat) -> bool {
    ieee::is_nearest(
        p,
        top,
        pow2(positive_part(-exponent)),
        significand * pow2(positive_part(exponent)),
        n,
    )
}

/// The exponent may be split between the two sides of the comparison in any way.
pub proof fn lemma_rounds_to_split(
    p: nat,
    top: nat,
    significand: nat,
    exponent: int,
    n: nat,
    j: nat,
    k: nat,
)
    requires
        rounds_to(p, top, significand, exponent, n),
        exponent == j - k,
    ensures
        ieee::is_nearest(p, top, pow2(k), significand * pow2(j), n),
        ieee::nearest(p, top, pow2(k), significand * pow2(j)) == n,
{
    let k0 = positive_part(-exponent);
    let j0 = positive_part(exponent);
    let c = (k - k0) as nat;
    lemma_pow2_adds(k0, c);
    lemma_pow2_adds(j0, c);
    lemma_pow2_pos(c);
    lemma_pow2_pos(k);
    lemma_mul_is_associative(significand as int, pow2(j0) as int, pow2(c) as int);
    ieee::lemma_nearest_rescaled(p, top, pow2(k0), significand * pow2(j0), n, pow2(c));
    ieee::lemma_nearest_unique(p, top, pow2(k), significand * pow2(j), n);
}

/// The power of two with the exponent `k`.
pub fn power_of_two(k: u32) -> (r: u128)
    requires
        k < 128,
    ensures
        r == pow2(k as nat),
{
    proof {
        lemma_one_shifted(k);
    }
    1u128 << k
}

proof fn lemma_one_shifted(k: u32)
    requires
        k < 128,
    ensures
        1u128 << k == pow2(k as nat),
    decreases k,
{
    if k == 0 {
        assert(1u128 << 0u32 == 1u128) by (bit_vector);
        lemma2_to64();
    } else {
        let h = (k - 1) as u32;
        lemma_one_shifted(h);
        assert(1u128 << k == 2 * (1u128 << h)) by (bit_vector)
            requires
                0 < k < 128,
                h == k - 1,
        ;
        lemma_pow2_unfold(k as nat);
    }
}

/// How many binary digits `v` has.
pub fn bit_length(v: u128) -> (r: u32)
    ensures
        v == 0 ==> r == 0,
        v > 0 ==> 0 < r <= 128 && pow2((r - 1) as nat) <= v < pow2(r as nat),
{
    if v == 0 {
        return 0;
    }
    let mut n: u32 = 0;
    let mut rest: u128 = v;
    let mut step: u32 = 64;
    proof {
        lemma2_to64();
        lemma_pow2_adds(64, 64);
    }
    while step > 0
        invariant
            step == 64 || step == 32 || step == 16 || step == 8 || step == 4 || step == 2 || step
                == 1 || step == 0,
            n + 2 * step <= 128,
            step == 0 ==> n + 1 <= 128,
            rest > 0,
            step > 0 ==> rest < pow2((2 * step) as nat),
            step == 0 ==> rest < 2,
            rest * pow2(n as nat) <= v < (rest + 1) * pow2(n as nat),
        decreases step,
    {
        let ghost n0 = n;
        let ghost rest0 = rest;
        let d = power_of_two(step);
        proof {
            lemma_pow2_adds(step as nat, step as nat);
            lemma_pow2_pos(step as nat);
            lemma2_to64();
        }
        if rest >= d {
            rest = rest / d;
            n = n + step;
            proof {
                let q = rest0 as int / d as int;
                let m = rest0 as int % d as int;
                lemma_fundamental_div_mod(rest0 as int, d as int);
                lemma_pow2_adds(n0 as nat, step as nat);
                let w = pow2(n0 as nat) as int;
                lemma_pow2_pos(n0 as nat);
                assert(q >= 1) by (nonlinear_arith)
                    requires
                        rest0 >= d,
                        d > 0,
                        rest0 == d * q + m,
                        0 <= m < d,
                ;
                assert(q < d) by (nonlinear_arith)
                    requires
                        rest0 < d * d,
                        d > 0,
                        rest0 == d * q + m,
                        0 <= m < d,
                ;
                assert(q * (w * d) <= rest0 * w) by (nonlinear_arith)
                    requires
                        w > 0,
                        rest0 == d * q + m,
                        0 <= m < d,
                ;
                assert((rest0 + 1) * w <= (q + 1) * (w * d)) by (nonlinear_arith)
                    requires
                        w > 0,
                        rest0 == d * q + m,
                        0 <= m < d,
                ;
            }
        }
        step = step / 2;
    }
    proof {
        assert(rest == 1);
        lemma_pow2_unfold((n + 1) as nat);
    }
    n + 1
}

/// What the quotient and the remainder of the significand by `2^drop` say of its rounding.
proof fn lemma_rounded(
    p: nat,
    top: nat,
    significand: nat,
    exponent: int,
    drop: nat,
    e: nat,
    s: nat,
    rest: nat,
)
    requires
        significand == s * pow2(drop) + rest,
        rest < pow2(drop),
        e == exponent + drop,
        s < 2 * pow2(p),
        e == 0 || pow2(p) <= s,
    ensures
        ({
            let n = e * pow2(p) + s;
            if n >= top {
                rounds_to(p, top, significand, exponent, top)
            } else if 2 * rest < pow2(drop) || (2 * rest == pow2(drop) && n % 2 == 0) {
                rounds_to(p, top, significand, exponent, n)
            } else {
                rounds_to(p, top, significand, exponent, n + 1)
            }
        }),
{
    let n = e * pow2(p) + s;
    let k = positive_part(-exponent);
    let j = positive_part(exponent);
    let scale = pow2(k) as int;
    let w = pow2(j) as int;
    let d = pow2(drop) as int;
    let v = significand * w;
    lemma_pow2_pos(k);
    lemma_pow2_pos(j);
    ieee::lemma_units_at(p, e, s);
    assert(e + k == drop + j);
    lemma_pow2_adds(e, k);
    lemma_pow2_adds(drop, j);
    let g = pow2(e) as int;
    assert(g * scale == d * w);
    assert((s * g) * scale == s * (g * scale)) by (nonlinear_arith);
    assert(((s + 1) * g) * scale == (s + 1) * (g * scale)) by (nonlinear_arith);
    assert((s * d + rest) * w == s * (d * w) + rest * w) by (nonlinear_arith);
    assert((s + 1) * (d * w) == s * (d * w) + d * w) by (nonlinear_arith);
    let below = v - ieee::units(p, n) * scale;
    let above = ieee::units(p, n + 1) * scale - v;
    assert(below == rest * w);
    assert(above == d * w - rest * w);
    assert(rest * w >= 0) by (nonlinear_arith)
        requires
            w > 0,
            rest >= 0,
    ;
    assert(rest * w < d * w) by (nonlinear_arith)
        requires
            w > 0,
            rest < d,
    ;
    if n >= top {
        if n > top {
            ieee::lemma_units_increase(p, top, n);
        }
        lemma_mul_inequality(ieee::units(p, top) as int, ieee::units(p, n) as int, scale);
        ieee::lemma_nearest_top(p, top, scale as nat, v as nat);
    } else {
        assert(2 * rest < d ==> rest * w < d * w - rest * w) by (nonlinear_arith)
            requires
                w > 0,
        ;
        assert(2 * rest == d ==> rest * w == d * w - rest * w) by (nonlinear_arith)
            requires
                w > 0,
        ;
        assert(2 * rest > d ==> rest * w > d * w - rest * w) by (nonlinear_arith)
            requires
                w > 0,
        ;
        ieee::lemma_nearest_between(p, top, scale as nat, v as nat, n);
    }
}

/// A significand with few enough digits needs no rounding.
proof fn lemma_unrounded(
    p: nat,
    top: nat,
    significand: nat,
    exponent: int,
    raise: nat,
    e: nat,
    s: nat,
)
    requires
        s == significand * pow2(raise),
        e == exponent - raise,
        s < 2 * pow2(p),
        e == 0 || pow2(p) <= s,
    ensures
        ({
            let n = e * pow2(p) + s;
            rounds_to(p, top, significand, exponent, if n >= top { top } else { n })
        }),
{
    let n = e * pow2(p) + s;
    let scale = pow2(positive_part(-exponent));
    let v = significand * pow2(positive_part(exponent));
    assert(positive_part(-exponent) == 0);
    lemma2_to64();
    ieee::lemma_units_at(p, e, s);
    lemma_pow2_adds(raise, e);
    lemma_mul_is_associative(significand as int, pow2(raise) as int, pow2(e) as int);
    assert(ieee::units(p, n) == v);
    if n >= top {
        if n > top {
            ieee::lemma_units_increase(p, top, n);
        }
        ieee::lemma_nearest_top(p, top, scale, v);
    } else {
        ieee::lemma_nearest_exact(p, top, scale, v, n);
    }
}

/// Rounds `significand * 2^exponent` to a pattern of the format with `p` fraction bits, in which
/// `limit * 2^p` stands for infinity.
pub fn round_pattern(p: u32, limit: u32, significand: u128, exponent: i32) -> (n: u64)
    requires
        p <= 52,
        0 < limit < 2048,
        significand < pow2(120),
        -4000 <= exponent <= 4000,
    ensures
        n <= limit * pow2(p as nat),
        rounds_to(
            p as nat,
            (limit * pow2(p as nat)) as nat,
            significand as nat,
            exponent as int,
            n as nat,
        ),
{
    let hidden = power_of_two(p);
    let ghost q = pow2(p as nat) as int;
    let ghost top = (limit * q) as nat;
    proof {
        lemma_pow2_pos(p as nat);
        lemma_widths(p, limit);
    }
    let top_pattern: u64 = limit as u64 * hidden as u64;
    if significand == 0 {
        proof {
            assert(0 * pow2(positive_part(exponent as int)) == 0);
            lemma_pow2_pos(positive_part(-exponent as int));
            assert(top > 0) by (nonlinear_arith)
                requires
                    top == limit * q,
                    limit > 0,
                    q > 0,
            ;
            ieee::lemma_nearest_exact(
                p as nat,
                top,
                pow2(positive_part(-exponent as int)),
                0,
                0,
            );
        }
        return 0;
    }
    let length: i32 = bit_length(significand) as i32;
    proof {
        if length > 120 {
            lemma_pow2_monotone(120, (length - 1) as nat);
        }
    }
    let excess: i32 = length - (p as i32 + 1);
    let drop: i32 = if excess >= -exponent { excess } else { -exponent };
    let e: i32 = exponent + drop;
    if drop <= 0 {
        let raise: u32 = (-drop) as u32;
        let factor = power_of_two(raise);
        proof {
            // significand < 2^length and length + raise <= p + 1
            lemma_pow2_adds(length as nat, raise as nat);
            lemma_pow2_adds((length - 1) as nat, raise as nat);
            lemma_pow2_monotone((length + raise) as nat, (p + 1) as nat);
            lemma_pow2_unfold((p + 1) as nat);
            lemma_pow2_pos(raise as nat);
            assert(significand * factor < pow2(length as nat) * factor) by (nonlinear_arith)
                requires
                    significand < pow2(length as nat),
                    factor > 0,
            ;
            assert(pow2((length - 1) as nat) * factor <= significand * factor)
                by (nonlinear_arith)
                requires
                    pow2((length - 1) as nat) <= significand,
                    factor > 0,
            ;
            lemma2_to64_rest();
            if p < 52 {
                lemma_pow2_strictly_increases(p as nat, 52);
            }
        }
        let s = significand * factor;
        proof {
            lemma_unrounded(
                p as nat,
                top,
                significand as nat,
                exponent as int,
                raise as nat,
                e as nat,
                s as nat,
            );
        }
        return capped_pattern(limit, hidden as u64, e as u32, s as u64);
    }
    if drop > length {
        proof {
            // e == 0: the significand is below half of the smallest value
            assert(positive_part(-exponent as int) == drop);
            lemma_pow2_unfold(drop as nat);
            lemma_pow2_monotone(length as nat, (drop - 1) as nat);
            lemma2_to64();
            assert(0 * pow2(drop as nat) == 0);
            assert(0 * q == 0);
            assert(top > 0) by (nonlinear_arith)
                requires
                    top == limit * q,
                    limit > 0,
                    q > 0,
            ;
            lemma_rounded(
                p as nat,
                top,
                significand as nat,
                exponent as int,
                drop as nat,
                0,
                0,
                significand as nat,
            );
        }
        return 0;
    }
    let divisor = power_of_two(drop as u32);
    proof {
        lemma_pow2_pos(drop as nat);
        lemma_pow2_unfold(drop as nat);
        lemma_fundamental_div_mod(significand as int, divisor as int);
        lemma_mul_is_commutative(divisor as int, significand as int / divisor as int);
        // the quotient has at most p + 1 digits
        lemma_pow2_monotone(length as nat, (p + 1 + drop) as nat);
        lemma_pow2_adds((p + 1) as nat, drop as nat);
        lemma_pow2_unfold((p + 1) as nat);
        lemma_quotient_below(significand as int, divisor as int, 2 * q);
        if e > 0 {
            lemma_pow2_adds(p as nat, drop as nat);
            lemma_quotient_from(significand as int, divisor as int, q);
        }
        lemma2_to64_rest();
        if p < 52 {
            lemma_pow2_strictly_increases(p as nat, 52);
        }
    }
    let s = significand / divisor;
    let rest = significand % divisor;
    let half = divisor / 2;
    proof {
        lemma_rounded(
            p as nat,
            top,
            significand as nat,
            exponent as int,
            drop as nat,
            e as nat,
            s as nat,
            rest as nat,
        );
    }
    let n = capped_pattern(limit, hidden as u64, e as u32, s as u64);
    if n == top_pattern {
        n
    } else if rest > half || (rest == half && n % 2 == 1) {
        n + 1
    } else {
        n
    }
}

/// The pattern of the exponent `e` and the significand `s`, or that of infinity where it is less.
fn capped_pattern(limit: u32, hidden: u64, e: u32, s: u64) -> (n: u64)
    requires
        limit < 2048,
        hidden <= pow2(52),
        s < 2 * hidden,
    ensures
        n == if e * hidden + s >= limit * hidden { limit * hidden } else { e * hidden + s },
{
    proof {
        lemma2_to64_rest();
        lemma_mul_upper_bound(limit as int, 2047, hidden as int, pow2(52) as int);
        if e >= limit {
            lemma_mul_inequality(limit as int, e as int, hidden as int);
        } else {
            lemma_mul_inequality(e as int, limit as int, hidden as int);
        }
    }
    if e >= limit {
        limit as u64 * hidden
    } else {
        let n = e as u64 * hidden + s;
        let top = limit as u64 * hidden;
        if n >= top {
            top
        } else {
            n
        }
    }
}

proof fn lemma_widths(p: u32, limit: u32)
    requires
        p <= 52,
        limit < 2048,
    ensures
        pow2(p as nat) <= pow2(52) == 0x10000000000000,
        limit * pow2(p as nat) < 0x8000000000000000,
{
    lemma2_to64_rest();
    lemma_pow2_monotone(p as nat, 52);
    lemma_mul_upper_bound(limit as int, 2047, pow2(p as nat) as int, pow2(52) as int);
}

proof fn lemma_pow2_monotone(a: nat, b: nat)
    requires
        a <= b,
    ensures
        pow2(a) <= pow2(b),
{
    if a < b {
        lemma_pow2_strictly_increases(a, b);
    }
}

proof fn lemma_quotient_below(x: int, d: int, bound: int)
    requires
        0 <= x < bound * d,
        d > 0,
    ensures
        x / d < bound,
{
    lemma_fundamental_div_mod(x, d);
    let q = x / d;
    assert(q < bound) by (nonlinear_arith)
        requires
            x == d * q + x % d,
            0 <= x % d < d,
            x < bound * d,
            d > 0,
    ;
}

proof fn lemma_quotient_from(x: int, d: int, bound: int)
    requires
        x >= bound * d,
        d > 0,
    ensures
        x / d >= bound,
{
    lemma_fundamental_div_mod(x, d);
    let q = x / d;
    assert(q >= bound) by (nonlinear_arith)
        requires
            x == d * q + x % d,
            0 <= x % d < d,
            x >= bound * d,
            d > 0,
    ;
}

} // verus!
