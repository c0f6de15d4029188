//! What the bit patterns of samples stand for, what the operations on them give, and how the
//! capacity of the residual delay follows from them.
//!
//! Values are counted in units of the smallest positive 64-bit value, `2^-1074`. The pattern of
//! infinity counts as the first power of two beyond the finite values: that is where rounding to
//! the nearest pattern begins to give infinity.

use vstd::prelude::*;
use vstd::arithmetic::power2::*;
use vstd::arithmetic::mul::*;
use vstd::arithmetic::div_mod::*;
use crate::carrier;
use crate::ieee;
use crate::layout;
use crate::rounding;
use crate::sample;

verus! {

/// How far two numbers are apart.
pub open spec fn apart(a: int, b: int) -> int {
    if a <= b {
        b - a
    } else {
        a - b
    }
}

/// A 64-bit pattern is a sign, an exponent field and a significand, and stands for the signed
/// significand times the power of two of the exponent.
pub proof fn law_value_of_64_bit_pattern(bits: u64, negative: bool, e: nat, s: nat)
    requires
        s < 0x20_0000_0000_0000,
        e == 0 || s >= 0x10_0000_0000_0000,
        e * 0x10_0000_0000_0000 + s <= 0x7ff0_0000_0000_0000,
        bits == e * 0x10_0000_0000_0000 + s + if negative { 0x8000_0000_0000_0000int } else { 0 },
    ensures
        sample::negative64(bits) == negative,
        sample::magnitude64(bits) == e * 0x10_0000_0000_0000 + s,
        sample::units64(bits) == s * pow2(e),
        sample::value64(bits) == if negative { -(s * pow2(e)) } else { s * pow2(e) as int },
{
    lemma2_to64_rest();
    ieee::lemma_units_at(52, e, s);
}

/// A 64-bit pattern is finite below that of infinity, and not a number above it.
pub proof fn law_kinds_of_64_bit_patterns(bits: u64)
    ensures
        sample::magnitude64(bits) == bits as int % 0x8000_0000_0000_0000,
        sample::finite64(bits) <==> bits as int % 0x8000_0000_0000_0000 < 0x7ff0_0000_0000_0000,
        sample::nan64(bits) <==> bits as int % 0x8000_0000_0000_0000 > 0x7ff0_0000_0000_0000,
{
}

/// A 32-bit pattern is a sign, an exponent field and a significand, and stands for the signed
/// significand times the power of two of the exponent.
pub proof fn law_value_of_32_bit_pattern(bits: u32, negative: bool, e: nat, s: nat)
    requires
        s < 0x100_0000,
        e == 0 || s >= 0x80_0000,
        e * 0x80_0000 + s <= 0x7f80_0000,
        bits == e * 0x80_0000 + s + if negative { 0x8000_0000int } else { 0 },
    ensures
        sample::negative32(bits) == negative,
        sample::magnitude32(bits) == e * 0x80_0000 + s,
        sample::value32(bits) == if negative {
            -(s * pow2(e + 925))
        } else {
            s * pow2(e + 925) as int
        },
{
    lemma2_to64();
    ieee::lemma_units_at(23, e, s);
    lemma_pow2_adds(e, 925);
    lemma_mul_is_associative(s as int, pow2(e) as int, pow2(925) as int);
}

/// A 32-bit pattern is finite below that of infinity, and not a number above it.
pub proof fn law_kinds_of_32_bit_patterns(bits: u32)
    ensures
        sample::magnitude32(bits) == bits as int % 0x8000_0000,
        sample::finite32(bits) <==> bits as int % 0x8000_0000 < 0x7f80_0000,
        sample::nan32(bits) <==> bits as int % 0x8000_0000 > 0x7f80_0000,
{
}

/// Among all signed patterns, the nearest one with the sign of a number is the nearest one.
proof fn lemma_signed_nearest(p: nat, top: nat, scale: nat, u: nat, same: bool, k: nat)
    requires
        scale > 0,
        k <= top,
    ensures
        ({
            let n = ieee::nearest(p, top, scale, u);
            let near = ieee::units(p, n) * scale;
            let other: int = if same {
                ieee::units(p, k) * scale as int
            } else {
                -(ieee::units(p, k) * scale)
            };
            &&& n <= top
            &&& apart(near as int, u as int) < apart(other, u as int) || (apart(
                near as int,
                u as int,
            ) == apart(other, u as int) && (near == other || n % 2 == 0))
        }),
{
    let n = ieee::nearest(p, top, scale, u);
    ieee::lemma_nearest_exists(p, top, scale, u);
    lemma_pow2_pos(p);
    assert(ieee::units(p, 0) == 0);
    assert(0 * scale == 0);
    assert(ieee::units(p, k) * scale >= 0);
    let zero = ieee::units(p, 0) * scale;
    assert(n != 0 ==> ieee::distance(ieee::units(p, n) * scale, u) <= ieee::distance(zero, u));
    if same && k != n {
        let other = ieee::units(p, k) * scale;
        assert(ieee::distance(ieee::units(p, n) * scale, u) <= ieee::distance(other, u));
    }
    if !same && n != 0 {
        assert(ieee::distance(ieee::units(p, n) * scale, u) < ieee::distance(zero, u) || n % 2
            == 0);
    }
}

/// Quantizing keeps the sign and gives the 32-bit sample nearest to the host sample, the even one
/// of two that are equally near; what is not a number stays so.
pub proof fn law_quantized_is_nearest(host: u64, other: u32)
    requires
        !sample::nan32(other),
    ensures
        ({
            let q = sample::quantized(host);
            let v = sample::value64(host);
            &&& sample::negative32(q) == sample::negative64(host)
            &&& sample::nan32(q) <==> sample::nan64(host)
            &&& !sample::nan64(host) ==> {
                ||| apart(sample::value32(q), v) < apart(sample::value32(other), v)
                ||| {
                    &&& apart(sample::value32(q), v) == apart(sample::value32(other), v)
                    &&& sample::value32(q) == sample::value32(other) || sample::magnitude32(q) % 2
                        == 0
                }
            }
        }),
{
    lemma_pow2_pos(925);
    let same = sample::negative64(host) == sample::negative32(other);
    lemma_signed_nearest(
        23,
        0x7f80_0000,
        pow2(925),
        sample::units64(host),
        same,
        sample::magnitude32(other),
    );
}

/// Widening gives the same number: a finite sample keeps its sign and value, infinity stays
/// infinity of the same sign, and what is not a number stays so.
pub proof fn law_widened_is_the_same_number(quantized: u32)
    ensures
        sample::negative64(sample::widened(quantized)) == sample::negative32(quantized),
        sample::finite64(sample::widened(quantized)) <==> sample::finite32(quantized),
        sample::nan64(sample::widened(quantized)) <==> sample::nan32(quantized),
        sample::finite32(quantized) ==> sample::value64(sample::widened(quantized))
            == sample::value32(quantized),
{
    if sample::finite32(quantized) {
        carrier::law_widening_is_exact(quantized);
    }
}

/// Whether `r` is the 64-bit sample nearest to a number, compared with the sample `other`, where
/// the number and `scale` are counted in the same units: the even one of two that are equally near.
pub open spec fn no_further_than(r: u64, other: u64, scale: nat, v: int) -> bool {
    let near = sample::value64(r) * scale;
    let far = sample::value64(other) * scale;
    ||| apart(near, v) < apart(far, v)
    ||| apart(near, v) == apart(far, v) && (near == far || sample::magnitude64(r) % 2 == 0)
}

proof fn lemma_rounded_is_nearest(v: int, negative_zero: bool, other: u64)
    requires
        !sample::nan64(other),
    ensures
        ({
            let r = sample::rounded64(v, negative_zero);
            &&& !sample::nan64(r)
            &&& no_further_than(r, other, 1, v)
            &&& v > 0 ==> !sample::negative64(r)
            &&& v < 0 ==> sample::negative64(r)
            &&& v == 0 ==> r == if negative_zero { 0x8000_0000_0000_0000u64 } else { 0u64 }
        }),
{
    lemma_pow2_pos(52);
    let u = sample::absolute(v);
    lemma_signed_nearest(
        52,
        0x7ff0_0000_0000_0000,
        1,
        u,
        (v < 0) == sample::negative64(other),
        sample::magnitude64(other),
    );
}

/// The sum of two finite samples is the sample nearest to the sum of their values, with its sign;
/// a sum of 0 is positive unless both operands are negative zeros.
pub proof fn law_sum_is_nearest(a: u64, b: u64, other: u64)
    requires
        sample::finite64(a),
        sample::finite64(b),
        !sample::nan64(other),
    ensures
        ({
            let r = sample::total(a, b);
            let v = sample::value64(a) + sample::value64(b);
            &&& !sample::nan64(r)
            &&& no_further_than(r, other, 1, v)
            &&& v > 0 ==> !sample::negative64(r)
            &&& v < 0 ==> sample::negative64(r)
            &&& v == 0 ==> r == if sample::negative64(a) && sample::negative64(b) {
                0x8000_0000_0000_0000u64
            } else {
                0u64
            }
        }),
{
    lemma_rounded_is_nearest(
        sample::value64(a) + sample::value64(b),
        sample::negative64(a) && sample::negative64(b),
        other,
    );
}

/// The difference of two finite samples is the sample nearest to the difference of their values,
/// with its sign; a difference of 0 is positive unless it is negative zero less zero.
pub proof fn law_difference_is_nearest(a: u64, b: u64, other: u64)
    requires
        sample::finite64(a),
        sample::finite64(b),
        !sample::nan64(other),
    ensures
        ({
            let r = sample::remainder(a, b);
            let v = sample::value64(a) - sample::value64(b);
            &&& !sample::nan64(r)
            &&& no_further_than(r, other, 1, v)
            &&& v > 0 ==> !sample::negative64(r)
            &&& v < 0 ==> sample::negative64(r)
            &&& v == 0 ==> r == if sample::negative64(a) && !sample::negative64(b) {
                0x8000_0000_0000_0000u64
            } else {
                0u64
            }
        }),
{
    let opposite = sample::negated(b);
    assert(sample::magnitude64(opposite) == sample::magnitude64(b));
    assert(sample::negative64(opposite) != sample::negative64(b));
    law_sum_is_nearest(a, opposite, other);
}

/// The product of two finite samples is the sample nearest to the product of their values, and
/// negative if exactly one of them is.
pub proof fn law_product_is_nearest(a: u64, b: u64, other: u64)
    requires
        sample::finite64(a),
        sample::finite64(b),
        !sample::nan64(other),
    ensures
        ({
            let r = sample::scaled(a, b);
            let v = sample::value64(a) * sample::value64(b);
            &&& !sample::nan64(r)
            &&& no_further_than(r, other, pow2(1074), v)
            &&& sample::negative64(r) == (sample::negative64(a) != sample::negative64(b))
        }),
{
    let ua = sample::units64(a) as int;
    let ub = sample::units64(b) as int;
    let one = pow2(1074) as int;
    lemma_pow2_pos(1074);
    let negative = sample::negative64(a) != sample::negative64(b);
    lemma_signed_nearest(
        52,
        0x7ff0_0000_0000_0000,
        pow2(1074),
        (ua * ub) as nat,
        negative == sample::negative64(other),
        sample::magnitude64(other),
    );
    assert((-ua) * ub == -(ua * ub)) by (nonlinear_arith);
    assert(ua * (-ub) == -(ua * ub)) by (nonlinear_arith);
    assert((-ua) * (-ub) == ua * ub) by (nonlinear_arith);
    let r = sample::scaled(a, b);
    let ur = sample::units64(r) as int;
    let uo = sample::units64(other) as int;
    assert((-ur) * one == -(ur * one)) by (nonlinear_arith);
    assert((-uo) * one == -(uo * one)) by (nonlinear_arith);
}

/// What sums and differences give where an operand is infinite or not a number.
pub proof fn law_sums_beyond_the_finite(a: u64, b: u64)
    ensures
        sample::nan64(a) ==> sample::total(a, b) == sample::quieted64(a),
        sample::nan64(a) ==> sample::remainder(a, b) == sample::quieted64(a),
        !sample::nan64(a) && sample::nan64(b) ==> sample::total(a, b) == sample::quieted64(b),
        !sample::nan64(a) && sample::nan64(b) ==> sample::remainder(a, b) == sample::quieted64(b),
        sample::magnitude64(a) == 0x7ff0_0000_0000_0000 && sample::finite64(b) ==> sample::total(
            a,
            b,
        ) == a && sample::remainder(a, b) == a,
        sample::finite64(a) && sample::magnitude64(b) == 0x7ff0_0000_0000_0000 ==> sample::total(
            a,
            b,
        ) == b && sample::remainder(a, b) == sample::negated(b),
        sample::magnitude64(a) == 0x7ff0_0000_0000_0000 && sample::magnitude64(b)
            == 0x7ff0_0000_0000_0000 ==> {
            &&& sample::negative64(a) == sample::negative64(b) ==> sample::total(a, b) == a
                && sample::remainder(a, b) == sample::undefined64()
            &&& sample::negative64(a) != sample::negative64(b) ==> sample::total(a, b)
                == sample::undefined64() && sample::remainder(a, b) == a
        },
        sample::negative64(sample::negated(b)) != sample::negative64(b),
        sample::magnitude64(sample::negated(b)) == sample::magnitude64(b),
{
    let opposite = sample::negated(b);
    assert(sample::magnitude64(opposite) == sample::magnitude64(b));
    assert(sample::negative64(opposite) != sample::negative64(b));
}

/// What products give where an operand is infinite or not a number.
pub proof fn law_products_beyond_the_finite(a: u64, b: u64)
    ensures
        sample::nan64(a) ==> sample::scaled(a, b) == sample::quieted64(a),
        !sample::nan64(a) && sample::nan64(b) ==> sample::scaled(a, b) == sample::quieted64(b),
        !sample::nan64(a) && !sample::nan64(b) && (!sample::finite64(a) || !sample::finite64(b))
            ==> {
            let r = sample::scaled(a, b);
            if sample::magnitude64(a) == 0 || sample::magnitude64(b) == 0 {
                r == sample::undefined64()
            } else {
                &&& sample::magnitude64(r) == 0x7ff0_0000_0000_0000
                &&& sample::negative64(r) == (sample::negative64(a) != sample::negative64(b))
            }
        },
{
}

/// A widened sample to which nothing is added stays as it is, but for negative zero, which becomes
/// zero.
pub proof fn law_adding_nothing_keeps_the_sample(quantized: u32)
    ensures
        sample::total(sample::widened(quantized), 0) == if quantized == 0x8000_0000 {
            0
        } else {
            sample::widened(quantized)
        },
{
    let w = sample::widened(quantized);
    law_widened_is_the_same_number(quantized);
    lemma_pow2_pos(52);
    lemma_pow2_pos(23);
    lemma_pow2_pos(925);
    if sample::finite32(quantized) {
        let m = sample::magnitude64(w);
        if sample::magnitude32(quantized) == 0 {
            assert(0 * pow2(925) == 0);
            ieee::lemma_nearest_exact(52, 0x7ff0_0000_0000_0000, 1, 0, 0);
        } else {
            ieee::lemma_units_increase(23, 0, sample::magnitude32(quantized));
            assert(sample::units32(quantized) > 0) by (nonlinear_arith)
                requires
                    sample::units32(quantized) == ieee::units(
                        23,
                        sample::magnitude32(quantized),
                    ) * pow2(925),
                    ieee::units(23, sample::magnitude32(quantized)) > 0,
                    pow2(925) > 0,
            ;
        }
        ieee::lemma_nearest_exact(52, 0x7ff0_0000_0000_0000, 1, sample::units64(w), m);
        assert(sample::value64(0) == 0);
        assert(sample::signed64(sample::negative64(w), m) == w);
    } else if sample::nan32(quantized) {
        law_widened_quiet_pattern(quantized);
        law_quiet_operand_pattern(w);
    }
}

/// What is not a number keeps its sign and the upper bits of its payload when it is quantized, and
/// becomes quiet.
pub proof fn law_quantized_quiet_pattern(host: u64)
    requires
        sample::nan64(host),
    ensures
        sample::quantized(host) == (if host >= 0x8000_0000_0000_0000 {
            0x8000_0000int
        } else {
            0
        }) + 0x7fc0_0000 + (host as int / 0x2000_0000) % 0x40_0000,
{
    let sign: int = if host >= 0x8000_0000_0000_0000 {
        1
    } else {
        0
    };
    let payload = host - sign * 0x8000_0000_0000_0000 - 0x7ff0_0000_0000_0000;
    let kept = payload / 0x2000_0000;
    assert(host as int / 0x2000_0000 == sign * 0x4_0000_0000 + 0x3_ff80_0000 + kept);
    assert(0 <= kept < 0x80_0000);
    if kept < 0x40_0000 {
        assert((host as int / 0x2000_0000) % 0x40_0000 == kept);
    } else {
        assert((host as int / 0x2000_0000) % 0x40_0000 == kept - 0x40_0000);
    }
}

/// What is not a number keeps its sign and its payload when it is widened, and becomes quiet.
pub proof fn law_widened_quiet_pattern(quantized: u32)
    requires
        sample::nan32(quantized),
    ensures
        sample::widened(quantized) == (if quantized >= 0x8000_0000 {
            0x8000_0000_0000_0000int
        } else {
            0
        }) + 0x7ff8_0000_0000_0000 + (quantized as int % 0x40_0000) * 0x2000_0000,
{
    let sign: int = if quantized >= 0x8000_0000 {
        1
    } else {
        0
    };
    let payload = quantized - sign * 0x8000_0000 - 0x7f80_0000;
    assert(0 <= payload < 0x80_0000);
    if payload < 0x40_0000 {
        assert(quantized as int % 0x40_0000 == payload);
    } else {
        assert(quantized as int % 0x40_0000 == payload - 0x40_0000);
    }
}

/// What is not a number keeps its sign and its payload as an operand, and becomes quiet. An
/// operation without a result gives the quiet pattern without sign and payload.
pub proof fn law_quiet_operand_pattern(bits: u64)
    requires
        sample::nan64(bits),
    ensures
        sample::quieted64(bits) == (if bits >= 0x8000_0000_0000_0000 {
            0x8000_0000_0000_0000int
        } else {
            0
        }) + 0x7ff8_0000_0000_0000 + bits as int % 0x8_0000_0000_0000,
        sample::undefined64() == 0x7ff8_0000_0000_0000,
{
    let sign: int = if bits >= 0x8000_0000_0000_0000 {
        1
    } else {
        0
    };
    let payload = bits - sign * 0x8000_0000_0000_0000 - 0x7ff0_0000_0000_0000;
    assert(0 <= payload < 0x10_0000_0000_0000);
    if payload < 0x8_0000_0000_0000 {
        assert(bits as int % 0x8_0000_0000_0000 == payload);
    } else {
        assert(bits as int % 0x8_0000_0000_0000 == payload - 0x8_0000_0000_0000);
    }
}

/// The ceiling of a sample that is not negative is the least natural that is not below its value;
/// it is 0 for one that is negative or not a number.
pub proof fn law_ceiling_is_the_least_above(bits: u64)
    ensures
        ({
            let c = sample::ceiling(bits);
            let one = pow2(1074);
            &&& sample::nan64(bits) || sample::negative64(bits) ==> c == 0
            &&& !sample::nan64(bits) && !sample::negative64(bits) ==> {
                &&& sample::value64(bits) <= c * one
                &&& (c - 1) * one < sample::value64(bits)
            }
        }),
{
    let c = sample::ceiling(bits) as int;
    let one = pow2(1074) as int;
    lemma_pow2_pos(1074);
    if !sample::nan64(bits) && !sample::negative64(bits) {
        let u = sample::units64(bits) as int;
        let x = u + one - 1;
        lemma_fundamental_div_mod(x, one);
        lemma_div_pos_is_pos(x, one);
        assert(u <= c * one && (c - 1) * one < u) by (nonlinear_arith)
            requires
                x == one * c + x % one,
                0 <= x % one < one,
                x == u + one - 1,
        ;
    }
}

/// For a sample rate and a latency bound that are finite and not negative, every latency of up to
/// the ceiling of their product is covered, and the capacity is no more than one above that
/// ceiling; it stops at the largest size there is.
pub proof fn law_capacity_covers_the_declared_latency(
    sample_rate: u32,
    max_latency_seconds: u64,
    latency: nat,
)
    requires
        sample::finite32(sample_rate),
        sample::value32(sample_rate) >= 0,
        sample::finite64(max_latency_seconds),
        sample::value64(max_latency_seconds) >= 0,
    ensures
        ({
            let capacity = layout::capacity_for(sample_rate, max_latency_seconds);
            let samples = sample::scaled(sample::widened(sample_rate), max_latency_seconds);
            let one = pow2(1074);
            &&& 1 <= capacity <= usize::MAX
            &&& latency < usize::MAX && (latency - 1) * one < sample::value64(samples) ==> latency
                < capacity
            &&& sample::value64(samples) <= latency * one ==> capacity <= latency + 1
        }),
{
    let w = sample::widened(sample_rate);
    let p = sample::scaled(w, max_latency_seconds);
    let one = pow2(1074) as int;
    law_widened_is_the_same_number(sample_rate);
    lemma_pow2_pos(1074);
    law_product_is_nearest(w, max_latency_seconds, 0);
    law_ceiling_is_the_least_above(p);
    let c = sample::ceiling(p) as int;
    let v = sample::value64(p);
    if sample::negative64(p) {
        // one operand is a zero, so the product is one too
        lemma_zero_product(w, max_latency_seconds);
    }
    let l = latency as int;
    assert((l - 1) * one < v && v <= c * one ==> l <= c) by (nonlinear_arith)
        requires
            one > 0,
    ;
    assert((c - 1) * one < v && v <= l * one ==> c <= l) by (nonlinear_arith)
        requires
            one > 0,
    ;
    if sample::negative64(p) {
        assert((l - 1) * one < 0 ==> l == 0) by (nonlinear_arith)
            requires
                one > 0,
                l >= 0,
        ;
    }
}

/// A negative product of samples that are not below 0 is a negative zero.
proof fn lemma_zero_product(a: u64, b: u64)
    requires
        sample::finite64(a),
        sample::finite64(b),
        sample::value64(a) >= 0,
        sample::value64(b) >= 0,
        sample::negative64(sample::scaled(a, b)),
    ensures
        sample::value64(sample::scaled(a, b)) == 0,
{
    lemma_pow2_pos(52);
    lemma_pow2_pos(1074);
    law_product_is_nearest(a, b, 0);
    let ua = sample::units64(a) as int;
    let ub = sample::units64(b) as int;
    assert(ua * ub == 0) by (nonlinear_arith)
        requires
            ua == 0 || ub == 0,
    ;
    assert(0 * pow2(1074) == 0);
    ieee::lemma_nearest_exact(52, 0x7ff0_0000_0000_0000, pow2(1074), 0, 0);
}

/// A latency bound that is negative or not a finite number, and a sample rate that is negative or
/// not a number, leave room for the current sample alone. An infinite rate with a bound above 0
/// asks for the largest size there is.
pub proof fn law_capacity_without_a_usable_bound(sample_rate: u32, max_latency_seconds: u64)
    ensures
        !sample::finite64(max_latency_seconds) || sample::value64(max_latency_seconds) < 0
            ==> layout::capacity_for(sample_rate, max_latency_seconds) == 1,
        sample::nan32(sample_rate) || sample::value32(sample_rate) < 0 ==> layout::capacity_for(
            sample_rate,
            max_latency_seconds,
        ) == 1,
        sample_rate == 0x7f80_0000 && sample::finite64(max_latency_seconds) && sample::value64(
            max_latency_seconds,
        ) > 0 ==> layout::capacity_for(sample_rate, max_latency_seconds) == usize::MAX,
        sample_rate == 0x7f80_0000 && sample::value64(max_latency_seconds) == 0
            ==> layout::capacity_for(sample_rate, max_latency_seconds) == 1,
{
    let bound = layout::bounded(max_latency_seconds);
    let w = sample::widened(sample_rate);
    let p = sample::scaled(w, bound);
    let one = pow2(1074) as int;
    lemma_pow2_pos(1074);
    lemma_pow2_pos(52);
    lemma_pow2_pos(23);
    law_widened_is_the_same_number(sample_rate);
    law_products_beyond_the_finite(w, bound);
    law_ceiling_is_the_least_above(p);
    if sample::finite64(bound) && sample::magnitude64(bound) > 0 {
        ieee::lemma_units_increase(52, 0, sample::magnitude64(bound));
    }
    let c = sample::ceiling(p) as int;
    if sample::finite64(w) {
        law_product_is_nearest(w, bound, 0);
        if bound == 0 {
            let ua = sample::units64(w) as int;
            assert(ua * 0 == 0) by (nonlinear_arith);
            assert(0 * pow2(1074) == 0);
            ieee::lemma_nearest_exact(52, 0x7ff0_0000_0000_0000, pow2(1074), 0, 0);
            assert(sample::units64(p) == 0);
            if !sample::negative64(p) {
                assert((c - 1) * one < 0 ==> c <= 0) by (nonlinear_arith)
                    requires
                        one > 0,
                ;
            }
        } else if sample::value32(sample_rate) < 0 && !sample::negative64(p) {
            lemma_zero_times(w, bound);
            assert((c - 1) * one < 0 ==> c <= 0) by (nonlinear_arith)
                requires
                    one > 0,
            ;
        }
    }
    if sample::magnitude64(p) == 0x7ff0_0000_0000_0000 && !sample::negative64(p) {
        lemma2_to64();
        lemma2_to64_rest();
        ieee::lemma_units_at(52, 2046, pow2(52));
        lemma_pow2_adds(52, 2046);
        lemma_pow2_adds(1024, 1074);
        lemma_pow2_strictly_increases(64, 1024);
        assert(c >= pow2(1024)) by (nonlinear_arith)
            requires
                pow2(1024) * one <= c * one,
                one > 0,
        ;
    }
}

/// A product that is not negative, of a negative sample and one that is not below 0, is zero.
proof fn lemma_zero_times(a: u64, b: u64)
    requires
        sample::finite64(a),
        sample::finite64(b),
        sample::negative64(a),
        sample::value64(b) >= 0,
        !sample::negative64(sample::scaled(a, b)),
    ensures
        sample::value64(sample::scaled(a, b)) == 0,
{
    lemma_pow2_pos(52);
    lemma_pow2_pos(1074);
    law_product_is_nearest(a, b, 0);
    let ua = sample::units64(a) as int;
    let ub = sample::units64(b) as int;
    assert(ua * ub == 0) by (nonlinear_arith)
        requires
            ub == 0,
    ;
    assert(0 * pow2(1074) == 0);
    ieee::lemma_nearest_exact(52, 0x7ff0_0000_0000_0000, pow2(1074), 0, 0);
}

/// A significand times a power of two rounds to a pattern that no other one is nearer than, and to
/// an even one where another is as near.
pub proof fn law_rounding_is_to_nearest(
    p: nat,
    top: nat,
    significand: nat,
    exponent: int,
    n: nat,
    k: nat,
    up: nat,
    down: nat,
)
    requires
        rounding::rounds_to(p, top, significand, exponent, n),
        exponent == up - down,
        k <= top,
    ensures
        ({
            let v = (significand * pow2(up)) as int;
            let near = (ieee::units(p, n) * pow2(down)) as int;
            let other = (ieee::units(p, k) * pow2(down)) as int;
            &&& n <= top
            &&& apart(near, v) < apart(other, v) || (apart(near, v) == apart(other, v) && (n == k
                || n % 2 == 0))
        }),
{
    rounding::lemma_rounds_to_split(p, top, significand, exponent, n, up, down);
    if k != n {
        let near = ieee::units(p, n) * pow2(down);
        let other = ieee::units(p, k) * pow2(down);
        let v = significand * pow2(up);
        assert(ieee::distance(near, v) < ieee::distance(other, v) || (ieee::distance(near, v)
            == ieee::distance(other, v) && n % 2 == 0));
    }
}

} // verus!
