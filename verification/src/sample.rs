//! Arithmetic on samples, which are held as the bit patterns of their IEEE 754 formats: a `u64`
//! for a 64-bit host sample and a `u32` for a 32-bit sample of the plugin.
//!
//! Each operation gives the exact result rounded to the nearest pattern, ties to even. Where the
//! result is not a number, its quiet bit is set, and it keeps the sign and the leading payload
//! bits of the first operand that was none.

use vstd::prelude::*;
use vstd::arithmetic::power2::*;
use vstd::arithmetic::mul::*;
use vstd::arithmetic::div_mod::*;
use crate::ieee;
use crate::rounding;
use crate::rounding::{power_of_two, round_pattern};

verus! {

/// The sign bit of a 64-bit sample; by itself, the pattern of negative zero.
pub const SIGN64: u64 = 0x8000_0000_0000_0000;

/// The pattern of positive infinity among 64-bit samples. Patterns above it, without their sign
/// bit, are not numbers.
pub const INFINITY64: u64 = 0x7ff0_0000_0000_0000;

/// The bit that marks a 64-bit pattern above infinity as quiet.
pub const QUIET64: u64 = 0x0008_0000_0000_0000;

/// The sign bit of a 32-bit sample.
pub const SIGN32: u32 = 0x8000_0000;

/// The pattern of positive infinity among 32-bit samples.
pub const INFINITY32: u32 = 0x7f80_0000;

/// The bit that marks a 32-bit pattern above infinity as quiet.
pub const QUIET32: u32 = 0x0040_0000;

/// By how many binary places the smallest positive 32-bit value exceeds the smallest positive
/// 64-bit value.
pub const UNIT_PLACES: u32 = 925;

/// How many smallest positive 64-bit values make up 1, as a number of binary places.
pub const ONE_PLACES: u32 = 1074;

/// Whether the sign bit of a 64-bit sample is set.
pub open spec fn negative64(bits: u64) -> bool {
    bits >= SIGN64
}

/// A 64-bit sample without its sign bit.
pub open spec fn magnitude64(bits: u64) -> nat {
    if negative64(bits) {
        (bits - SIGN64) as nat
    } else {
        bits as nat
    }
}

/// The 64-bit sample with the given sign and magnitude.
pub open spec fn signed64(negative: bool, magnitude: nat) -> u64 {
    if negative {
        (SIGN64 + magnitude) as u64
    } else {
        magnitude as u64
    }
}

/// Whether a 64-bit sample is a finite number.
pub open spec fn finite64(bits: u64) -> bool {
    magnitude64(bits) < INFINITY64
}

/// Whether a 64-bit sample is not a number.
pub open spec fn nan64(bits: u64) -> bool {
    magnitude64(bits) > INFINITY64
}

/// The absolute value of a finite 64-bit sample, in units of the smallest positive one.
pub open spec fn units64(bits: u64) -> nat {
    ieee::units(52, magnitude64(bits))
}

/// The value of a finite 64-bit sample, in units of the smallest positive one.
pub open spec fn value64(bits: u64) -> int {
    if negative64(bits) {
        -(units64(bits) as int)
    } else {
        units64(bits) as int
    }
}

/// Whether the sign bit of a 32-bit sample is set.
pub open spec fn negative32(bits: u32) -> bool {
    bits >= SIGN32
}

/// A 32-bit sample without its sign bit.
pub open spec fn magnitude32(bits: u32) -> nat {
    if negative32(bits) {
        (bits - SIGN32) as nat
    } else {
        bits as nat
    }
}

/// The 32-bit sample with the given sign and magnitude.
pub open spec fn signed32(negative: bool, magnitude: nat) -> u32 {
    if negative {
        (SIGN32 + magnitude) as u32
    } else {
        magnitude as u32
    }
}

/// Whether a 32-bit sample is a finite number.
pub open spec fn finite32(bits: u32) -> bool {
    magnitude32(bits) < INFINITY32
}

/// Whether a 32-bit sample is not a number.
pub open spec fn nan32(bits: u32) -> bool {
    magnitude32(bits) > INFINITY32
}

/// The absolute value of a finite 32-bit sample, in units of the smallest positive 64-bit one.
pub open spec fn units32(bits: u32) -> nat {
    ieee::units(23, magnitude32(bits)) * pow2(UNIT_PLACES as nat)
}

/// The value of a finite 32-bit sample, in units of the smallest positive 64-bit one.
pub open spec fn value32(bits: u32) -> int {
    if negative32(bits) {
        -(units32(bits) as int)
    } else {
        units32(bits) as int
    }
}

/// A payload with its quiet bit set.
pub open spec fn quieted(payload: nat, quiet: nat) -> nat {
    if payload < quiet {
        payload + quiet
    } else {
        payload
    }
}

/// The 32-bit sample that a 64-bit sample is quantized to.
pub open spec fn quantized(host: u64) -> u32 {
    let m = magnitude64(host);
    if nan64(host) {
        let payload = ((m - INFINITY64) / 0x2000_0000) as nat;
        signed32(negative64(host), INFINITY32 as nat + quieted(payload, QUIET32 as nat))
    } else {
        signed32(
            negative64(host),
            ieee::nearest(23, INFINITY32 as nat, pow2(UNIT_PLACES as nat), units64(host)),
        )
    }
}

/// The 64-bit sample that a 32-bit sample is widened to.
pub open spec fn widened(sample: u32) -> u64 {
    let m = magnitude32(sample);
    if nan32(sample) {
        let payload = ((m - INFINITY32) * 0x2000_0000) as nat;
        signed64(negative32(sample), INFINITY64 as nat + quieted(payload, QUIET64 as nat))
    } else if m == INFINITY32 {
        signed64(negative32(sample), INFINITY64 as nat)
    } else {
        signed64(negative32(sample), ieee::nearest(52, INFINITY64 as nat, 1, units32(sample)))
    }
}

/// A 64-bit sample that is not a number, with its quiet bit set.
pub open spec fn quieted64(bits: u64) -> u64 {
    signed64(
        negative64(bits),
        INFINITY64 as nat + quieted((magnitude64(bits) - INFINITY64) as nat, QUIET64 as nat),
    )
}

/// What an operation gives that has no result: not a number, quiet and without a payload.
pub open spec fn undefined64() -> u64 {
    (INFINITY64 + QUIET64) as u64
}

/// The sum of two 64-bit samples.
pub open spec fn total(a: u64, b: u64) -> u64 {
    if nan64(a) {
        quieted64(a)
    } else if nan64(b) {
        quieted64(b)
    } else if !finite64(a) && !finite64(b) {
        if negative64(a) == negative64(b) {
            a
        } else {
            undefined64()
        }
    } else if !finite64(a) {
        a
    } else if !finite64(b) {
        b
    } else {
        rounded64(value64(a) + value64(b), negative64(a) && negative64(b))
    }
}

/// The 64-bit sample nearest to the number `v`; a zero has the given sign.
pub open spec fn rounded64(v: int, negative_zero: bool) -> u64 {
    if v == 0 {
        signed64(negative_zero, 0)
    } else {
        signed64(v < 0, ieee::nearest(52, INFINITY64 as nat, 1, absolute(v)))
    }
}

/// The absolute value of an integer.
pub open spec fn absolute(v: int) -> nat {
    if v < 0 {
        (-v) as nat
    } else {
        v as nat
    }
}

/// A 64-bit sample with the opposite sign.
pub open spec fn negated(bits: u64) -> u64 {
    signed64(!negative64(bits), magnitude64(bits))
}

/// The difference of two 64-bit samples.
pub open spec fn remainder(a: u64, b: u64) -> u64 {
    if nan64(a) {
        quieted64(a)
    } else if nan64(b) {
        quieted64(b)
    } else {
        total(a, negated(b))
    }
}

/// The product of two 64-bit samples.
pub open spec fn scaled(a: u64, b: u64) -> u64 {
    let negative = negative64(a) != negative64(b);
    if nan64(a) {
        quieted64(a)
    } else if nan64(b) {
        quieted64(b)
    } else if !finite64(a) || !finite64(b) {
        if magnitude64(a) == 0 || magnitude64(b) == 0 {
            undefined64()
        } else {
            signed64(negative, INFINITY64 as nat)
        }
    } else {
        signed64(
            negative,
            ieee::nearest(
                52,
                INFINITY64 as nat,
                pow2(ONE_PLACES as nat),
                units64(a) * units64(b),
            ),
        )
    }
}

/// The least natural that is not below a 64-bit sample; 0 for one that is not a number.
pub open spec fn ceiling(bits: u64) -> nat {
    if nan64(bits) || negative64(bits) {
        0
    } else {
        ((units64(bits) + pow2(ONE_PLACES as nat) - 1) / pow2(ONE_PLACES as nat) as int) as nat
    }
}

/// The significand and the exponent of a pattern without its sign bit.
fn split64(magnitude: u64) -> (r: (u64, u32))
    requires
        magnitude < SIGN64,
    ensures
        r.0 < 0x20_0000_0000_0000,
        r.1 < 2047,
        r.1 > 0 ==> r.0 >= 0x10_0000_0000_0000,
        magnitude == r.1 * 0x10_0000_0000_0000 + r.0,
        ieee::units(52, magnitude as nat) == r.0 * pow2(r.1 as nat),
{
    let exponent = magnitude / 0x10_0000_0000_0000;
    let r: (u64, u32) = if exponent == 0 {
        (magnitude, 0)
    } else {
        (magnitude % 0x10_0000_0000_0000 + 0x10_0000_0000_0000, (exponent - 1) as u32)
    };
    proof {
        lemma2_to64_rest();
        ieee::lemma_units_at(52, r.1 as nat, r.0 as nat);
    }
    r
}

/// Whether a 64-bit sample is a finite number.
pub fn is_finite64(bits: u64) -> (r: bool)
    ensures
        r == finite64(bits),
{
    magnitude_of64(bits) < INFINITY64
}

/// Whether a 32-bit sample is a finite number.
pub fn is_finite32(bits: u32) -> (r: bool)
    ensures
        r == finite32(bits),
{
    magnitude_of32(bits) < INFINITY32
}

fn magnitude_of64(bits: u64) -> (r: u64)
    ensures
        r == magnitude64(bits),
{
    if bits >= SIGN64 {
        bits - SIGN64
    } else {
        bits
    }
}

fn magnitude_of32(bits: u32) -> (r: u32)
    ensures
        r == magnitude32(bits),
{
    if bits >= SIGN32 {
        bits - SIGN32
    } else {
        bits
    }
}

/// Quantizes a 64-bit sample to 32 bits.
pub fn quantize(host: u64) -> (r: u32)
    ensures
        r == quantized(host),
{
    let m = magnitude_of64(host);
    let n: u32 = if m > INFINITY64 {
        let payload: u32 = ((m - INFINITY64) / 0x2000_0000) as u32;
        if payload < QUIET32 {
            INFINITY32 + (payload + QUIET32)
        } else {
            INFINITY32 + payload
        }
    } else {
        let (s, e) = split64(m);
        proof {
            lemma2_to64();
            lemma2_to64_rest();
            lemma_pow2_strictly_increases(64, 120);
        }
        let exponent: i32 = e as i32 - UNIT_PLACES as i32;
        let n = round_pattern(23, 255, s as u128, exponent);
        proof {
            rounding::lemma_rounds_to_split(
                23,
                INFINITY32 as nat,
                s as nat,
                exponent as int,
                n as nat,
                e as nat,
                UNIT_PLACES as nat,
            );
        }
        n as u32
    };
    if host >= SIGN64 {
        n + SIGN32
    } else {
        n
    }
}

/// Widens a 32-bit sample to 64 bits. Every finite sample keeps its value.
pub fn widen(sample: u32) -> (r: u64)
    ensures
        r == widened(sample),
        finite32(sample) ==> finite64(r) && value64(r) == value32(sample),
{
    let m = magnitude_of32(sample);
    let n: u64 = if m > INFINITY32 {
        let payload: u64 = (m - INFINITY32) as u64 * 0x2000_0000;
        if payload < QUIET64 {
            INFINITY64 + (payload + QUIET64)
        } else {
            INFINITY64 + payload
        }
    } else if m == INFINITY32 {
        INFINITY64
    } else {
        let field: u32 = m / 0x80_0000;
        let (s, e): (u32, u32) = if field == 0 {
            (m, 0)
        } else {
            (m % 0x80_0000 + 0x80_0000, field - 1)
        };
        proof {
            lemma2_to64();
            lemma2_to64_rest();
            lemma_pow2_strictly_increases(64, 120);
            ieee::lemma_units_at(23, e as nat, s as nat);
        }
        let exponent: i32 = e as i32 + UNIT_PLACES as i32;
        let n = round_pattern(52, 2047, s as u128, exponent);
        proof {
            let j = (e + UNIT_PLACES) as nat;
            rounding::lemma_rounds_to_split(
                52,
                INFINITY64 as nat,
                s as nat,
                exponent as int,
                n as nat,
                j,
                0,
            );
            lemma_pow2_adds(e as nat, UNIT_PLACES as nat);
            lemma_mul_is_associative(
                s as int,
                pow2(e as nat) as int,
                pow2(UNIT_PLACES as nat) as int,
            );
            lemma_widened_exactly(sample);
        }
        n
    };
    if sample >= SIGN32 {
        n + SIGN64
    } else {
        n
    }
}

/// Every number `d * 2^j` with at most 53 binary digits that is below infinity has a 64-bit
/// pattern.
pub proof fn lemma_representable(d: nat, j: nat) -> (n: nat)
    requires
        d <= pow2(53),
        d * pow2(j) < ieee::units(52, INFINITY64 as nat),
    ensures
        n < INFINITY64,
        ieee::units(52, n) == d * pow2(j),
    decreases j,
{
    lemma2_to64_rest();
    lemma_pow2_unfold(53);
    if j == 0 {
        lemma2_to64();
        if d < pow2(53) {
            ieee::lemma_units_at(52, 0, d);
            d
        } else {
            ieee::lemma_units_at(52, 1, pow2(52));
            (2 * pow2(52)) as nat
        }
    } else if d < pow2(52) {
        lemma_pow2_unfold(j);
        assert((2 * d) * pow2((j - 1) as nat) == d * (2 * pow2((j - 1) as nat)))
            by (nonlinear_arith);
        lemma_representable(2 * d, (j - 1) as nat)
    } else {
        let (e, s) = if d < pow2(53) {
            (j, d)
        } else {
            (j + 1, pow2(52))
        };
        let n = e * pow2(52) + s;
        ieee::lemma_units_at(52, e, s);
        if d == pow2(53) {
            lemma_pow2_unfold(j + 1);
            assert(pow2(52) * (2 * pow2(j)) == (2 * pow2(52)) * pow2(j)) by (nonlinear_arith);
        }
        if n > INFINITY64 {
            ieee::lemma_units_increase(52, INFINITY64 as nat, n);
        }
        n
    }
}

/// Widening keeps the value of a finite sample.
pub proof fn lemma_widened_exactly(sample: u32)
    requires
        finite32(sample),
    ensures
        finite64(widened(sample)),
        value64(widened(sample)) == value32(sample),
{
    let m = magnitude32(sample);
    lemma2_to64();
    lemma2_to64_rest();
    let (e, s) = ieee::lemma_units_split(23, m);
    ieee::lemma_units_at(23, e, s);
    assert(e < 255) by (nonlinear_arith)
        requires
            m == e * 0x80_0000 + s,
            m < 255 * 0x80_0000,
    ;
    let j = e + UNIT_PLACES as nat;
    lemma_pow2_adds(e, UNIT_PLACES as nat);
    lemma_mul_is_associative(s as int, pow2(e) as int, pow2(UNIT_PLACES as nat) as int);
    assert(units32(sample) == s * pow2(j));
    ieee::lemma_units_at(52, 2046, pow2(52));
    assert(2046 * pow2(52) + pow2(52) == INFINITY64);
    lemma_pow2_strictly_increases(j, 2046);
    assert(s * pow2(j) < pow2(52) * pow2(2046)) by (nonlinear_arith)
        requires
            s < pow2(52),
            pow2(j) < pow2(2046),
    ;
    lemma_pow2_strictly_increases(52, 53);
    let n = lemma_representable(s, j);
    lemma_mul_basics(units32(sample) as int);
    ieee::lemma_nearest_exact(52, INFINITY64 as nat, 1, units32(sample), n);
}

/// Adds two 64-bit samples.
pub fn sum(a: u64, b: u64) -> (r: u64)
    ensures
        r == total(a, b),
{
    let ma = magnitude_of64(a);
    let mb = magnitude_of64(b);
    if ma > INFINITY64 {
        return quiet(a);
    }
    if mb > INFINITY64 {
        return quiet(b);
    }
    if ma == INFINITY64 {
        if mb == INFINITY64 && (a >= SIGN64) != (b >= SIGN64) {
            return INFINITY64 + QUIET64;
        }
        return a;
    }
    if mb == INFINITY64 {
        return b;
    }
    if ma >= mb {
        sum_ordered(a >= SIGN64, ma, b >= SIGN64, mb)
    } else {
        sum_ordered(b >= SIGN64, mb, a >= SIGN64, ma)
    }
}

/// Sets the quiet bit of a 64-bit sample that is not a number.
fn quiet(bits: u64) -> (r: u64)
    requires
        nan64(bits),
    ensures
        r == quieted64(bits),
{
    let payload = magnitude_of64(bits) - INFINITY64;
    if payload < QUIET64 {
        bits + QUIET64
    } else {
        bits
    }
}

/// The value of a sign and a magnitude.
pub open spec fn directed(negative: bool, magnitude: nat) -> int {
    if negative {
        -(ieee::units(52, magnitude) as int)
    } else {
        ieee::units(52, magnitude) as int
    }
}

/// Adds two finite 64-bit samples, of which the second is not greater in magnitude.
fn sum_ordered(na: bool, ma: u64, nb: bool, mb: u64) -> (r: u64)
    requires
        mb <= ma < INFINITY64,
    ensures
        r == rounded64(directed(na, ma as nat) + directed(nb, mb as nat), na && nb),
{
    let (sa, ea) = split64(ma);
    let (sb, eb) = split64(mb);
    let ghost ua = ieee::units(52, ma as nat);
    let ghost ub = ieee::units(52, mb as nat);
    let ghost v = directed(na, ma as nat) + directed(nb, mb as nat);
    proof {
        if mb < ma {
            ieee::lemma_units_increase(52, mb as nat, ma as nat);
        }
        if ma > 0 {
            ieee::lemma_units_increase(52, 0, ma as nat);
        }
        assert(ea >= eb) by (nonlinear_arith)
            requires
                ma >= mb,
                ma == ea * 0x10_0000_0000_0000 + sa,
                mb == eb * 0x10_0000_0000_0000 + sb,
                ea > 0 ==> sa >= 0x10_0000_0000_0000,
                eb > 0 ==> sb >= 0x10_0000_0000_0000,
                sa < 0x20_0000_0000_0000,
                sb < 0x20_0000_0000_0000,
        ;
    }
    let gap: u32 = ea - eb;
    if gap > 64 {
        proof {
            lemma_far_apart(ma as nat, mb as nat, sa as nat, ea as nat, sb as nat, eb as nat);
            assert(absolute(v) == if na == nb { ua + ub } else { (ua - ub) as nat });
            ieee::lemma_nearest_unique(52, INFINITY64 as nat, 1, absolute(v), ma as nat);
        }
        return if na { ma + SIGN64 } else { ma };
    }
    let factor = power_of_two(gap);
    proof {
        lemma2_to64();
        lemma2_to64_rest();
        lemma_pow2_adds(64, 56);
        if gap < 64 {
            lemma_pow2_strictly_increases(gap as nat, 64);
        }
        lemma_mul_upper_bound(sa as int, 0x20_0000_0000_0000, factor as int, pow2(64) as int);
        lemma_pow2_pos(gap as nat);
        lemma_mul_inequality(1, factor as int, sa as int);
        // both operands in units of the exponent of the smaller one
        lemma_pow2_adds(gap as nat, eb as nat);
        lemma_mul_is_associative(sa as int, factor as int, pow2(eb as nat) as int);
        lemma_mul_is_distributive_add_other_way(pow2(eb as nat) as int, sa * factor, sb as int);
        lemma_mul_is_distributive_sub_other_way(pow2(eb as nat) as int, sa * factor, sb as int);
        lemma_pow2_pos(eb as nat);
        if sa * factor < sb {
            lemma_mul_strict_inequality(sa * factor, sb as int, pow2(eb as nat) as int);
        }
    }
    let wide: u128 = sa as u128 * factor;
    let exact: u128 = if na == nb {
        wide + sb as u128
    } else {
        wide - sb as u128
    };
    if exact == 0 {
        assert(v == 0);
        return if na && nb { SIGN64 } else { 0 };
    }
    let n = round_pattern(52, 2047, exact, eb as i32);
    proof {
        assert(exact * pow2(eb as nat) > 0) by (nonlinear_arith)
            requires
                exact > 0,
                pow2(eb as nat) > 0,
        ;
        assert(absolute(v) == exact * pow2(eb as nat));
        rounding::lemma_rounds_to_split(
            52,
            INFINITY64 as nat,
            exact as nat,
            eb as int,
            n as nat,
            eb as nat,
            0,
        );
    }
    if na {
        n + SIGN64
    } else {
        n
    }
}

/// Adding or taking off a number that is far smaller does not change the nearest pattern.
proof fn lemma_far_apart(ma: nat, mb: nat, sa: nat, ea: nat, sb: nat, eb: nat)
    requires
        ma < INFINITY64,
        0x10_0000_0000_0000 <= sa < 0x20_0000_0000_0000,
        ma == ea * 0x10_0000_0000_0000 + sa,
        ieee::units(52, ma) == sa * pow2(ea),
        sb < 0x20_0000_0000_0000,
        ieee::units(52, mb) == sb * pow2(eb),
        ea > eb + 64,
    ensures
        ieee::units(52, mb) < ieee::units(52, ma),
        ieee::is_nearest(
            52,
            INFINITY64 as nat,
            1,
            ieee::units(52, ma) + ieee::units(52, mb),
            ma,
        ),
        ieee::is_nearest(
            52,
            INFINITY64 as nat,
            1,
            (ieee::units(52, ma) - ieee::units(52, mb)) as nat,
            ma,
        ),
{
    let ua = ieee::units(52, ma);
    let ub = ieee::units(52, mb);
    let top = INFINITY64 as nat;
    let w = pow2((ea - 1) as nat);
    lemma2_to64_rest();
    lemma_pow2_unfold(ea);
    lemma_pow2_pos((ea - 1) as nat);
    // the smaller number is below a quarter of the distance to either neighbour
    assert(4 * ub < w) by {
        let x = pow2(eb);
        lemma_pow2_pos(eb);
        lemma_pow2_adds(eb, 55);
        lemma_pow2_strictly_increases(eb + 55, (ea - 1) as nat);
        assert(4 * (sb * x) < x * 0x80_0000_0000_0000) by (nonlinear_arith)
            requires
                x > 0,
                sb < 0x20_0000_0000_0000,
        ;
    }
    ieee::lemma_units_at(52, ea, sa);
    ieee::lemma_units_before(52, ea, sa);
    assert((sa + 1) * (2 * w) == sa * (2 * w) + 2 * w) by (nonlinear_arith);
    assert(sa * (2 * w) >= 2 * w) by (nonlinear_arith)
        requires
            sa >= 1,
    ;
    ieee::lemma_nearest_between(52, top, 1, ua + ub, ma);
    if ub == 0 {
        assert(ua + ub == (ua - ub) as nat);
    } else {
        let n = (ma - 1) as nat;
        assert(n + 1 == ma);
        ieee::lemma_nearest_between(52, top, 1, (ua - ub) as nat, n);
    }
}

/// Subtracts one 64-bit sample from another.
pub fn difference(a: u64, b: u64) -> (r: u64)
    ensures
        r == remainder(a, b),
{
    let mb = magnitude_of64(b);
    if magnitude_of64(a) > INFINITY64 {
        quiet(a)
    } else if mb > INFINITY64 {
        quiet(b)
    } else {
        sum(a, if b >= SIGN64 { mb } else { mb + SIGN64 })
    }
}

/// Multiplies two 64-bit samples.
pub fn product(a: u64, b: u64) -> (r: u64)
    ensures
        r == scaled(a, b),
{
    let ma = magnitude_of64(a);
    let mb = magnitude_of64(b);
    let negative = (a >= SIGN64) != (b >= SIGN64);
    if ma > INFINITY64 {
        return quiet(a);
    }
    if mb > INFINITY64 {
        return quiet(b);
    }
    let n: u64 = if ma == INFINITY64 || mb == INFINITY64 {
        if ma == 0 || mb == 0 {
            return INFINITY64 + QUIET64;
        }
        INFINITY64
    } else {
        let (sa, ea) = split64(ma);
        let (sb, eb) = split64(mb);
        proof {
            lemma2_to64();
            lemma2_to64_rest();
            lemma_pow2_adds(64, 56);
            lemma_mul_upper_bound(
                sa as int,
                0x20_0000_0000_0000,
                sb as int,
                0x20_0000_0000_0000,
            );
            lemma_mul_nonnegative(sa as int, sb as int);
        }
        let exact: u128 = sa as u128 * sb as u128;
        let exponent: i32 = (ea + eb) as i32 - ONE_PLACES as i32;
        let n = round_pattern(52, 2047, exact, exponent);
        proof {
            let xa = pow2(ea as nat) as int;
            let xb = pow2(eb as nat) as int;
            lemma_pow2_adds(ea as nat, eb as nat);
            assert((sa * xa) * (sb * xb) == (sa * sb) * (xa * xb)) by (nonlinear_arith);
            rounding::lemma_rounds_to_split(
                52,
                INFINITY64 as nat,
                exact as nat,
                exponent as int,
                n as nat,
                (ea + eb) as nat,
                ONE_PLACES as nat,
            );
        }
        n
    };
    if negative {
        n + SIGN64
    } else {
        n
    }
}

/// Rounds a 64-bit sample up to an integer, and to the nearest one that a `usize` holds.
pub fn ceil_to_usize(bits: u64) -> (r: usize)
    ensures
        r == if ceiling(bits) <= usize::MAX { ceiling(bits) } else { usize::MAX as nat },
{
    let m = magnitude_of64(bits);
    if m > INFINITY64 || bits >= SIGN64 {
        return 0;
    }
    let (s, e) = split64(m);
    let ghost one = pow2(ONE_PLACES as nat) as int;
    proof {
        lemma2_to64();
        lemma2_to64_rest();
        lemma_pow2_pos(ONE_PLACES as nat);
    }
    if e >= ONE_PLACES {
        let shift: u32 = e - ONE_PLACES;
        let ghost whole = s * pow2(shift as nat);
        proof {
            lemma_pow2_adds(shift as nat, ONE_PLACES as nat);
            lemma_mul_is_associative(s as int, pow2(shift as nat) as int, one);
            lemma_fundamental_div_mod_converse(whole * one + one - 1, one, whole, one - 1);
            assert(ceiling(bits) == whole);
        }
        if shift >= 64 {
            proof {
                if shift > 64 {
                    lemma_pow2_strictly_increases(64, shift as nat);
                }
                lemma_mul_inequality(1, s as int, pow2(shift as nat) as int);
            }
            return usize::MAX;
        }
        let factor = power_of_two(shift);
        proof {
            lemma_pow2_strictly_increases(shift as nat, 64);
            lemma_mul_upper_bound(s as int, 0x20_0000_0000_0000, factor as int, pow2(64) as int);
        }
        let v: u128 = s as u128 * factor;
        if v > usize::MAX as u128 {
            usize::MAX
        } else {
            v as usize
        }
    } else {
        let shift: u32 = ONE_PLACES - e;
        let ghost d = pow2(shift as nat) as int;
        proof {
            lemma_pow2_pos(shift as nat);
            lemma_pow2_pos(e as nat);
            lemma_pow2_adds(shift as nat, e as nat);
            lemma_ceiling_rescaled(s as int, d, pow2(e as nat) as int);
            assert(ceiling(bits) == (s + d - 1) / d);
        }
        if s == 0 {
            proof {
                lemma_fundamental_div_mod_converse(d - 1, d, 0, d - 1);
            }
            return 0;
        }
        if shift >= 53 {
            proof {
                if shift > 53 {
                    lemma_pow2_strictly_increases(53, shift as nat);
                }
                lemma_fundamental_div_mod_converse(s + d - 1, d, 1, s - 1);
            }
            return 1;
        }
        let divisor = power_of_two(shift);
        proof {
            lemma_pow2_strictly_increases(shift as nat, 53);
            lemma_div_nonincreasing(s + d - 1, d);
        }
        let v: u128 = (s as u128 + (divisor - 1)) / divisor;
        if v > usize::MAX as u128 {
            usize::MAX
        } else {
            v as usize
        }
    }
}

/// A quotient that is rounded up does not change when both sides are multiplied.
proof fn lemma_ceiling_rescaled(s: int, d: int, x: int)
    requires
        s >= 0,
        d > 0,
        x > 0,
    ensures
        (s * x + d * x - 1) / (d * x) == (s + d - 1) / d,
{
    let c = (s + d - 1) / d;
    let m = (s + d - 1) % d;
    lemma_fundamental_div_mod(s + d - 1, d);
    let r = s * x + d * x - 1 - c * (d * x);
    assert(d * x > 0) by (nonlinear_arith)
        requires
            d > 0,
            x > 0,
    ;
    assert(0 <= r < d * x) by (nonlinear_arith)
        requires
            s + d - 1 == d * c + m,
            0 <= m < d,
            r == s * x + d * x - 1 - c * (d * x),
            x > 0,
            d > 0,
    ;
    lemma_fundamental_div_mod_converse(s * x + d * x - 1, d * x, c, r);
}

/// A finite 64-bit sample is at least 0 exactly if its pattern does not exceed that of negative
/// zero.
pub proof fn lemma_sign(bits: u64)
    requires
        finite64(bits),
    ensures
        value64(bits) >= 0 <==> bits <= SIGN64,
{
    lemma_pow2_pos(52);
    if magnitude64(bits) > 0 {
        ieee::lemma_units_increase(52, 0, magnitude64(bits));
    }
}

} // verus!
