//! What quantizing a host sample drops, and what adding it back restores.

use vstd::prelude::*;
use vstd::arithmetic::power2::*;
use vstd::arithmetic::mul::*;
use crate::ieee;
use crate::sample;
use crate::sample::{difference, is_finite32, is_finite64, widen};
use crate::sample::{INFINITY32, INFINITY64, SIGN64, UNIT_PLACES};

verus! {

/// What a host sample holds beyond its quantized form; nothing where one of the two is not a
/// finite number.
pub open spec fn residual(host: u64, quantized: u32) -> u64 {
    if sample::finite64(host) && sample::finite32(quantized) {
        sample::remainder(host, sample::widened(quantized))
    } else {
        0
    }
}

/// Whether a host sample is a finite number within the range of the 32-bit format.
pub open spec fn in_range(host: u64) -> bool {
    sample::finite64(host) && sample::finite32(sample::quantized(host))
}

/// A host sample as it comes back from the bridge: the same pattern, but for negative zero, which
/// comes back as zero.
pub open spec fn restored(host: u64) -> u64 {
    if host == SIGN64 {
        0
    } else {
        host
    }
}

/// What a host sample holds beyond its quantized form.
pub fn residual_of(host: u64, quantized: u32) -> (r: u64)
    ensures
        r == residual(host, quantized),
{
    if is_finite64(host) && is_finite32(quantized) {
        difference(host, widen(quantized))
    } else {
        0
    }
}

/// The sign and the magnitude of a 32-bit sample that was put together from them.
proof fn lemma_signed32(negative: bool, magnitude: nat)
    requires
        magnitude <= INFINITY32,
    ensures
        sample::negative32(sample::signed32(negative, magnitude)) == negative,
        sample::magnitude32(sample::signed32(negative, magnitude)) == magnitude,
{
}

/// The sign and the magnitude of a 64-bit sample that was put together from them.
proof fn lemma_signed64(negative: bool, magnitude: nat)
    requires
        magnitude <= INFINITY64,
    ensures
        sample::negative64(sample::signed64(negative, magnitude)) == negative,
        sample::magnitude64(sample::signed64(negative, magnitude)) == magnitude,
{
}

/// Widening keeps the sign and the value of a finite sample.
pub proof fn law_widening_is_exact(quantized: u32)
    requires
        sample::finite32(quantized),
    ensures
        sample::finite64(sample::widened(quantized)),
        sample::negative64(sample::widened(quantized)) == sample::negative32(quantized),
        sample::value64(sample::widened(quantized)) == sample::value32(quantized),
{
    sample::lemma_widened_exactly(quantized);
    ieee::lemma_nearest_exists(52, INFINITY64 as nat, 1, sample::units32(quantized));
    lemma_signed64(
        sample::negative32(quantized),
        ieee::nearest(52, INFINITY64 as nat, 1, sample::units32(quantized)),
    );
}

/// A sample that already has 32-bit precision is quantized to itself, and leaves no residual.
pub proof fn law_quantized_samples_have_no_residual(quantized: u32)
    requires
        sample::finite32(quantized),
    ensures
        sample::quantized(sample::widened(quantized)) == quantized,
        residual(sample::widened(quantized), quantized) == 0,
{
    let w = sample::widened(quantized);
    law_widening_is_exact(quantized);
    lemma_pow2_pos(UNIT_PLACES as nat);
    ieee::lemma_nearest_exact(
        23,
        INFINITY32 as nat,
        pow2(UNIT_PLACES as nat),
        sample::units64(w),
        sample::magnitude32(quantized),
    );
    lemma_signed64(!sample::negative64(w), sample::magnitude64(w));
}

/// How far a host sample is from its quantized form, as a multiple of the last place of the host
/// sample that needs no more than 53 binary digits.
proof fn lemma_quantization_error(host: u64) -> (r: (nat, nat))
    requires
        in_range(host),
    ensures
        r.0 <= pow2(53),
        r.0 * pow2(r.1) == ieee::distance(
            sample::units32(sample::quantized(host)),
            sample::units64(host),
        ),
        r.0 * pow2(r.1) <= sample::units64(host),
        sample::negative32(sample::quantized(host)) == sample::negative64(host),
{
    let top = INFINITY32 as nat;
    let scale = pow2(UNIT_PLACES as nat);
    let u = sample::units64(host);
    let n = ieee::nearest(23, top, scale, u);
    lemma_pow2_pos(UNIT_PLACES as nat);
    lemma2_to64();
    lemma2_to64_rest();
    ieee::lemma_nearest_exists(23, top, scale, u);
    lemma_signed32(sample::negative64(host), n);
    let (e, s) = ieee::lemma_units_split(52, sample::magnitude64(host));
    ieee::lemma_units_at(52, e, s);
    lemma_pow2_unfold(53);
    let x = pow2(e) as int;
    lemma_pow2_pos(e);
    let (f, t) = ieee::lemma_units_split(23, n);
    ieee::lemma_units_at(23, f, t);
    let g = f + UNIT_PLACES as nat;
    lemma_pow2_adds(f, UNIT_PLACES as nat);
    lemma_mul_is_associative(t as int, pow2(f) as int, scale as int);
    lemma_mul_is_associative((t + 1) as int, pow2(f) as int, scale as int);
    let y = pow2(g) as int;
    lemma_pow2_pos(g);
    assert(ieee::units(23, n) * scale == t * y);
    assert(ieee::units(23, n + 1) * scale == (t + 1) * y);
    // the quantized form is no further away than zero is
    assert(ieee::units(23, 0) == 0);
    assert(0 * scale == 0);
    let error = ieee::distance((t * y) as nat, u);
    assert(error <= u) by {
        if n != 0 {
            assert(ieee::units(23, 0) * scale == 0);
        }
    }
    // and it is a multiple of the last place of the host sample
    if g < e {
        lemma_pow2_strictly_increases(g, e);
        assert((t + 1) * y <= s * x) by (nonlinear_arith)
            requires
                t + 1 <= 0x100_0000,
                s >= 0x10_0000_0000_0000,
                0 <= y < x,
        ;
        assert(t * y < (t + 1) * y) by (nonlinear_arith)
            requires
                y > 0,
        ;
        assert(n + 1 <= top);
        assert(ieee::distance(ieee::units(23, n + 1) * scale, u) < error);
    }
    let z = pow2((g - e) as nat) as int;
    lemma_pow2_adds((g - e) as nat, e);
    assert(t * (z * x) == (t * z) * x) by (nonlinear_arith);
    let d = ieee::distance((t * z) as nat, s);
    assert(d * x == error && d <= s) by (nonlinear_arith)
        requires
            x > 0,
            d == if t * z <= s { s - t * z } else { t * z - s },
            error == if (t * z) * x <= s * x { s * x - (t * z) * x } else { (t * z) * x - s * x },
            error <= s * x,
    ;
    (d, e)
}

/// Adding the residual of a host sample to its quantized form gives the host sample back.
pub proof fn law_residual_restores_host_sample(host: u64)
    requires
        in_range(host),
    ensures
        sample::total(
            sample::widened(sample::quantized(host)),
            residual(host, sample::quantized(host)),
        ) == restored(host),
{
    let q = sample::quantized(host);
    let w = sample::widened(q);
    let top = INFINITY64 as nat;
    let u = sample::units64(host);
    let m = sample::magnitude64(host);
    law_widening_is_exact(q);
    let (d, e) = lemma_quantization_error(host);
    ieee::lemma_units_increase(52, m, top);
    let k = sample::lemma_representable(d, e);
    let exact = sample::value64(host) - sample::value64(w);
    assert(sample::absolute(exact) == d * pow2(e));
    lemma_signed64(!sample::negative64(w), sample::magnitude64(w));
    let opposite = sample::negated(w);
    assert(sample::value64(opposite) == -sample::value64(w));
    let r = residual(host, q);
    assert(r == sample::rounded64(exact, false));
    ieee::lemma_nearest_exact(52, top, 1, d * pow2(e), k);
    lemma_signed64(exact < 0, k);
    assert(ieee::units(52, 0) == 0) by {
        lemma_pow2_pos(52);
    }
    assert(sample::finite64(r) && sample::value64(r) == exact);
    assert(sample::total(w, r) == sample::rounded64(
        sample::value64(host),
        sample::negative64(w) && sample::negative64(r),
    ));
    if m == 0 {
        assert(sample::value64(host) == 0);
    } else {
        ieee::lemma_units_increase(52, 0, m);
        ieee::lemma_nearest_exact(52, top, 1, u, m);
        assert(sample::signed64(sample::negative64(host), m) == host);
    }
}

} // verus!
