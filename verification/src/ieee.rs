//! What the bit patterns of the two IEEE 754 sample formats stand for.
//!
//! Both formats are treated alike. Without its sign bit a pattern is a natural number `n`; the
//! number that it stands for grows with `n`. With `p` fraction bits, the value of `n` is an
//! integer multiple of the smallest positive value of the format, so that values, sums and
//! products can be compared as integers.

use vstd::prelude::*;
use vstd::arithmetic::power2::*;
use vstd::arithmetic::mul::*;
use vstd::arithmetic::div_mod::*;

verus! {

/// The value that the pattern `n` stands for in a format with `p` fraction bits, in units of the
/// smallest positive value of that format.
pub open spec fn units(p: nat, n: nat) -> nat {
    if n < pow2(p) {
        n
    } else {
        (pow2(p) + n % pow2(p)) * pow2((n / pow2(p) - 1) as nat)
    }
}

/// How far two naturals are apart.
pub open spec fn distance(a: nat, b: nat) -> nat {
    if a <= b {
        (b - a) as nat
    } else {
        (a - b) as nat
    }
}

/// Whether, among the patterns up to `top`, `n` is the one whose value times `scale` lies nearest
/// to `v`, the even one of two that are equally near.
pub open spec fn is_nearest(p: nat, top: nat, scale: nat, v: nat, n: nat) -> bool {
    &&& n <= top
    &&& forall|k: nat|
        k <= top && k != n ==> {
            let dn = distance(units(p, n) * scale, v);
            let dk = distance(#[trigger] units(p, k) * scale, v);
            dn < dk || (dn == dk && n % 2 == 0)
        }
}

/// A pattern is the exponent `e` times `2^p` plus the significand `s`, and stands for `s * 2^e`;
/// so does its successor for `(s + 1) * 2^e`.
pub proof fn lemma_units_at(p: nat, e: nat, s: nat)
    requires
        s < 2 * pow2(p),
        e == 0 || pow2(p) <= s,
    ensures
        units(p, e * pow2(p) + s) == s * pow2(e),
        units(p, e * pow2(p) + s + 1) == (s + 1) * pow2(e),
{
    lemma_pow2_pos(p);
    lemma_units_of(p, e, s);
    if s + 1 < 2 * pow2(p) {
        lemma_units_of(p, e, s + 1);
    } else {
        lemma_units_of(p, e + 1, pow2(p));
        let q = pow2(p) as int;
        assert((e + 1) * q + q == e * q + 2 * q) by (nonlinear_arith);
        lemma_pow2_unfold(e + 1);
        assert(q * (2 * pow2(e)) == (2 * q) * pow2(e)) by (nonlinear_arith);
    }
}

/// The value of a pattern with the exponent `e` and the significand `s`.
proof fn lemma_units_of(p: nat, e: nat, s: nat)
    requires
        s < 2 * pow2(p),
        e == 0 || pow2(p) <= s,
    ensures
        units(p, e * pow2(p) + s) == s * pow2(e),
{
    lemma_pow2_pos(p);
    lemma2_to64();
    let q = pow2(p) as int;
    let n = e * q + s;
    assert(e * q >= 0) by (nonlinear_arith)
        requires
            e >= 0,
            q > 0,
    ;
    if s < q {
        assert(0 * q == 0);
    } else {
        assert((e + 1) * q + (s - q) == n) by (nonlinear_arith)
            requires
                n == e * q + s,
        ;
        assert(e * q + s >= q);
        lemma_fundamental_div_mod_converse(n, q, (e + 1) as int, s - q);
        assert(n / q == e + 1);
        assert(n % q == s - q);
    }
}

/// Every pattern splits into the exponent and the significand that `lemma_units_at` speaks of.
pub proof fn lemma_units_split(p: nat, n: nat) -> (r: (nat, nat))
    ensures
        n == r.0 * pow2(p) + r.1,
        r.1 < 2 * pow2(p),
        r.0 == 0 || pow2(p) <= r.1,
{
    lemma_pow2_pos(p);
    let q = pow2(p) as int;
    if n < q {
        assert(0 * q == 0);
        (0nat, n)
    } else {
        lemma_fundamental_div_mod(n as int, q);
        let d = n as int / q;
        let m = n as int % q;
        assert(d >= 1) by (nonlinear_arith)
            requires
                n >= q,
                q > 0,
                n == q * d + m,
                0 <= m < q,
        ;
        assert((d - 1) * q + (q + m) == n) by (nonlinear_arith)
            requires
                n == q * d + m,
        ;
        ((d - 1) as nat, (q + m) as nat)
    }
}

/// The value grows with the pattern.
pub proof fn lemma_units_increase(p: nat, a: nat, b: nat)
    requires
        a < b,
    ensures
        units(p, a) < units(p, b),
    decreases b - a,
{
    let (e, s) = lemma_units_split(p, a);
    lemma_units_at(p, e, s);
    lemma_pow2_pos(e);
    assert(s * pow2(e) < (s + 1) * pow2(e)) by (nonlinear_arith)
        requires
            pow2(e) > 0,
    ;
    if a + 1 < b {
        lemma_units_increase(p, a + 1, b);
    }
}

/// The value that rounding to the nearest pattern gives: see `is_nearest`.
pub open spec fn nearest(p: nat, top: nat, scale: nat, v: nat) -> nat {
    choose|n: nat| is_nearest(p, top, scale, v, n)
}

/// There is at most one nearest pattern.
pub proof fn lemma_nearest_unique(p: nat, top: nat, scale: nat, v: nat, n: nat)
    requires
        scale > 0,
        is_nearest(p, top, scale, v, n),
    ensures
        nearest(p, top, scale, v) == n,
{
    let m = nearest(p, top, scale, v);
    assert(is_nearest(p, top, scale, v, m));
    if m != n {
        if m < n {
            lemma_not_both_nearest(p, top, scale, v, m, n);
        } else {
            lemma_not_both_nearest(p, top, scale, v, n, m);
        }
    }
}

proof fn lemma_not_both_nearest(p: nat, top: nat, scale: nat, v: nat, a: nat, b: nat)
    requires
        scale > 0,
        a < b,
        is_nearest(p, top, scale, v, a),
    ensures
        !is_nearest(p, top, scale, v, b),
{
    if is_nearest(p, top, scale, v, b) {
        let ua = units(p, a) * scale;
        let ub = units(p, b) * scale;
        assert(a % 2 == 0 && b % 2 == 0);
        let c = a + 1;
        lemma_scaled_increase(p, scale, a, c);
        lemma_scaled_increase(p, scale, c, b);
        let uc = units(p, c) * scale;
        assert(ua < uc < ub);
        assert(distance(uc, v) < distance(ua, v) || distance(uc, v) < distance(ub, v));
    }
}

proof fn lemma_scaled_increase(p: nat, scale: nat, a: nat, b: nat)
    requires
        scale > 0,
        a < b,
    ensures
        units(p, a) * scale < units(p, b) * scale,
{
    lemma_units_increase(p, a, b);
    lemma_mul_strict_inequality(units(p, a) as int, units(p, b) as int, scale as int);
}

/// A number between the values of two neighbours rounds to the nearer one of them, and to the
/// even one when it lies half way.
pub proof fn lemma_nearest_between(p: nat, top: nat, scale: nat, v: nat, n: nat)
    requires
        scale > 0,
        n < top,
        units(p, n) * scale <= v < units(p, n + 1) * scale,
    ensures
        ({
            let below = v - units(p, n) * scale;
            let above = units(p, n + 1) * scale - v;
            if below < above || (below == above && n % 2 == 0) {
                is_nearest(p, top, scale, v, n)
            } else {
                is_nearest(p, top, scale, v, n + 1)
            }
        }),
{
    let below = v - units(p, n) * scale;
    let above = units(p, n + 1) * scale - v;
    let r = if below < above || (below == above && n % 2 == 0) { n } else { n + 1 };
    assert forall|k: nat| k <= top && k != r implies {
        let dn = distance(units(p, r) * scale, v);
        let dk = distance(#[trigger] units(p, k) * scale, v);
        dn < dk || (dn == dk && r % 2 == 0)
    } by {
        if k < n {
            lemma_scaled_increase(p, scale, k, n);
        }
        if k > n + 1 {
            lemma_scaled_increase(p, scale, n + 1, k);
        }
    }
}

/// A number from the value of `top` on rounds to `top`.
pub proof fn lemma_nearest_top(p: nat, top: nat, scale: nat, v: nat)
    requires
        scale > 0,
        units(p, top) * scale <= v,
    ensures
        is_nearest(p, top, scale, v, top),
{
    assert forall|k: nat| k <= top && k != top implies {
        let dn = distance(units(p, top) * scale, v);
        let dk = distance(#[trigger] units(p, k) * scale, v);
        dn < dk || (dn == dk && top % 2 == 0)
    } by {
        lemma_scaled_increase(p, scale, k, top);
    }
}

/// A number that a pattern stands for rounds to that pattern.
pub proof fn lemma_nearest_exact(p: nat, top: nat, scale: nat, v: nat, n: nat)
    requires
        scale > 0,
        n <= top,
        units(p, n) * scale == v,
    ensures
        is_nearest(p, top, scale, v, n),
        nearest(p, top, scale, v) == n,
{
    assert forall|k: nat| k <= top && k != n implies {
        let dn = distance(units(p, n) * scale, v);
        let dk = distance(#[trigger] units(p, k) * scale, v);
        dn < dk || (dn == dk && n % 2 == 0)
    } by {
        if k < n {
            lemma_scaled_increase(p, scale, k, n);
        } else {
            lemma_scaled_increase(p, scale, n, k);
        }
    }
    lemma_nearest_unique(p, top, scale, v, n);
}

/// Rounding does not depend on the unit in which both sides are counted.
pub proof fn lemma_nearest_rescaled(p: nat, top: nat, scale: nat, v: nat, n: nat, c: nat)
    requires
        c > 0,
        is_nearest(p, top, scale, v, n) || is_nearest(p, top, scale * c, v * c, n),
    ensures
        is_nearest(p, top, scale, v, n),
        is_nearest(p, top, scale * c, v * c, n),
{
    assert forall|k: nat| #[trigger] distance(units(p, k) * (scale * c), v * c) == distance(
        units(p, k) * scale,
        v,
    ) * c by {
        let u = units(p, k) as int;
        assert(u * (scale * c) == (u * scale) * c) by (nonlinear_arith);
        let a = u * scale;
        assert((a - v) * c == a * c - v * c) by (nonlinear_arith);
        assert((v - a) * c == v * c - a * c) by (nonlinear_arith);
        assert(a <= v ==> a * c <= v * c) by (nonlinear_arith)
            requires
                c > 0,
        ;
        assert(a > v ==> a * c > v * c) by (nonlinear_arith)
            requires
                c > 0,
        ;
    }
    assert forall|k: nat| k <= top && k != n implies {
        let dn = distance(units(p, n) * scale, v);
        let dk = distance(#[trigger] units(p, k) * scale, v);
        let en = distance(units(p, n) * (scale * c), v * c);
        let ek = distance(units(p, k) * (scale * c), v * c);
        (dn < dk || (dn == dk && n % 2 == 0)) && (en < ek || (en == ek && n % 2 == 0))
    } by {
        let dn = distance(units(p, n) * scale, v);
        let dk = distance(units(p, k) * scale, v);
        assert(distance(units(p, n) * (scale * c), v * c) == dn * c);
        assert(distance(units(p, k) * (scale * c), v * c) == dk * c);
        assert(dn < dk <==> dn * c < dk * c) by (nonlinear_arith)
            requires
                c > 0,
        ;
        assert(dn == dk <==> dn * c == dk * c) by (nonlinear_arith)
            requires
                c > 0,
        ;
    }
}

/// The predecessor of a pattern with an exponent `e` above 0 is at least `2^(e - 1)` below it.
pub proof fn lemma_units_before(p: nat, e: nat, s: nat)
    requires
        e > 0,
        pow2(p) <= s < 2 * pow2(p),
    ensures
        e * pow2(p) + s > 0,
        units(p, (e * pow2(p) + s - 1) as nat) + pow2((e - 1) as nat) <= s * pow2(e),
{
    lemma_pow2_pos(p);
    lemma_pow2_pos((e - 1) as nat);
    lemma_pow2_unfold(e);
    let q = pow2(p) as int;
    let w = pow2((e - 1) as nat) as int;
    assert(e * q >= 0) by (nonlinear_arith)
        requires
            e > 0,
            q > 0,
    ;
    if s > q {
        lemma_units_at(p, e, (s - 1) as nat);
        assert((s - 1) * (2 * w) + w <= s * (2 * w)) by (nonlinear_arith)
            requires
                w > 0,
        ;
    } else {
        lemma_units_at(p, (e - 1) as nat, (2 * q - 1) as nat);
        assert((e - 1) * q + (2 * q - 1) == e * q + q - 1) by (nonlinear_arith);
        assert((2 * q - 1) * w + w == q * (2 * w)) by (nonlinear_arith);
    }
}

/// There is a nearest pattern.
pub proof fn lemma_nearest_exists(p: nat, top: nat, scale: nat, v: nat)
    requires
        scale > 0,
    ensures
        is_nearest(p, top, scale, v, nearest(p, top, scale, v)),
{
    let n = lemma_pattern_below(p, top, scale, v);
    if n == top {
        lemma_nearest_top(p, top, scale, v);
    } else {
        lemma_nearest_between(p, top, scale, v, n);
    }
}

proof fn lemma_pattern_below(p: nat, top: nat, scale: nat, v: nat) -> (n: nat)
    ensures
        n <= top,
        units(p, n) * scale <= v,
        n < top ==> v < units(p, n + 1) * scale,
    decreases top,
{
    if top == 0 {
        lemma_pow2_pos(p);
        assert(0 * scale == 0);
        0
    } else if units(p, top) * scale <= v {
        top
    } else {
        lemma_pattern_below(p, (top - 1) as nat, scale, v)
    }
}

} // verus!
