//! Fixed-point parameter mathematics.
//!
//! A Bloom filter's size, capacity, hash count and false-positive rate are
//! mutual approximate inverses through `ln` and `exp`. This module carries
//! that arithmetic out in Q32.32 fixed point (a value `v` stands for the
//! real number `v / 2^32`), so every result is a deterministic, fully
//! specified function of its integer inputs. False-positive rates are
//! parts per million (ppm), so the representable rates are
//! `1 ..= 999_999` ppm, that is 0.000001 to 0.999999.
use vstd::arithmetic::div_mod::*;
use vstd::arithmetic::mul::*;
use vstd::arithmetic::power2::*;
use vstd::prelude::*;

verus! {

/// One in Q32.32 fixed point.
pub const Q32_ONE: u64 = 0x1_0000_0000;

/// ln(2) in Q32.32 fixed point.
pub const LN2_Q32: u64 = 2977044472;

/// ln(2)^2 in Q32.32 fixed point.
pub const LN2SQ_Q32: u64 = 2063529982;

/// Rates are expressed in parts per million.
pub const PPM_SCALE: u64 = 1_000_000;

/// Series length used by the fixed-point logarithm.
pub const LN_TERMS: u64 = 20;

/// Series length used by the fixed-point exponential.
pub const EXP_TERMS: u64 = 24;

/// Largest value `spec_rate_log_q32` can take (a coarse bound).
pub const RATE_LOG_MAX: u64 = 0x40_0000_0000;

/// Smallest value `spec_rate_log_q32` can take over valid rates.
pub const RATE_LOG_MIN: u64 = 2862;

/// Floor of the base-2 logarithm.
pub open spec fn spec_floor_log2(x: nat) -> nat
    decreases x,
{
    if x < 2 {
        0
    } else {
        spec_floor_log2(x / 2) + 1
    }
}

/// `pow2(spec_floor_log2(x)) <= x < pow2(spec_floor_log2(x) + 1)`.
pub proof fn lemma_floor_log2_bounds(x: nat)
    requires
        x >= 1,
    ensures
        pow2(spec_floor_log2(x)) <= x,
        x < pow2(spec_floor_log2(x) + 1),
    decreases x,
{
    lemma2_to64();
    if x < 2 {
    } else {
        lemma_floor_log2_bounds(x / 2);
        let f = spec_floor_log2(x / 2);
        lemma_pow2_adds(f, 1);
        lemma_pow2_adds(f + 1, 1);
        lemma_fundamental_div_mod(x as int, 2);
        assert(pow2(f + 1) == 2 * pow2(f));
        assert(pow2(f + 2) == 2 * pow2(f + 1));
    }
}

proof fn lemma_pow2_fits_u64(e: nat, x: u64)
    requires
        pow2(e) <= x,
    ensures
        e <= 63,
{
    if e > 63 {
        lemma2_to64();
        lemma2_to64_rest();
        lemma_pow2_adds(63, 1);
        if e > 64 {
            lemma_pow2_strictly_increases(64, e);
        }
        assert(false);
    }
}

fn floor_log2(x: u64) -> (r: u64)
    requires
        x >= 1,
    ensures
        r == spec_floor_log2(x as nat),
        r <= 63,
{
    let mut v: u64 = x;
    let mut r: u64 = 0;
    proof {
        lemma2_to64();
        lemma_mul_basics(x as int);
    }
    while v >= 2
        invariant
            1 <= v <= x,
            spec_floor_log2(x as nat) == r + spec_floor_log2(v as nat),
            pow2(r as nat) * v <= x,
            r <= 63,
        decreases v,
    {
        proof {
            lemma2_to64();
            lemma_pow2_pos(r as nat);
            lemma_pow2_adds(r as nat, 1);
            lemma_fundamental_div_mod(v as int, 2);
            // 2 * (v/2) <= v, so pow2(r) * (2 * (v/2)) <= pow2(r) * v <= x
            lemma_mul_left_inequality(pow2(r as nat) as int, 2 * ((v / 2) as int), v as int);
            // pow2(r+1) * (v/2) == pow2(r) * (2 * (v/2))
            lemma_mul_is_associative(pow2(r as nat) as int, 2, (v / 2) as int);
            assert(pow2(r as nat + 1) * ((v / 2) as nat) <= x);
            lemma_mul_left_inequality(pow2(r as nat + 1) as int, 1, (v / 2) as int);
            lemma_pow2_fits_u64(r as nat + 1, x);
        }
        v = v / 2;
        r = r + 1;
    }
    r
}

fn pow2_exec(e: u64) -> (r: u64)
    requires
        e <= 63,
    ensures
        r == pow2(e as nat),
{
    let mut i: u64 = 0;
    let mut r: u64 = 1;
    proof {
        lemma2_to64();
    }
    while i < e
        invariant
            i <= e <= 63,
            r == pow2(i as nat),
        decreases e - i,
    {
        proof {
            lemma2_to64();
            lemma2_to64_rest();
            lemma_pow2_adds(i as nat, 1);
            if i as nat + 1 < 64 {
                lemma_pow2_strictly_increases(i as nat + 1, 64);
            }
        }
        r = r * 2;
        i = i + 1;
    }
    r
}

/// Partial sum of the artanh series in Q32.32: terms `pw / (2k+1)` with the
/// power advanced by `z2` (the square of the initial argument) each step.
pub open spec fn spec_atanh_terms(pw: nat, z2: nat, k: nat, left: nat) -> nat
    decreases left,
{
    if left == 0 {
        0
    } else {
        pw / (2 * k + 1) + spec_atanh_terms(pw * z2 / 0x1_0000_0000, z2, k + 1, (left - 1) as nat)
    }
}

pub proof fn lemma_atanh_terms_bound(pw: nat, z2: nat, k: nat, left: nat)
    requires
        pw < 0x1_0000_0000,
        z2 < 0x1_0000_0000,
    ensures
        spec_atanh_terms(pw, z2, k, left) <= left * 0x1_0000_0000,
    decreases left,
{
    if left == 0 {
    } else {
        let pw2 = pw * z2 / 0x1_0000_0000;
        lemma_mul_upper_bound(pw as int, 0xFFFF_FFFF, z2 as int, 0xFFFF_FFFF);
        lemma_multiply_divide_lt((pw * z2) as int, 0x1_0000_0000, 0x1_0000_0000);
        lemma_atanh_terms_bound(pw2, z2, k + 1, (left - 1) as nat);
        lemma_div_nonincreasing(pw as int, (2 * k + 1) as int);
        assert(left * 0x1_0000_0000 == (left - 1) * 0x1_0000_0000 + 0x1_0000_0000)
            by (nonlinear_arith)
            requires
                left >= 1,
        ;
    }
}

/// Natural logarithm of a Q32.32 value (so of `x / 2^32`), in Q32.32.
///
/// Splits `x` as `m * 2^e` with `m` in `[1, 2)` and evaluates
/// `ln(m) = 2 * artanh((m - 1) / (m + 1))` by its series.
pub open spec fn spec_ln_q32(x: nat) -> int
    recommends
        x >= 0x1_0000_0000,
{
    let f = spec_floor_log2(x);
    if f < 32 {
        0
    } else {
        let e = (f - 32) as nat;
        let m = x / pow2(e);
        if m < 0x1_0000_0000 {
            0
        } else {
            let z = ((m as int - 0x1_0000_0000) * 0x1_0000_0000 / (m as int
                + 0x1_0000_0000)) as nat;
            let z2 = z * z / 0x1_0000_0000;
            e * LN2_Q32 + 2 * spec_atanh_terms(z, z2, 0, LN_TERMS as nat)
        }
    }
}

fn ln_fixed(x: u64) -> (r: u64)
    requires
        0x1_0000_0000 <= x,
        x <= 0x10_0000_0000_0000,
    ensures
        r as int == spec_ln_q32(x as nat),
{
    proof {
        lemma_floor_log2_bounds(x as nat);
        lemma2_to64();
        lemma2_to64_rest();
    }
    let p = floor_log2(x);
    proof {
        // 32 <= p <= 52
        if (p as nat) < 32 {
            lemma_pow2_strictly_increases(p as nat + 1, 32);
            assert(false);
        }
        if (p as nat) > 52 {
            lemma_pow2_strictly_increases(52, p as nat);
            assert(false);
        }
    }
    let e = p - 32;
    let two_e = pow2_exec(e);
    let m = x / two_e;
    proof {
        lemma_pow2_pos(e as nat);
        lemma_pow2_adds(e as nat, 32);
        lemma_pow2_adds(e as nat, 33);
        // m >= 2^32: x >= pow2(p) == pow2(e) * 2^32
        lemma_div_is_ordered((pow2(e as nat) * pow2(32)) as int, x as int, pow2(e as nat) as int);
        lemma_div_multiples_vanish(pow2(32) as int, pow2(e as nat) as int);
        // m < 2^33: x < pow2(p + 1) == pow2(e) * 2^33
        lemma_multiply_divide_lt(x as int, pow2(e as nat) as int, pow2(33) as int);
    }
    let z = ((m - Q32_ONE) * Q32_ONE) / (m + Q32_ONE);
    proof {
        // z < 2^32 since (m - 1) * 2^32 < (m + 1) * 2^32
        lemma_mul_strict_inequality((m - Q32_ONE) as int, (m + Q32_ONE) as int, Q32_ONE as int);
        lemma_multiply_divide_lt(
            ((m - Q32_ONE) * Q32_ONE) as int,
            (m + Q32_ONE) as int,
            Q32_ONE as int,
        );
        lemma_mul_upper_bound(z as int, 0xFFFF_FFFF, z as int, 0xFFFF_FFFF);
    }
    let z2 = (z * z) / Q32_ONE;
    proof {
        lemma_multiply_divide_lt((z * z) as int, Q32_ONE as int, Q32_ONE as int);
    }
    let ghost total = spec_atanh_terms(z as nat, z2 as nat, 0, LN_TERMS as nat);
    let mut acc: u64 = 0;
    let mut pw: u64 = z;
    let mut k: u64 = 0;
    while k < LN_TERMS
        invariant
            k <= LN_TERMS,
            pw < 0x1_0000_0000,
            z2 < 0x1_0000_0000,
            acc <= k * 0x1_0000_0000,
            total == acc + spec_atanh_terms(pw as nat, z2 as nat, k as nat, (LN_TERMS - k) as nat),
        decreases LN_TERMS - k,
    {
        proof {
            lemma_mul_upper_bound(pw as int, 0xFFFF_FFFF, z2 as int, 0xFFFF_FFFF);
            lemma_multiply_divide_lt((pw * z2) as int, 0x1_0000_0000, 0x1_0000_0000);
            lemma_div_nonincreasing(pw as int, (2 * k + 1) as int);
        }
        acc = acc + pw / (2 * k + 1);
        pw = (pw * z2) / Q32_ONE;
        k = k + 1;
    }
    proof {
        lemma_atanh_terms_bound(z as nat, z2 as nat, 0, LN_TERMS as nat);
    }
    e * LN2_Q32 + 2 * acc
}

/// `-ln(fp)` in Q32.32 for a false-positive rate given in ppm, computed as
/// `ln(1_000_000 / fp_ppm)`.
pub open spec fn spec_rate_log_q32(fp_ppm: nat) -> int
    recommends
        1 <= fp_ppm < 1_000_000,
{
    spec_ln_q32((1_000_000 * 0x1_0000_0000) as nat / fp_ppm)
}

pub fn rate_log_q32(fp_ppm: u64) -> (d: u64)
    requires
        1 <= fp_ppm < 1_000_000,
    ensures
        d as int == spec_rate_log_q32(fp_ppm as nat),
{
    let x = (PPM_SCALE * Q32_ONE) / fp_ppm;
    proof {
        lemma_div_is_ordered_by_denominator(4294967296000000, fp_ppm as int, 999999);
        lemma_div_is_ordered_by_denominator(4294967296000000, 1, fp_ppm as int);
    }
    ln_fixed(x)
}

/// `spec_rate_log_q32` stays within fixed, machine-friendly bounds.
pub proof fn lemma_rate_log_bounds(fp_ppm: nat)
    requires
        1 <= fp_ppm < 1_000_000,
    ensures
        RATE_LOG_MIN <= spec_rate_log_q32(fp_ppm) <= RATE_LOG_MAX,
{
    lemma2_to64();
    lemma2_to64_rest();
    let c: nat = (1_000_000 * 0x1_0000_0000) as nat;
    let x = c / fp_ppm;
    lemma_div_is_ordered_by_denominator(c as int, fp_ppm as int, 999999);
    lemma_div_is_ordered_by_denominator(c as int, 1, fp_ppm as int);
    lemma_div_basics(c as int);
    assert(x >= 4294971590);
    lemma_floor_log2_bounds(x);
    let f = spec_floor_log2(x);
    if f + 1 <= 32 {
        if f + 1 < 32 {
            lemma_pow2_strictly_increases(f + 1, 32);
        }
        assert(false);
    }
    if f >= 52 {
        if f > 52 {
            lemma_pow2_strictly_increases(52, f);
        }
        assert(false);
    }
    let e = (f - 32) as nat;
    let m = x / pow2(e);
    lemma_pow2_pos(e);
    lemma_pow2_adds(e, 32);
    lemma_pow2_adds(e, 33);
    lemma_div_is_ordered((pow2(e) * pow2(32)) as int, x as int, pow2(e) as int);
    lemma_div_multiples_vanish(pow2(32) as int, pow2(e) as int);
    lemma_multiply_divide_lt(x as int, pow2(e) as int, pow2(33) as int);
    assert(0x1_0000_0000 <= m < 0x2_0000_0000);
    let a = (m as int - 0x1_0000_0000) * 0x1_0000_0000;
    let z = (a / (m as int + 0x1_0000_0000)) as nat;
    lemma_mul_strict_inequality(
        m as int - 0x1_0000_0000,
        m as int + 0x1_0000_0000,
        0x1_0000_0000,
    );
    lemma_multiply_divide_lt(a, m as int + 0x1_0000_0000, 0x1_0000_0000);
    lemma_div_pos_is_pos(a, m as int + 0x1_0000_0000);
    let z2 = z * z / 0x1_0000_0000;
    lemma_mul_upper_bound(z as int, 0xFFFF_FFFF, z as int, 0xFFFF_FFFF);
    lemma_multiply_divide_lt((z * z) as int, 0x1_0000_0000, 0x1_0000_0000);
    lemma_atanh_terms_bound(z, z2, 0, LN_TERMS as nat);
    // first series term is z itself, so the total is at least z
    assert(spec_atanh_terms(z, z2, 0, LN_TERMS as nat) >= z / 1);
    lemma_div_basics(z as int);
    if e == 0 {
        // m == x, so m - 1 >= 4294 (in Q32.32), hence z >= 1431
        lemma_div_basics(x as int);
        lemma_mul_inequality(4294, m as int - 0x1_0000_0000, 0x1_0000_0000);
        lemma_div_is_ordered((4294 * 0x1_0000_0000) as int, a, m as int + 0x1_0000_0000);
        lemma_div_is_ordered_by_denominator(
            (4294 * 0x1_0000_0000) as int,
            m as int + 0x1_0000_0000,
            (3 * 0x1_0000_0000) as int,
        );
        assert(z >= 1431);
    }
}

/// The `k`-th term of the Taylor series of `exp(-r)` in Q32.32:
/// `r^k / k!`, evaluated with fixed-point rounding at each step.
pub open spec fn spec_exp_term(r: nat, k: nat) -> nat
    decreases k,
{
    if k == 0 {
        0x1_0000_0000
    } else {
        spec_exp_term(r, (k - 1) as nat) * r / 0x1_0000_0000 / k
    }
}

/// Alternating partial sum of the first `n` Taylor terms of `exp(-r)`.
pub open spec fn spec_exp_partial(r: nat, n: nat) -> int
    decreases n,
{
    if n == 0 {
        0
    } else if (n - 1) % 2 == 0 {
        spec_exp_partial(r, (n - 1) as nat) + spec_exp_term(r, (n - 1) as nat)
    } else {
        spec_exp_partial(r, (n - 1) as nat) - spec_exp_term(r, (n - 1) as nat)
    }
}

pub proof fn lemma_exp_term_props(r: nat, k: nat)
    requires
        r < 0x1_0000_0000,
    ensures
        spec_exp_term(r, k) <= 0x1_0000_0000,
        k >= 1 ==> spec_exp_term(r, k) <= spec_exp_term(r, (k - 1) as nat),
    decreases k,
{
    if k >= 1 {
        lemma_exp_term_props(r, (k - 1) as nat);
        let t = spec_exp_term(r, (k - 1) as nat);
        if t == 0 {
        } else {
            lemma_mul_left_inequality(t as int, r as int, 0x1_0000_0000);
            lemma_div_is_ordered((t * r) as int, (t * 0x1_0000_0000) as int, 0x1_0000_0000);
            lemma_div_multiples_vanish(t as int, 0x1_0000_0000);
            lemma_div_nonincreasing((t * r / 0x1_0000_0000) as int, k as int);
        }
    }
}

/// `exp(-x)` for a non-negative Q32.32 argument, in Q32.32, computed as
/// `2^(-q) * exp(-s)` where `x = q * ln(2) + s`.
pub open spec fn spec_exp_neg_q32(x: nat) -> int {
    let y = x / (LN2_Q32 as nat);
    if y >= 64 {
        0
    } else {
        spec_exp_partial(x % (LN2_Q32 as nat), EXP_TERMS as nat) / (pow2(y) as int)
    }
}

pub fn exp_neg_q32(x: u128) -> (res: u64)
    ensures
        res as int == spec_exp_neg_q32(x as nat),
        res <= 0x1_0000_0000,
{
    let y = x / (LN2_Q32 as u128);
    if y >= 64 {
        return 0;
    }
    let r = (x % (LN2_Q32 as u128)) as u64;
    proof {
        lemma_mod_bound(x as int, LN2_Q32 as int);
    }
    let mut acc: u64 = Q32_ONE;
    let mut term: u64 = Q32_ONE;
    let mut k: u64 = 1;
    proof {
        assert(spec_exp_partial(r as nat, 0) == 0);
        assert(spec_exp_term(r as nat, 0) == 0x1_0000_0000);
        assert(spec_exp_partial(r as nat, 1) == 0x1_0000_0000);
    }
    while k < EXP_TERMS
        invariant
            1 <= k <= EXP_TERMS,
            r < LN2_Q32,
            term == spec_exp_term(r as nat, (k - 1) as nat),
            acc as int == spec_exp_partial(r as nat, k as nat),
            term <= Q32_ONE,
            acc <= Q32_ONE,
            k % 2 == 1 ==> acc >= term,
            k % 2 == 0 ==> acc + term <= Q32_ONE,
        decreases EXP_TERMS - k,
    {
        proof {
            lemma_exp_term_props(r as nat, k as nat);
            lemma_mul_upper_bound(term as int, 0x1_0000_0000, r as int, 0xFFFF_FFFF);
        }
        let new_term = term * r / Q32_ONE / k;
        if k % 2 == 1 {
            acc = acc - new_term;
        } else {
            acc = acc + new_term;
        }
        term = new_term;
        k = k + 1;
    }
    let two_y = pow2_exec(y as u64);
    proof {
        lemma_pow2_pos(y as nat);
        lemma_div_nonincreasing(acc as int, two_y as int);
        lemma_div_pos_is_pos(acc as int, two_y as int);
    }
    acc / two_y
}

/// Bytes needed to hold `expected` items at rate `fp_ppm`:
/// `ceil(ceil(expected * -ln(fp) / ln(2)^2) / 8)`.
pub open spec fn spec_size_from_fp_capacity(fp_ppm: nat, expected: nat) -> int
    recommends
        1 <= fp_ppm < 1_000_000,
        1 <= expected,
{
    let d = spec_rate_log_q32(fp_ppm);
    let bits = (expected * d + (LN2SQ_Q32 - 1)) / (LN2SQ_Q32 as int);
    (bits + 7) / 8
}

/// Items a filter of `bytes` bytes can hold at rate `fp_ppm`:
/// `floor(bits * ln(2)^2 / -ln(fp))`.
pub open spec fn spec_capacity_from_fp_size(fp_ppm: nat, bytes: nat) -> int
    recommends
        1 <= fp_ppm < 1_000_000,
        1 <= bytes,
{
    (bytes * 8 * LN2SQ_Q32) / spec_rate_log_q32(fp_ppm)
}

/// Estimated false-positive rate in ppm of a filter of `bytes` bytes
/// holding `capacity` items: `round(1e6 * exp(-(bits / capacity) * ln(2)^2))`.
pub open spec fn spec_fp_from_capacity_size(bytes: nat, capacity: nat) -> int
    recommends
        1 <= bytes,
        1 <= capacity,
{
    let x = (bytes * 8 * LN2SQ_Q32) as nat / capacity;
    (spec_exp_neg_q32(x) * 1_000_000 + 0x8000_0000) / 0x1_0000_0000
}

/// Optimal number of hash passes: `round(ln(2) * bits / capacity)`.
pub open spec fn spec_optimal_k(bytes: nat, capacity: nat) -> int
    recommends
        1 <= bytes,
        1 <= capacity,
{
    let num = (bytes * 8 * LN2_Q32) as int;
    let den = (capacity * 0x1_0000_0000) as int;
    (num + den / 2) / den
}

/// A filter sized by `spec_size_from_fp_capacity` for `expected` items
/// has a derived capacity of at least `expected`.
#[verifier::rlimit(50)]
pub proof fn lemma_derived_capacity_at_least_expected(fp_ppm: nat, expected: nat)
    requires
        1 <= fp_ppm < 1_000_000,
        1 <= expected,
    ensures
        spec_size_from_fp_capacity(fp_ppm, expected) >= 1,
        spec_capacity_from_fp_size(
            fp_ppm,
            spec_size_from_fp_capacity(fp_ppm, expected) as nat,
        ) >= expected,
{
    lemma_rate_log_bounds(fp_ppm);
    let d = spec_rate_log_q32(fp_ppm);
    let l = LN2SQ_Q32 as int;
    let a = expected * d;
    lemma_mul_inequality(1, expected as int, d);
    lemma_mul_basics(d);
    assert(a >= d);
    let c1 = (a + (l - 1)) / l;
    let bytes = (c1 + 7) / 8;
    // c1 * l >= a and c1 >= 1
    lemma_fundamental_div_mod(a + (l - 1), l);
    lemma_mod_bound(a + (l - 1), l);
    assert(c1 * l >= a);
    lemma_div_pos_is_pos(a + (l - 1), l);
    if c1 == 0 {
        assert(false);
    }
    // bytes * 8 >= c1 and bytes >= 1
    lemma_fundamental_div_mod(c1 + 7, 8);
    lemma_mod_bound(c1 + 7, 8);
    assert(bytes * 8 >= c1);
    lemma_div_pos_is_pos(c1 + 7, 8);
    // bytes * 8 * l >= c1 * l >= a
    lemma_mul_inequality(c1, bytes * 8, l);
    // capacity == (bytes * 8 * l) / d >= a / d == expected
    lemma_div_is_ordered(a, bytes * 8 * l, d);
    lemma_div_multiples_vanish(expected as int, d);
    assert(a / d == expected);
    assert((bytes * 8 * l) / d >= expected);
    assert(spec_size_from_fp_capacity(fp_ppm, expected) == bytes);
    assert(spec_capacity_from_fp_size(fp_ppm, bytes as nat) == (bytes * 8 * l) / d);
}

} // verus!
