//! Fixed-point arithmetic used by the upper-confidence selection rule.
//!
//! All quantities are carried in Q16.16 fixed point (`FP_SCALE` units per
//! whole number), so the engine stays within integer arithmetic that can be
//! verified exactly.

use vstd::prelude::*;

verus! {

/// Number of fixed-point units per whole number (2^16).
pub const FP_SCALE: u64 = 65536;

/// ln(2) in fixed-point units, rounded down.
pub const LN2_FP: u64 = 45426;

pub open spec fn pow2(k: nat) -> nat
    decreases k,
{
    if k == 0 {
        1
    } else {
        2 * pow2((k - 1) as nat)
    }
}

pub proof fn lemma_pow2_pos(k: nat)
    ensures
        pow2(k) >= 1,
    decreases k,
{
    if k > 0 {
        lemma_pow2_pos((k - 1) as nat);
    }
}

pub proof fn lemma_pow2_le(a: nat, b: nat)
    requires
        a <= b,
    ensures
        pow2(a) <= pow2(b),
    decreases b,
{
    if a < b {
        lemma_pow2_le(a, (b - 1) as nat);
    }
}

/// The integer part of the base-2 logarithm: floor(log2(n)) for n >= 1, 0 otherwise.
pub open spec fn spec_floor_log2(n: nat) -> nat
    decreases n,
{
    if n < 2 {
        0
    } else {
        1 + spec_floor_log2(n / 2)
    }
}

pub proof fn lemma_floor_log2_bounds(n: nat)
    requires
        n >= 1,
    ensures
        pow2(spec_floor_log2(n)) <= n,
        n < 2 * pow2(spec_floor_log2(n)),
    decreases n,
{
    if n < 2 {
    } else {
        lemma_floor_log2_bounds(n / 2);
        assert(n == 2 * (n / 2) + n % 2);
    }
}

/// Base-2 logarithm in Q16.16 fixed point, linearly interpolated between
/// powers of two: k * FP_SCALE plus the interpolated fraction.
pub open spec fn spec_log2_fp(n: nat) -> int {
    if n == 0 {
        0
    } else {
        spec_floor_log2(n) * 65536 + (n - pow2(spec_floor_log2(n))) * 65536 / (pow2(
            spec_floor_log2(n),
        ) as int)
    }
}

/// Natural logarithm in Q16.16 fixed point, derived from `spec_log2_fp`.
pub open spec fn spec_ln_fp(n: nat) -> int {
    spec_log2_fp(n) * 45426 / 65536
}

pub proof fn lemma_log2_fp_bound(n: nat)
    requires
        n < 0x1_0000_0000,
    ensures
        0 <= spec_log2_fp(n),
        spec_log2_fp(n) < 0x20_0000,
{
    if n == 0 {
    } else {
        let k = spec_floor_log2(n);
        lemma_floor_log2_bounds(n);
        lemma_pow2_pos(k);
        let p = pow2(k) as int;
        if k >= 32 {
            lemma_pow2_le(32, k);
            assert(pow2(32) == 0x1_0000_0000) by {
                reveal_with_fuel(pow2, 33);
            }
        }
        assert(k <= 31);
        let frac = (n - p) * 65536 / p;
        assert(0 <= frac) by {
            vstd::arithmetic::div_mod::lemma_div_pos_is_pos((n - p) * 65536, p);
        }
        assert(frac < 65536) by {
            assert((n - p) * 65536 < p * 65536) by (nonlinear_arith)
                requires
                    n - p < p,
                    p > 0,
            ;
            vstd::arithmetic::div_mod::lemma_multiply_divide_lt((n - p) * 65536, p, 65536);
        }
    }
}

pub proof fn lemma_ln_fp_bound(n: nat)
    requires
        n < 0x1_0000_0000,
    ensures
        0 <= spec_ln_fp(n),
        spec_ln_fp(n) < 0x16_3000,
{
    lemma_log2_fp_bound(n);
    vstd::arithmetic::div_mod::lemma_div_pos_is_pos(spec_log2_fp(n) * 45426, 65536);
    assert(spec_log2_fp(n) * 45426 < 0x20_0000 * 45426) by (nonlinear_arith)
        requires
            spec_log2_fp(n) < 0x20_0000,
            0 <= spec_log2_fp(n),
    ;
    vstd::arithmetic::div_mod::lemma_div_is_ordered(
        spec_log2_fp(n) * 45426,
        0x20_0000int * 45426,
        65536,
    );
}

/// Returns floor(log2(n)) together with 2^floor(log2(n)).
fn floor_log2_with_pow(n: u64) -> (r: (u64, u64))
    requires
        1 <= n < 0x1_0000_0000,
    ensures
        r.0 as nat == spec_floor_log2(n as nat),
        r.1 as nat == pow2(r.0 as nat),
        r.1 <= n,
        (n as nat) < 2 * pow2(r.0 as nat),
        r.0 <= 31,
{
    let mut m: u64 = n;
    let mut k: u64 = 0;
    let mut p: u64 = 1;
    while m >= 2
        invariant
            1 <= m,
            1 <= p,
            n < 0x1_0000_0000,
            p as nat == pow2(k as nat),
            (m as nat) * (p as nat) <= n as nat,
            (n as nat) < ((m + 1) as nat) * (p as nat),
            spec_floor_log2(n as nat) == k as nat + spec_floor_log2(m as nat),
            k <= 31,
        decreases m,
    {
        proof {
            assert(m as nat == 2 * ((m as nat) / 2) + (m as nat) % 2);
            // The power cannot pass 2^31 while m >= 2 keeps m * p <= n < 2^32.
            if k == 31 {
                assert((m as nat) * (p as nat) >= 2 * (p as nat)) by (nonlinear_arith)
                    requires
                        m >= 2,
                        p as nat >= 0,
                ;
                assert(pow2(32) == 0x1_0000_0000) by {
                    reveal_with_fuel(pow2, 33);
                }
                assert(2 * pow2(31nat) == pow2(32nat));
                assert(false);
            }
            let m2 = (m as nat) / 2;
            assert(m2 * (2 * (p as nat)) <= (m as nat) * (p as nat)) by (nonlinear_arith)
                requires
                    2 * m2 <= m as nat,
                    p as nat >= 0,
            ;
            assert(((m + 1) as nat) * (p as nat) <= (m2 + 1) * (2 * (p as nat)))
                by (nonlinear_arith)
                requires
                    m as nat + 1 <= 2 * m2 + 2,
                    p as nat >= 0,
            ;
            assert(2 * (p as nat) <= (m as nat) * (p as nat)) by (nonlinear_arith)
                requires
                    m >= 2,
                    p as nat >= 1,
            ;
        }
        m = m / 2;
        k = k + 1;
        p = p * 2;
    }
    (k, p)
}

/// Base-2 logarithm in Q16.16 fixed point (0 for n == 0).
pub fn log2_fp(n: u64) -> (r: u64)
    requires
        n < 0x1_0000_0000,
    ensures
        r as int == spec_log2_fp(n as nat),
        r < 0x20_0000,
{
    proof {
        lemma_log2_fp_bound(n as nat);
    }
    if n == 0 {
        return 0;
    }
    let (k, p) = floor_log2_with_pow(n);
    proof {
        let d = n as int - p as int;
        assert(0 <= d < p as int);
        vstd::arithmetic::div_mod::lemma_div_pos_is_pos(d * 65536, p as int);
        assert(d * 65536 < (p as int) * 65536) by (nonlinear_arith)
            requires
                d < p as int,
                p >= 1,
        ;
        vstd::arithmetic::div_mod::lemma_multiply_divide_lt(d * 65536, p as int, 65536);
    }
    let frac: u64 = (n - p) * FP_SCALE / p;
    k * FP_SCALE + frac
}

/// Natural logarithm in Q16.16 fixed point (0 for n == 0).
pub fn ln_fp(n: u64) -> (r: u64)
    requires
        n < 0x1_0000_0000,
    ensures
        r as int == spec_ln_fp(n as nat),
        r < 0x16_3000,
{
    proof {
        lemma_ln_fp_bound(n as nat);
    }
    let l = log2_fp(n);
    l * LN2_FP / FP_SCALE
}

/// The integer square root: the greatest r with r * r <= x.
pub open spec fn spec_isqrt(x: nat) -> nat
    decreases x,
{
    if x == 0 {
        0
    } else {
        let r = spec_isqrt((x - 1) as nat);
        if (r + 1) * (r + 1) <= x {
            r + 1
        } else {
            r
        }
    }
}

pub proof fn lemma_isqrt_bounds(x: nat)
    ensures
        spec_isqrt(x) * spec_isqrt(x) <= x,
        x < (spec_isqrt(x) + 1) * (spec_isqrt(x) + 1),
    decreases x,
{
    if x == 0 {
        assert(spec_isqrt(0) == 0);
        assert(spec_isqrt(x) * spec_isqrt(x) <= x);
        assert(x < (spec_isqrt(x) + 1) * (spec_isqrt(x) + 1)) by (nonlinear_arith)
            requires
                x == 0,
                spec_isqrt(x) == 0,
        ;
    } else {
        lemma_isqrt_bounds((x - 1) as nat);
        let r = spec_isqrt((x - 1) as nat);
        assert(r * r <= x - 1);
        assert(((x - 1) as nat) < (r + 1) * (r + 1));
        if (r + 1) * (r + 1) <= x {
            assert(spec_isqrt(x) == r + 1);
            assert(x < (r + 2) * (r + 2)) by (nonlinear_arith)
                requires
                    x <= (r + 1) * (r + 1),
            ;
            assert(spec_isqrt(x) * spec_isqrt(x) == (r + 1) * (r + 1)) by (nonlinear_arith)
                requires
                    spec_isqrt(x) == r + 1,
            ;
            assert((spec_isqrt(x) + 1) * (spec_isqrt(x) + 1) == (r + 2) * (r + 2))
                by (nonlinear_arith)
                requires
                    spec_isqrt(x) == r + 1,
            ;
        } else {
            assert(spec_isqrt(x) == r);
            assert(x < (r + 1) * (r + 1));
        }
    }
}

/// Integer square root by binary search.
pub fn isqrt(x: u64) -> (r: u64)
    requires
        x < 0x4000_0000_0000_0000,
    ensures
        r as nat == spec_isqrt(x as nat),
        (r as nat) * (r as nat) <= x as nat,
        (x as nat) < ((r + 1) as nat) * ((r + 1) as nat),
{
    let mut lo: u64 = 0;
    let mut hi: u64 = 0x8000_0000;
    proof {
        assert((0x8000_0001u64 as nat) * (0x8000_0001u64 as nat) > x as nat) by (nonlinear_arith)
            requires
                x < 0x4000_0000_0000_0000,
        ;
    }
    while lo < hi
        invariant
            lo <= hi <= 0x8000_0000,
            (lo as nat) * (lo as nat) <= x as nat,
            (x as nat) < ((hi + 1) as nat) * ((hi + 1) as nat),
        decreases hi - lo,
    {
        proof {
            let d = hi as int - lo as int;
            assert((d + 1) / 2 <= d);
            assert((d + 1) / 2 >= 1);
        }
        let mid: u64 = lo + (hi - lo + 1) / 2;
        proof {
            assert((mid as int) * (mid as int) <= 0x4000_0000_0000_0000) by (nonlinear_arith)
                requires
                    mid <= 0x8000_0000,
            ;
        }
        if mid * mid <= x {
            lo = mid;
        } else {
            hi = mid - 1;
        }
    }
    proof {
        lemma_isqrt_bounds(x as nat);
        let s = spec_isqrt(x as nat);
        assert(lo as nat == s) by (nonlinear_arith)
            requires
                (lo as nat) * (lo as nat) <= x as nat,
                (x as nat) < ((lo + 1) as nat) * ((lo + 1) as nat),
                s * s <= x as nat,
                (x as nat) < (s + 1) * (s + 1),
        ;
    }
    lo
}

} // verus!
