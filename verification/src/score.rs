//! Deterministic fixed-point BM25 scoring.
//!
//! All fractional quantities are carried in micro-units (millionths), so
//! every score is an exact function of the index state and the query, with
//! explicit rounding at each division. The natural logarithm of the idf
//! argument is computed digit by digit: whole multiples of `ln 2` by
//! halving, then twenty binary fraction digits by squaring.

use vstd::prelude::*;
use vstd::arithmetic::div_mod::lemma_div_by_multiple;
use vstd::arithmetic::div_mod::lemma_div_is_ordered;
use vstd::arithmetic::div_mod::lemma_div_multiples_vanish;
use vstd::arithmetic::div_mod::lemma_multiply_divide_le;
use vstd::arithmetic::mul::lemma_mul_inequality;
use vstd::arithmetic::mul::lemma_mul_is_associative;
use vstd::arithmetic::mul::lemma_mul_upper_bound;
use vstd::arithmetic::power2::lemma2_to64;
use vstd::arithmetic::power2::lemma_pow2_adds;
use vstd::arithmetic::power2::lemma_pow2_unfold;
use vstd::arithmetic::power2::pow2;

verus! {

/// No micro-unit logarithm of a `u128` exceeds this: at most 128 whole
/// multiples of `ln 2` plus the fraction part's bound.
pub const LN_MICRO_MAX: u64 = 90_109_110;

/// Halves `y` down into the interval `[1e6, 2e6)`, counting one `ln 2`
/// per halving: the pair of the final mantissa and the accumulated whole
/// part of the logarithm.
pub open spec fn ln_whole(y: int) -> (int, int)
    decreases y,
{
    if y < 2_000_000 {
        (y, 0)
    } else {
        let p = ln_whole(y / 2);
        (p.0, p.1 + 693_147)
    }
}

/// Twenty binary fraction digits of the logarithm of a mantissa in
/// `[1e6, 2e6)`: square, and where the square leaves the interval, halve
/// and collect the current digit weight.
pub open spec fn ln_frac(y: int, add: int, steps: nat) -> int
    decreases steps,
{
    if steps == 0 {
        0
    } else {
        let a = add / 2;
        let y2 = (y * y) / 1_000_000;
        if y2 >= 2_000_000 {
            a + ln_frac(y2 / 2, a, (steps - 1) as nat)
        } else {
            ln_frac(y2, a, (steps - 1) as nat)
        }
    }
}

/// The natural logarithm of `x` micro-units, in micro-units.
pub open spec fn ln_micro_spec(x: int) -> int {
    ln_whole(x).1 + ln_frac(ln_whole(x).0, 693_147, 20)
}

pub proof fn lemma_ln_whole_basics(y: int)
    requires
        y >= 1_000_000,
    ensures
        1_000_000 <= ln_whole(y).0 < 2_000_000,
        0 <= ln_whole(y).1 <= y,
    decreases y,
{
    if y < 2_000_000 {
    } else {
        lemma_ln_whole_basics(y / 2);
    }
}

proof fn lemma_ln_whole_halvings(y: int, d: nat)
    requires
        0 <= y < 2_000_000 * pow2(d),
    ensures
        ln_whole(y).1 <= 693_147 * d,
    decreases d,
{
    if y < 2_000_000 {
    } else {
        if d == 0 {
            assert(pow2(0) == 1) by {
                lemma2_to64();
            }
            assert(false);
        }
        lemma_pow2_unfold(d);
        let g = pow2((d - 1) as nat) as int;
        assert(y < 2_000_000 * (2 * g));
        assert(y / 2 < 2_000_000 * g);
        lemma_ln_whole_halvings(y / 2, (d - 1) as nat);
    }
}

proof fn lemma_ln_frac_bound(y: int, add: int, steps: nat)
    requires
        add >= 0,
    ensures
        0 <= ln_frac(y, add, steps) <= 2 * add,
    decreases steps,
{
    if steps == 0 {
    } else {
        let a = add / 2;
        let y2 = (y * y) / 1_000_000;
        lemma_ln_frac_bound(y2 / 2, a, (steps - 1) as nat);
        lemma_ln_frac_bound(y2, a, (steps - 1) as nat);
    }
}

/// The whole part of the logarithm of any `u128` stays under its
/// 128-halving budget.
pub proof fn lemma_ln_micro_spec_bound(x: int)
    requires
        1_000_000 <= x < 0x100000000000000000000000000000000,
    ensures
        0 <= ln_micro_spec(x) <= 90_109_110,
{
    lemma_ln_whole_basics(x);
    assert(pow2(64) == 0x10000000000000000) by {
        lemma2_to64();
    }
    lemma_pow2_adds(64, 64);
    assert(pow2(128) == 0x100000000000000000000000000000000);
    assert(x < 2_000_000 * pow2(128));
    lemma_ln_whole_halvings(x, 128);
    lemma_ln_frac_bound(ln_whole(x).0, 693_147, 20);
}

/// The natural logarithm of `x` micro-units, in micro-units.
pub fn ln_micro(x: u128) -> (r: u64)
    requires
        x >= 1_000_000,
    ensures
        r == ln_micro_spec(x as int),
        r <= LN_MICRO_MAX,
{
    proof {
        assert(pow2(64) == 0x10000000000000000) by {
            lemma2_to64();
        }
        lemma_pow2_adds(64, 64);
        assert((x as int) < 2_000_000 * pow2(128));
        lemma_ln_whole_halvings(x as int, 128);
        lemma_ln_whole_basics(x as int);
        lemma_ln_frac_bound(ln_whole(x as int).0, 693_147, 20);
    }
    let mut y: u128 = x;
    let mut whole: u64 = 0;
    while y >= 2_000_000
        invariant
            1_000_000 <= y <= x,
            ln_whole(x as int).0 == ln_whole(y as int).0,
            ln_whole(x as int).1 == whole + ln_whole(y as int).1,
            ln_whole(x as int).1 <= 88_722_816,
            whole <= 88_722_816,
        decreases y,
    {
        proof {
            lemma_ln_whole_basics(y as int / 2);
            assert(ln_whole(y as int).1 == ln_whole(y as int / 2).1 + 693_147);
        }
        y = y / 2;
        whole = whole + 693_147;
    }
    proof {
        assert(ln_whole(y as int).0 == y as int && ln_whole(y as int).1 == 0);
    }
    let mut z: u64 = y as u64;
    let mut add: u64 = 693_147;
    let mut acc: u64 = 0;
    let mut step: usize = 0;
    let ghost mantissa = ln_whole(x as int).0;
    while step < 20
        invariant
            step <= 20,
            1_000_000 <= z < 2_000_000,
            add <= 693_147,
            acc + 2 * add <= 1_386_294,
            ln_frac(mantissa, 693_147, 20) == acc + ln_frac(
                z as int,
                add as int,
                (20 - step) as nat,
            ),
        decreases 20 - step,
    {
        let a = add / 2;
        proof {
            assert((z as int) * (z as int) < 4_000_000_000_000) by (nonlinear_arith)
                requires
                    z < 2_000_000,
            ;
            assert((z as int) * (z as int) >= 1_000_000_000_000) by (nonlinear_arith)
                requires
                    z >= 1_000_000,
            ;
            lemma_div_is_ordered(
                1_000_000_000_000,
                (z as int) * (z as int),
                1_000_000,
            );
            lemma_div_by_multiple(1_000_000, 1_000_000);
            lemma_div_is_ordered((z as int) * (z as int), 4_000_000_000_000, 1_000_000);
            lemma_div_by_multiple(4_000_000, 1_000_000);
        }
        let zz = z * z;
        let z2 = zz / 1_000_000;
        if z2 >= 2_000_000 {
            acc = acc + a;
            z = z2 / 2;
        } else {
            z = z2;
        }
        add = a;
        step += 1;
    }
    proof {
        assert(ln_frac(z as int, add as int, 0) == 0);
        assert(acc == ln_frac(mantissa, 693_147, 20));
    }
    whole + acc
}

/// The length ratio `dl / avg` in micro-units, with `avg` the average
/// document length `total / n`: the quotient and scaled remainder of
/// `dl * n` by `total`.
pub open spec fn ratio_micro(dl: int, n: int, total: int) -> int {
    ((dl * n) / total) * 1_000_000 + (((dl * n) % total) * 1_000_000) / total
}

/// `k * (1 - b + b * dl / avg)` in micro-units, with `k` and `b` given in
/// thousandths.
pub open spec fn length_norm_micro(km: int, bm: int, dl: int, n: int, total: int) -> int {
    km * (1000 - bm) + (km * ((bm * ratio_micro(dl, n, total)) / 1000)) / 1000
}

/// `tf / (tf + lnorm)` in micro-units, with `lnorm` in micro-units.
pub open spec fn tf_component_micro(tf: int, lnorm: int) -> int {
    (tf * 1_000_000_000_000) / (tf * 1_000_000 + lnorm)
}

/// `ln((n - df + 1/2) / (df + 1/2) + 1)` in micro-units; the argument
/// simplifies to `2 * (n + 1) / (2 * df + 1)`.
pub open spec fn idf_micro(n: int, df: int) -> int {
    ln_micro_spec((2 * (n + 1) * 1_000_000) / (2 * df + 1))
}

/// The BM25 contribution of one query term: zero when the term is absent
/// from the document or from the corpus, else the product of the
/// term-frequency component and the idf, in micro-units.
pub open spec fn term_score_micro_spec(
    tf: int,
    dl: int,
    df: int,
    n: int,
    total: int,
    km: int,
    bm: int,
) -> int {
    if df <= 0 || tf <= 0 {
        0
    } else {
        (tf_component_micro(tf, length_norm_micro(km, bm, dl, n, total)) * idf_micro(n, df))
            / 1_000_000
    }
}

/// Computes one term's BM25 contribution in micro-units.
#[verifier::rlimit(30)]
pub fn term_score(tf: u64, dl: u64, df: usize, n: usize, total: u64, km: u32, bm: u32) -> (s: u64)
    requires
        bm <= 1000,
        df <= n,
        tf <= dl,
        dl <= total,
    ensures
        s == term_score_micro_spec(
            tf as int,
            dl as int,
            df as int,
            n as int,
            total as int,
            km as int,
            bm as int,
        ),
        s <= LN_MICRO_MAX,
{
    if df == 0 || tf == 0 {
        return 0;
    }
    proof {
        lemma_mul_upper_bound(dl as int, 0xffffffffffffffff, n as int, 0xffffffffffffffff);
        lemma_mul_inequality(dl as int, total as int, n as int);
    }
    let q: u128 = (dl as u128) * (n as u128);
    proof {
        lemma_multiply_divide_le(q as int, total as int, n as int);
    }
    let qd: u128 = q / (total as u128);
    let qm: u128 = q % (total as u128);
    proof {
        lemma_mul_inequality(qd as int, n as int, 1_000_000);
        lemma_mul_inequality(n as int, 0xffffffffffffffff, 1_000_000);
        lemma_mul_inequality(qm as int, total as int, 1_000_000);
        lemma_mul_inequality(total as int, 0xffffffffffffffff, 1_000_000);
        lemma_multiply_divide_le((qm as int) * 1_000_000, total as int, 1_000_000);
    }
    let r1: u128 = qd * 1_000_000;
    let r2: u128 = (qm * 1_000_000) / (total as u128);
    let ratio: u128 = r1 + r2;
    proof {
        assert(ratio as int <= (n as int) * 1_000_000 + 1_000_000);
        lemma_mul_upper_bound(bm as int, 1000, ratio as int, (n as int) * 1_000_000 + 1_000_000);
    }
    let t1: u128 = (bm as u128) * ratio;
    let t2: u128 = t1 / 1000;
    proof {
        lemma_div_is_ordered(t1 as int, 1000 * ((n as int) * 1_000_000 + 1_000_000), 1000);
        lemma_div_multiples_vanish((n as int) * 1_000_000 + 1_000_000, 1000);
        assert(t2 as int <= (n as int) * 1_000_000 + 1_000_000);
        lemma_mul_inequality(n as int, 0xffffffffffffffff, 1_000_000);
        assert(t2 as int <= 18446744073709551616000000);
        lemma_mul_upper_bound(km as int, 0xffffffff, t2 as int, 18446744073709551616000000);
    }
    let t3: u128 = (km as u128) * t2;
    proof {
        lemma_mul_upper_bound(km as int, 0xffffffff, (1000 - bm) as int, 1000);
        lemma_mul_inequality(tf as int, 0xffffffffffffffff, 1_000_000);
        lemma_mul_inequality(tf as int, 0xffffffffffffffff, 1_000_000_000_000);
        lemma_mul_inequality(1, tf as int, 1_000_000);
    }
    let lnorm: u128 = (km as u128) * ((1000 - bm) as u128) + t3 / 1000;
    let numer: u128 = (tf as u128) * 1_000_000_000_000;
    let denom: u128 = (tf as u128) * 1_000_000 + lnorm;
    let tfc: u128 = numer / denom;
    proof {
        lemma_mul_inequality((tf as int) * 1_000_000, denom as int, 1_000_000);
        lemma_mul_is_associative(tf as int, 1_000_000, 1_000_000);
        assert((denom as int) * 1_000_000 >= (tf as int) * 1_000_000_000_000);
        lemma_multiply_divide_le(numer as int, denom as int, 1_000_000);
        assert(tfc as int <= 1_000_000);
    }
    let arg_n: u128 = 2 * ((n as u128) + 1) * 1_000_000;
    let arg_d: u128 = 2 * (df as u128) + 1;
    proof {
        lemma_mul_inequality(2 * ((n as int) + 1), 0x20000000000000000, 1_000_000);
        lemma_mul_inequality(arg_d as int, 2 * ((n as int) + 1), 1_000_000);
        assert((arg_d as int) * 1_000_000 <= arg_n as int);
        lemma_div_is_ordered((arg_d as int) * 1_000_000, arg_n as int, arg_d as int);
        lemma_div_multiples_vanish(1_000_000, arg_d as int);
        assert(((arg_d as int) * 1_000_000) / (arg_d as int) == 1_000_000);
    }
    let arg: u128 = arg_n / arg_d;
    let idf: u64 = ln_micro(arg);
    proof {
        lemma_mul_inequality(tfc as int, 1_000_000, idf as int);
        lemma_mul_upper_bound(tfc as int, 1_000_000, idf as int, 90_109_110);
    }
    let prod: u128 = tfc * (idf as u128);
    proof {
        lemma_multiply_divide_le(prod as int, 1_000_000, idf as int);
    }
    let s128: u128 = prod / 1_000_000;
    s128 as u64
}

} // verus!
