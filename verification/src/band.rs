//! Streaming scan of the 3-smooth numbers `2^a · 3^b` inside a band
//! `[q_lo, q_hi]`, counting them and listing the exact powers of 48.

use vstd::prelude::*;
use vstd::arithmetic::div_mod::*;
use crate::smooth::{
    ceil_log2, floor_log2, lemma_power_48, lemma_power_adds, lemma_power_monotone,
    lemma_power_positive, lemma_power_three_dominates, lemma_power_two_128, lemma_split_unique,
    pow_u128, power, saturate, saturating_mul_u128, val_48,
};

verus! {

/// `lo <= 2^a · 3^b <= hi`.
pub open spec fn in_band(lo: nat, hi: nat, a: nat, b: nat) -> bool {
    lo <= power(2, a) * power(3, b) <= hi
}

/// Number of exponents `a < n` with `2^a · 3^b` in the band.
pub open spec fn row_count(lo: nat, hi: nat, b: nat, n: nat) -> nat
    decreases n,
{
    if n == 0 {
        0
    } else {
        row_count(lo, hi, b, (n - 1) as nat) + if in_band(lo, hi, (n - 1) as nat, b) {
            1nat
        } else {
            0nat
        }
    }
}

/// Number of exponent pairs `(a, b)` with `a < 128`, `b < m` and
/// `2^a · 3^b` in the band.
pub open spec fn band_count(lo: nat, hi: nat, m: nat) -> nat
    decreases m,
{
    if m == 0 {
        0
    } else {
        band_count(lo, hi, (m - 1) as nat) + row_count(lo, hi, (m - 1) as nat, 128)
    }
}

/// `[(k, 48^k)]` when `k >= 1` and `48^k` lies in the band, else empty.
pub open spec fn exact_row(lo: nat, hi: nat, k: nat) -> Seq<(u32, u128)> {
    if k >= 1 && lo <= power(48, k) <= hi {
        seq![(k as u32, power(48, k) as u128)]
    } else {
        seq![]
    }
}

/// The exact powers `48^k`, `1 <= k < n`, that lie in the band, by
/// increasing `k`.
pub open spec fn exact_upto(lo: nat, hi: nat, n: nat) -> Seq<(u32, u128)>
    decreases n,
{
    if n == 0 {
        seq![]
    } else {
        exact_upto(lo, hi, (n - 1) as nat) + exact_row(lo, hi, (n - 1) as nat)
    }
}

/// The scan of `[q_lo, q_hi]` adds `q_lo` to each power of three (clamped
/// at `u128::MAX`) up to `q_hi` without overflowing.
pub open spec fn scan_fits(q_lo: u128, q_hi: u128) -> bool {
    forall|b: nat|
        b <= 90 && #[trigger] saturate(power(3, b)) <= q_hi ==> q_lo + saturate(power(3, b))
            <= u128::MAX
}

proof fn lemma_row_count_le(lo: nat, hi: nat, b: nat, n: nat)
    ensures
        row_count(lo, hi, b, n) <= n,
    decreases n,
{
    if n > 0 {
        lemma_row_count_le(lo, hi, b, (n - 1) as nat);
    }
}

proof fn lemma_band_count_le(lo: nat, hi: nat, m: nat)
    ensures
        band_count(lo, hi, m) <= 128 * m,
    decreases m,
{
    if m > 0 {
        lemma_band_count_le(lo, hi, (m - 1) as nat);
        lemma_row_count_le(lo, hi, (m - 1) as nat, 128);
    }
}

/// A row keeps its count across exponents that fall outside the band.
proof fn lemma_row_count_stable(lo: nat, hi: nat, b: nat, m: nat, n: nat)
    requires
        m <= n,
        forall|a: nat| m <= a < n ==> !#[trigger] in_band(lo, hi, a, b),
    ensures
        row_count(lo, hi, b, n) == row_count(lo, hi, b, m),
    decreases n,
{
    if m < n {
        lemma_row_count_stable(lo, hi, b, m, (n - 1) as nat);
        assert(!in_band(lo, hi, (n - 1) as nat, b));
    }
}

proof fn lemma_power_three_le_product(a: nat, b: nat)
    ensures
        power(3, b) <= power(2, a) * power(3, b),
{
    lemma_power_positive(2, a);
    let x = power(2, a);
    let y = power(3, b);
    assert(y <= x * y) by (nonlinear_arith)
        requires
            x >= 1,
    ;
}

/// Rows whose power of three already exceeds the band are empty.
proof fn lemma_rows_empty_beyond(lo: nat, hi: nat, b0: nat, m: nat)
    requires
        b0 <= m,
        power(3, b0) > hi,
    ensures
        band_count(lo, hi, m) == band_count(lo, hi, b0),
        exact_upto(lo, hi, m) == exact_upto(lo, hi, b0),
    decreases m,
{
    if b0 < m {
        let b = (m - 1) as nat;
        lemma_rows_empty_beyond(lo, hi, b0, b);
        lemma_power_monotone(3, b0, b);
        assert forall|a: nat| 0 <= a < 128 implies !#[trigger] in_band(lo, hi, a, b) by {
            lemma_power_three_le_product(a, b);
        }
        lemma_row_count_stable(lo, hi, b, 0, 128);
        lemma_power_48(b);
        lemma_power_three_le_product(4 * b, b);
        assert(exact_row(lo, hi, b) =~= seq![]);
        assert(exact_upto(lo, hi, m) =~= exact_upto(lo, hi, b));
    }
}

/// Within a row, the exponents in the band form the interval
/// `[a_lo, a_hi]` computed from the ceiling and floor quotients.
proof fn lemma_row_interval(
    lo: nat,
    hi: nat,
    b: nat,
    p3: nat,
    lo_div: nat,
    hi_div: nat,
    a_lo: nat,
    a_hi: nat,
    a: nat,
)
    requires
        p3 == power(3, b),
        p3 >= 1,
        lo >= 1,
        lo_div == (lo + p3 - 1) as nat / p3,
        hi_div == hi / p3,
        lo_div <= 1 ==> a_lo == 0,
        lo_div > 1 ==> a_lo > 0 && power(2, (a_lo - 1) as nat) < lo_div <= power(2, a_lo),
        hi_div >= 1 ==> power(2, a_hi) <= hi_div < power(2, a_hi + 1),
        hi_div >= 1,
    ensures
        in_band(lo, hi, a, b) <==> (a_lo <= a && a <= a_hi),
{
    let x = power(2, a);
    lemma_power_positive(2, a);
    lemma_fundamental_div_mod((lo + p3 - 1) as int, p3 as int);
    lemma_mod_bound((lo + p3 - 1) as int, p3 as int);
    lemma_fundamental_div_mod(hi as int, p3 as int);
    lemma_mod_bound(hi as int, p3 as int);
    // lo_div * p3 lies in [lo, lo + p3 - 1]
    assert(lo_div * p3 >= lo && lo_div * p3 <= lo + p3 - 1) by (nonlinear_arith)
        requires
            (lo + p3 - 1) == p3 * lo_div + ((lo + p3 - 1) as int) % (p3 as int),
            0 <= ((lo + p3 - 1) as int) % (p3 as int) < p3,
    ;
    // hi_div * p3 lies in (hi - p3, hi]
    assert(hi_div * p3 <= hi && hi < (hi_div + 1) * p3) by (nonlinear_arith)
        requires
            hi == p3 * hi_div + (hi as int) % (p3 as int),
            0 <= (hi as int) % (p3 as int) < p3,
    ;
    if a >= a_lo {
        if lo_div > 1 {
            lemma_power_monotone(2, a_lo, a);
        }
        assert(x >= lo_div);
        assert(x * p3 >= lo) by (nonlinear_arith)
            requires
                x >= lo_div,
                lo_div * p3 >= lo,
                p3 >= 1,
        ;
    } else {
        lemma_power_monotone(2, a, (a_lo - 1) as nat);
        assert(x * p3 < lo) by (nonlinear_arith)
            requires
                x + 1 <= lo_div,
                lo_div * p3 <= lo + p3 - 1,
                p3 >= 1,
        ;
    }
    if a <= a_hi {
        lemma_power_monotone(2, a, a_hi);
        assert(x * p3 <= hi) by (nonlinear_arith)
            requires
                x <= hi_div,
                hi_div * p3 <= hi,
                p3 >= 1,
        ;
    } else {
        lemma_power_monotone(2, a_hi + 1, a);
        assert(x * p3 > hi) by (nonlinear_arith)
            requires
                x >= hi_div + 1,
                hi < (hi_div + 1) * p3,
                p3 >= 1,
        ;
    }
}

/// `48^k == 48^j · rest` with `rest` prime to 48 forces `j == k` and
/// `rest == 1`.
proof fn lemma_power_48_valuation(k: nat, j: nat, rest: nat)
    requires
        power(48, k) == power(48, j) * rest,
        rest % 48 != 0,
    ensures
        j == k,
        rest == 1,
{
    lemma_power_positive(48, j);
    lemma_power_positive(48, k);
    if j < k {
        let d = (k - j) as nat;
        lemma_power_adds(48, j, d);
        assert(j + d == k);
        let pj = power(48, j);
        let pd = power(48, d);
        assert(rest == pd) by (nonlinear_arith)
            requires
                pj * pd == pj * rest,
                pj >= 1,
        ;
        let pd1 = power(48, (d - 1) as nat);
        assert(pd == pd1 * 48);
        lemma_mod_multiples_basic(pd1 as int, 48);
    } else if j > k {
        let d = (j - k) as nat;
        lemma_power_adds(48, k, d);
        assert(k + d == j);
        lemma_power_monotone(48, 1, d);
        assert(power(48, 1) == 48) by {
            assert(power(48, 0) == 1);
        }
        let pk = power(48, k);
        let pd = power(48, d);
        assert(pk < pk * pd * rest) by (nonlinear_arith)
            requires
                pk >= 1,
                pd >= 48,
                rest >= 1 || rest == 0,
                rest != 0,
        ;
    } else {
        let pk = power(48, k);
        assert(rest == 1) by (nonlinear_arith)
            requires
                pk == pk * rest,
                pk >= 1,
        ;
    }
}

/// In a row, `val_48` reports an exact power of 48 (with positive
/// exponent) exactly at `a == 4b` for `b >= 1`.
proof fn lemma_exact_at(a: nat, b: nat, k: nat, rest: nat)
    requires
        power(2, a) * power(3, b) == power(48, k) * rest,
        rest % 48 != 0,
    ensures
        (rest == 1 && k > 0) <==> (a == 4 * b && b >= 1),
        (rest == 1 && k > 0) ==> k == b,
{
    let q = power(2, a) * power(3, b);
    lemma_power_48(k);
    lemma_power_48(b);
    if rest == 1 && k > 0 {
        assert(q == power(2, 4 * k) * power(3, k) * 1);
        assert(q == power(2, a) * power(3, b) * 1);
        lemma_split_unique(q, a, b, 1, 4 * k, k, 1);
    }
    if a == 4 * b && b >= 1 {
        lemma_power_48_valuation(b, k, rest);
    }
}

/// Counts the 3-smooth numbers `2^a · 3^b` in `[q_lo, q_hi]` and lists the
/// exact powers `48^k` (`k >= 1`) among them, by increasing `k`.
pub fn scan_band_core(q_lo: u128, q_hi: u128) -> (res: (u64, Vec<(u32, u128)>))
    requires
        q_lo == 0 || scan_fits(q_lo, q_hi),
    ensures
        q_lo == 0 ==> res.0 == 0 && res.1@ == Seq::<(u32, u128)>::empty(),
        q_lo >= 1 ==> res.0 == band_count(q_lo as nat, q_hi as nat, 91),
        q_lo >= 1 ==> res.1@ == exact_upto(q_lo as nat, q_hi as nat, 91),
{
    let mut total_smooth: u64 = 0;
    let mut exact_powers: Vec<(u32, u128)> = Vec::new();
    if q_lo < 1 {
        return (total_smooth, exact_powers);
    }
    let ghost lo = q_lo as nat;
    let ghost hi = q_hi as nat;
    let mut b: u32 = 0;
    while b <= 90
        invariant
            q_lo >= 1,
            lo == q_lo,
            hi == q_hi,
            scan_fits(q_lo, q_hi),
            b <= 91,
            total_smooth == band_count(lo, hi, b as nat),
            exact_powers@ == exact_upto(lo, hi, b as nat),
        ensures
            total_smooth == band_count(lo, hi, 91),
            exact_powers@ == exact_upto(lo, hi, 91),
        decreases 91 - b,
    {
        let p3 = pow_u128(3, b);
        proof {
            lemma_band_count_le(lo, hi, b as nat);
            lemma_power_positive(3, b as nat);
        }
        if p3 == 0 || p3 > q_hi {
            proof {
                lemma_rows_empty_beyond(lo, hi, b as nat, 91);
            }
            break;
        }
        proof {
            assert(saturate(power(3, b as nat)) <= q_hi);
            assert(q_lo + saturate(power(3, b as nat)) <= u128::MAX);
            assert(p3 == power(3, b as nat));
        }
        let lo_div = (q_lo + p3 - 1) / p3;
        let hi_div = q_hi / p3;
        proof {
            lemma_div_is_ordered(p3 as int, q_hi as int, p3 as int);
            lemma_div_by_self(p3 as int);
        }
        if hi_div == 0 {
            b = b + 1;
            continue;
        }
        let a_lo = ceil_log2(lo_div);
        let a_hi = floor_log2(hi_div);
        proof {
            assert forall|x: nat| #[trigger]
                in_band(lo, hi, x, b as nat) <==> (a_lo <= x && x <= a_hi) by {
                lemma_row_interval(
                    lo,
                    hi,
                    b as nat,
                    p3 as nat,
                    lo_div as nat,
                    hi_div as nat,
                    a_lo as nat,
                    a_hi as nat,
                    x,
                );
            }
            lemma_power_48(b as nat);
        }
        if a_lo > a_hi {
            proof {
                lemma_row_count_stable(lo, hi, b as nat, 0, 128);
                assert(!in_band(lo, hi, (4 * b) as nat, b as nat));
                assert(exact_row(lo, hi, b as nat) =~= seq![]);
                assert(exact_upto(lo, hi, (b + 1) as nat) =~= exact_upto(lo, hi, b as nat));
            }
            b = b + 1;
            continue;
        }
        let mut a: u32 = a_lo;
        proof {
            lemma_row_count_stable(lo, hi, b as nat, 0, a_lo as nat);
            if b >= 1 && 4 * b < a_lo {
                assert(!in_band(lo, hi, (4 * b) as nat, b as nat));
                assert(exact_row(lo, hi, b as nat) =~= seq![]);
            }
            assert(exact_upto(lo, hi, b as nat) + seq![] =~= exact_upto(lo, hi, b as nat));
        }
        while a <= a_hi
            invariant
                q_lo >= 1,
                lo == q_lo,
                hi == q_hi,
                b <= 90,
                a_lo <= a <= a_hi + 1,
                a_hi < 128,
                a_lo <= a_hi,
                p3 as nat == power(3, b as nat),
                forall|x: nat| #[trigger]
                    in_band(lo, hi, x, b as nat) <==> (a_lo <= x && x <= a_hi),
                power(48, b as nat) == power(2, (4 * b) as nat) * power(3, b as nat),
                band_count(lo, hi, b as nat) <= 128 * b,
                total_smooth == band_count(lo, hi, b as nat) + row_count(
                    lo,
                    hi,
                    b as nat,
                    a as nat,
                ),
                exact_powers@ == exact_upto(lo, hi, b as nat) + if 4 * b < a {
                    exact_row(lo, hi, b as nat)
                } else {
                    seq![]
                },
            decreases a_hi + 1 - a,
        {
            let p2 = pow_u128(2, a);
            let q = saturating_mul_u128(p2, p3);
            proof {
                lemma_row_count_le(lo, hi, b as nat, a as nat);
                assert(in_band(lo, hi, a as nat, b as nat));
                lemma_power_positive(3, b as nat);
                let pa = power(2, a as nat);
                assert(pa <= pa * power(3, b as nat)) by (nonlinear_arith)
                    requires
                        power(3, b as nat) >= 1,
                ;
                assert(p2 == power(2, a as nat));
                assert(q == power(2, a as nat) * power(3, b as nat));
            }
            if q < q_lo || q > q_hi {
                a = a + 1;
                continue;
            }
            total_smooth = total_smooth + 1;
            let (k, rest) = val_48(q);
            proof {
                lemma_exact_at(a as nat, b as nat, k as nat, rest as nat);
                if a == 4 * b && b >= 1 {
                    assert(exact_row(lo, hi, b as nat) == seq![(b as u32, power(48, b as nat) as u128)]);
                }
            }
            if rest == 1 && k > 0 {
                exact_powers.push((k, q));
            }
            a = a + 1;
            proof {
                if 4 * b + 1 == a {
                    if b >= 1 {
                        assert(exact_powers@ =~= exact_upto(lo, hi, b as nat) + exact_row(lo, hi, b as nat));
                    } else {
                        assert(exact_row(lo, hi, 0) =~= seq![]);
                        assert(exact_powers@ =~= exact_upto(lo, hi, b as nat) + exact_row(lo, hi, b as nat));
                    }
                }
            }
        }
        proof {
            lemma_row_count_stable(lo, hi, b as nat, (a_hi + 1) as nat, 128);
            if 4 * b > a_hi {
                if b >= 1 {
                    assert(!in_band(lo, hi, (4 * b) as nat, b as nat));
                }
                assert(exact_row(lo, hi, b as nat) =~= seq![]);
            }
            assert(exact_upto(lo, hi, (b + 1) as nat) == exact_upto(lo, hi, b as nat) + exact_row(lo, hi, b as nat));
            assert(exact_powers@ =~= exact_upto(lo, hi, (b + 1) as nat));
        }
        b = b + 1;
    }
    (total_smooth, exact_powers)
}

} // verus!
