//! Integer side of the ultralight-axion search: the factorization label and
//! topological charge of a denominator `q`, and the scan of the 3-smooth
//! states `q = 2^a · 3^b` around a target band.

use vstd::prelude::*;
use vstd::string::*;
use crate::smooth::{
    factorize_smooth, floor_log2, is_3_smooth, is_smooth, is_split, lemma_power_adds,
    lemma_power_monotone, lemma_power_positive, lemma_power_two_fits, lemma_split_unique, pow_u128,
    power, saturate, saturating_mul_u128,
};
use crate::text::{decimal, push_decimal};

verus! {

/// Label of a split `2^a · 3^b · rest`: `"2^a · 3^b"`, `"2^a"`, `"3^b"` or
/// `"1"` for a 3-smooth number, else `"2^a · 3^b · rest"`.
pub open spec fn factorization_label(a: nat, b: nat, rest: nat) -> Seq<char> {
    let two = seq!['2', '^'];
    let three = seq!['3', '^'];
    let dot = seq![' ', '·', ' '];
    if rest == 1 {
        if a > 0 && b > 0 {
            two + decimal(a) + dot + three + decimal(b)
        } else if a > 0 {
            two + decimal(a)
        } else if b > 0 {
            three + decimal(b)
        } else {
            seq!['1']
        }
    } else {
        two + decimal(a) + dot + three + decimal(b) + dot + decimal(rest)
    }
}

/// Factorization label of a positive `q`.
pub fn format_factorization(q: u128) -> (s: String)
    requires
        q > 0,
    ensures
        exists|a: nat, b: nat, rest: nat|
            is_split(q as nat, a, b, rest) && s@ == factorization_label(a, b, rest),
{
    let (a, b, remainder) = factorize_smooth(q);
    proof {
        reveal_strlit("2^");
        reveal_strlit("3^");
        reveal_strlit(" · ");
        reveal_strlit("1");
    }
    let mut s = String::new();
    if remainder == 1 {
        if a > 0 && b > 0 {
            s.append("2^");
            push_decimal(&mut s, a as u128);
            s.append(" · ");
            s.append("3^");
            push_decimal(&mut s, b as u128);
        } else if a > 0 {
            s.append("2^");
            push_decimal(&mut s, a as u128);
        } else if b > 0 {
            s.append("3^");
            push_decimal(&mut s, b as u128);
        } else {
            s.append("1");
        }
    } else {
        s.append("2^");
        push_decimal(&mut s, a as u128);
        s.append(" · ");
        s.append("3^");
        push_decimal(&mut s, b as u128);
        s.append(" · ");
        push_decimal(&mut s, remainder);
    }
    assert(s@ =~= factorization_label(a as nat, b as nat, remainder as nat));
    s
}

/// Topological charge of a state `p/q`: 2 for a 3-smooth `q`, otherwise
/// `(rest mod 7) + 1` for the rest of the split of `q`.
pub fn compute_charge(_p: u128, q: u128) -> (c: i32)
    requires
        q > 0,
    ensures
        exists|a: nat, b: nat, rest: nat|
            is_split(q as nat, a, b, rest) && c == if rest == 1 {
                2
            } else {
                (rest % 7) as i32 + 1
            },
{
    let (_, _, remainder) = factorize_smooth(q);
    if remainder == 1 {
        2
    } else {
        (remainder % 7) as i32 + 1
    }
}

/// `floor(log2(n))`, and 0 for `n == 0`.
pub open spec fn log2_floor(n: nat) -> nat
    decreases n,
{
    if n <= 1 {
        0
    } else {
        1 + log2_floor(n / 2)
    }
}

proof fn lemma_log2_floor_unique(n: nat, r: nat)
    requires
        power(2, r) <= n < power(2, r + 1),
    ensures
        log2_floor(n) == r,
    decreases r,
{
    if r == 0 {
        assert(power(2, 1) == 2) by {
            assert(power(2, 0) == 1);
        }
    } else {
        let r1 = (r - 1) as nat;
        assert(power(2, r) == power(2, r1) * 2);
        assert(power(2, r + 1) == power(2, r) * 2);
        lemma_power_positive(2, r1);
        let p = power(2, r1);
        assert(n >= 2);
        assert(p <= n / 2 < p * 2) by (nonlinear_arith)
            requires
                p * 2 <= n,
                n < p * 2 * 2,
        ;
        lemma_log2_floor_unique(n / 2, r1);
    }
}

/// The state `q = 2^a · 3^b` as the scan computes it, clamped to `u128`.
pub open spec fn ula_state(a: nat, b: nat) -> u128 {
    saturate(saturate(power(2, a)) as nat * saturate(power(3, b)) as nat)
}

/// First exponent of 2 tried for the exponent `b` of 3: one below
/// `floor(log2(q_lo / 3^b))`, and not below 0 (`3^b` clamped to `u128`).
pub open spec fn ula_a_first(q_lo: nat, b: nat) -> nat {
    let a0 = log2_floor(q_lo / (saturate(power(3, b)) as nat));
    if a0 >= 1 {
        (a0 - 1) as nat
    } else {
        0
    }
}

/// Last exponent of 2 tried for the exponent `b` of 3: two above
/// `floor(log2(q_lo / 3^b))`.
pub open spec fn ula_a_last(q_lo: nat, b: nat) -> nat {
    log2_floor(q_lo / (saturate(power(3, b)) as nat)) + 2
}

/// The 3-smooth states in `[q_lo, q_hi]` among `2^a · 3^b` for
/// `a` in `first..=last`, in increasing `a`.
pub open spec fn ula_row(q_lo: nat, q_hi: nat, b: nat, first: nat, last: nat) -> Seq<(u128, u32, u32)>
    decreases last + 1 - first,
{
    if first > last {
        seq![]
    } else {
        let q = ula_state(first, b);
        let rest = ula_row(q_lo, q_hi, b, first + 1, last);
        if q_lo <= q <= q_hi && is_smooth(q as nat) {
            seq![(q, first as u32, b as u32)] + rest
        } else {
            rest
        }
    }
}

/// The exponents of 3 the scan visits: `0..count`, where `count` is the
/// first `b <= 64` with `3^b > q_hi`, or 65.
pub open spec fn ula_b_count(q_hi: nat, b: nat) -> nat
    decreases 65 - b,
{
    if b > 64 || saturate(power(3, b)) > q_hi {
        b
    } else {
        ula_b_count(q_hi, b + 1)
    }
}

/// The hits of the rows `b < nb`, in increasing `b`.
pub open spec fn ula_hits(q_lo: nat, q_hi: nat, nb: nat) -> Seq<(u128, u32, u32)>
    decreases nb,
{
    if nb == 0 {
        seq![]
    } else {
        let b = (nb - 1) as nat;
        ula_hits(q_lo, q_hi, b) + ula_row(q_lo, q_hi, b, ula_a_first(q_lo, b), ula_a_last(q_lo, b))
    }
}

/// The number of states tried in the rows `b < nb`.
pub open spec fn ula_tried(q_lo: nat, nb: nat) -> nat
    decreases nb,
{
    if nb == 0 {
        0
    } else {
        let b = (nb - 1) as nat;
        ula_tried(q_lo, b) + (ula_a_last(q_lo, b) + 1 - ula_a_first(q_lo, b)) as nat
    }
}

proof fn lemma_ula_b_count_bounds(q_hi: nat, b: nat)
    requires
        b <= 65,
    ensures
        b <= ula_b_count(q_hi, b) <= 65,
    decreases 65 - b,
{
    if !(b > 64 || saturate(power(3, b)) > q_hi) {
        lemma_ula_b_count_bounds(q_hi, b + 1);
    }
}

proof fn lemma_log2_floor_bounds(n: nat)
    requires
        n >= 1,
    ensures
        power(2, log2_floor(n)) <= n < power(2, log2_floor(n) + 1),
    decreases n,
{
    if n == 1 {
        assert(power(2, 1) == 2) by {
            assert(power(2, 0) == 1);
        }
    } else {
        let h = n / 2;
        lemma_log2_floor_bounds(h);
        let r = log2_floor(h);
        let p = power(2, r);
        assert(power(2, r + 1) == p * 2);
        assert(power(2, r + 2) == p * 2 * 2);
        assert(p * 2 <= n < p * 2 * 2) by (nonlinear_arith)
            requires
                p <= h < p * 2,
                h == n / 2,
        ;
    }
}

proof fn lemma_log2_floor_small(n: nat)
    requires
        n <= u128::MAX,
    ensures
        log2_floor(n) < 128,
{
    if n >= 1 {
        lemma_log2_floor_bounds(n);
        lemma_power_two_fits(log2_floor(n));
    }
}

/// `3^65` is below `u128::MAX`.
proof fn lemma_power_three_65()
    ensures
        power(3, 65) == 10301051460877537453973547267843,
{
    assert(power(3, 1) == 3) by {
        assert(power(3, 0) == 1);
    }
    lemma_power_adds(3, 1, 1);
    lemma_power_adds(3, 2, 2);
    lemma_power_adds(3, 4, 4);
    lemma_power_adds(3, 8, 8);
    lemma_power_adds(3, 16, 16);
    lemma_power_adds(3, 32, 32);
    lemma_power_adds(3, 64, 1);
}

/// Where `2^a · 3^b` lies in a band `[q_lo, q_hi]` with `q_hi < 4 q_lo`, the
/// exponent `a` is among those tried for `b`, and the scan computes the
/// state exactly.
proof fn lemma_ula_window(q_lo: nat, q_hi: nat, a: nat, b: nat)
    requires
        q_lo >= 1,
        q_hi < 4 * q_lo,
        q_hi <= u128::MAX,
        q_lo <= power(2, a) * power(3, b) <= q_hi,
    ensures
        ula_a_first(q_lo, b) <= a <= ula_a_last(q_lo, b),
        ula_state(a, b) == power(2, a) * power(3, b),
{
    let t = power(2, a);
    let p = power(3, b);
    lemma_power_positive(2, a);
    lemma_power_positive(3, b);
    assert(t <= t * p && p <= t * p) by (nonlinear_arith)
        requires
            t >= 1,
            p >= 1,
    ;
    assert(saturate(p) as nat == p);
    assert(saturate(t) as nat == t);
    let n = q_lo / p;
    assert(n * p <= q_lo < (n + 1) * p) by (nonlinear_arith)
        requires
            n == q_lo / p,
            p >= 1,
    ;
    let a0 = log2_floor(n);
    if n >= 1 {
        lemma_log2_floor_bounds(n);
        let e = power(2, a0);
        if a < a0 {
            lemma_power_monotone(2, a + 1, a0);
            assert(power(2, a + 1) == t * 2);
            assert(false) by (nonlinear_arith)
                requires
                    t * 2 <= e,
                    e <= n,
                    n * p <= q_lo,
                    q_lo <= t * p,
                    p >= 1,
                    t >= 1,
            ;
        }
        if a > a0 + 2 {
            lemma_power_monotone(2, a0 + 3, a);
            lemma_power_adds(2, a0 + 1, 2);
            assert(power(2, 2) == 4) by {
                assert(power(2, 1) == 2) by {
                    assert(power(2, 0) == 1);
                }
            }
            let e1 = power(2, a0 + 1);
            assert(false) by (nonlinear_arith)
                requires
                    n + 1 <= e1,
                    q_lo < (n + 1) * p,
                    t * p <= q_hi,
                    q_hi < 4 * q_lo,
                    e1 * 4 <= t,
                    p >= 1,
            ;
        }
    } else {
        assert(a0 == 0);
        assert(q_lo < p) by (nonlinear_arith)
            requires
                q_lo < (n + 1) * p,
                n == 0,
        ;
        if a > 2 {
            lemma_power_monotone(2, 2, a);
            assert(power(2, 2) == 4) by {
                assert(power(2, 1) == 2) by {
                    assert(power(2, 0) == 1);
                }
            }
            assert(false) by (nonlinear_arith)
                requires
                    q_lo < p,
                    t * p <= q_hi,
                    q_hi < 4 * q_lo,
                    4 <= t,
                    p >= 1,
            ;
        }
    }
}

/// A hit of the scan: a 3-smooth state in `[q_lo, q_hi]`, listed with the
/// exponents it was computed from.
pub open spec fn ula_hit_ok(t: (u128, u32, u32), q_lo: nat, q_hi: nat) -> bool {
    &&& q_lo <= t.0 <= q_hi
    &&& is_smooth(t.0 as nat)
    &&& t.0 == ula_state(t.1 as nat, t.2 as nat)
}

/// `t1` comes before `t2` in scan order: a smaller exponent of 3, or the
/// same one and a smaller exponent of 2.
pub open spec fn scan_before(t1: (u128, u32, u32), t2: (u128, u32, u32)) -> bool {
    t1.2 < t2.2 || (t1.2 == t2.2 && t1.1 < t2.1)
}

proof fn lemma_row_facts(q_lo: nat, q_hi: nat, b: nat, first: nat, last: nat)
    requires
        last < 0x1_0000_0000,
        b < 0x1_0000_0000,
    ensures
        forall|k: int|
            0 <= k < ula_row(q_lo, q_hi, b, first, last).len() ==> ula_hit_ok(
                #[trigger] ula_row(q_lo, q_hi, b, first, last)[k],
                q_lo,
                q_hi,
            ) && ula_row(q_lo, q_hi, b, first, last)[k].2 == b && first <= ula_row(q_lo, q_hi, b, first, last)[k].1,
        forall|k1: int, k2: int|
            0 <= k1 < k2 < ula_row(q_lo, q_hi, b, first, last).len() ==> (#[trigger] ula_row(
                q_lo,
                q_hi,
                b,
                first,
                last,
            )[k1]).1 < (#[trigger] ula_row(q_lo, q_hi, b, first, last)[k2]).1,
    decreases last + 1 - first,
{
    if first <= last {
        lemma_row_facts(q_lo, q_hi, b, first + 1, last);
        let row = ula_row(q_lo, q_hi, b, first, last);
        let rest = ula_row(q_lo, q_hi, b, first + 1, last);
        let q = ula_state(first, b);
        if q_lo <= q <= q_hi && is_smooth(q as nat) {
            assert(row == seq![(q, first as u32, b as u32)] + rest);
            assert forall|k: int| 0 < k < row.len() implies #[trigger] row[k] == rest[k - 1] by {}
        }
    }
}

proof fn lemma_row_contains(q_lo: nat, q_hi: nat, b: nat, first: nat, last: nat, a: nat)
    requires
        first <= a <= last,
        q_lo <= ula_state(a, b) <= q_hi,
        is_smooth(ula_state(a, b) as nat),
    ensures
        exists|k: int|
            0 <= k < ula_row(q_lo, q_hi, b, first, last).len() && (#[trigger] ula_row(
                q_lo,
                q_hi,
                b,
                first,
                last,
            )[k]).0 == ula_state(a, b),
    decreases last + 1 - first,
{
    let row = ula_row(q_lo, q_hi, b, first, last);
    let q = ula_state(first, b);
    if a == first {
        assert(row[0].0 == ula_state(a, b));
    } else {
        lemma_row_contains(q_lo, q_hi, b, first + 1, last, a);
        let rest = ula_row(q_lo, q_hi, b, first + 1, last);
        let k = choose|k: int| 0 <= k < rest.len() && (#[trigger] rest[k]).0 == ula_state(a, b);
        if q_lo <= q <= q_hi && is_smooth(q as nat) {
            assert(row[k + 1] == rest[k]);
        } else {
            assert(row[k] == rest[k]);
        }
    }
}

proof fn lemma_a_last_small(q_lo: nat, b: nat)
    requires
        q_lo <= u128::MAX,
    ensures
        ula_a_last(q_lo, b) < 130,
{
    let d = saturate(power(3, b)) as nat;
    lemma_power_positive(3, b);
    assert(d >= 1);
    assert(q_lo / d <= q_lo) by (nonlinear_arith)
        requires
            d >= 1,
    ;
    lemma_log2_floor_small(q_lo / d);
}

proof fn lemma_hits_facts(q_lo: nat, q_hi: nat, nb: nat)
    requires
        q_lo <= u128::MAX,
        nb <= 65,
    ensures
        forall|k: int|
            0 <= k < ula_hits(q_lo, q_hi, nb).len() ==> ula_hit_ok(#[trigger] ula_hits(q_lo, q_hi, nb)[k], q_lo, q_hi)
                && ula_hits(q_lo, q_hi, nb)[k].2 < nb,
        forall|k1: int, k2: int|
            0 <= k1 < k2 < ula_hits(q_lo, q_hi, nb).len() ==> scan_before(
                #[trigger] ula_hits(q_lo, q_hi, nb)[k1],
                #[trigger] ula_hits(q_lo, q_hi, nb)[k2],
            ),
    decreases nb,
{
    if nb > 0 {
        let b = (nb - 1) as nat;
        lemma_hits_facts(q_lo, q_hi, b);
        lemma_a_last_small(q_lo, b);
        let first = ula_a_first(q_lo, b);
        let last = ula_a_last(q_lo, b);
        lemma_row_facts(q_lo, q_hi, b, first, last);
        let prev = ula_hits(q_lo, q_hi, b);
        let row = ula_row(q_lo, q_hi, b, first, last);
        let h = ula_hits(q_lo, q_hi, nb);
        assert(h == prev + row);
        assert forall|k: int| 0 <= k < h.len() implies #[trigger] h[k] == if k < prev.len() {
            prev[k]
        } else {
            row[k - prev.len()]
        } by {}
        assert forall|k1: int, k2: int| 0 <= k1 < k2 < h.len() implies scan_before(#[trigger] h[k1], #[trigger] h[k2]) by {
            if k2 < prev.len() {
                assert(scan_before(prev[k1], prev[k2]));
            } else if k1 < prev.len() {
                assert(prev[k1].2 < b);
            } else {
                assert(row[k1 - prev.len()].1 < row[k2 - prev.len()].1);
            }
        }
    }
}

proof fn lemma_hits_contain(q_lo: nat, q_hi: nat, nb: nat, b: nat, a: nat)
    requires
        b < nb,
        ula_a_first(q_lo, b) <= a <= ula_a_last(q_lo, b),
        q_lo <= ula_state(a, b) <= q_hi,
        is_smooth(ula_state(a, b) as nat),
    ensures
        exists|k: int|
            0 <= k < ula_hits(q_lo, q_hi, nb).len() && (#[trigger] ula_hits(q_lo, q_hi, nb)[k]).0 == ula_state(a, b),
    decreases nb,
{
    let bb = (nb - 1) as nat;
    let prev = ula_hits(q_lo, q_hi, bb);
    let h = ula_hits(q_lo, q_hi, nb);
    let row = ula_row(q_lo, q_hi, bb, ula_a_first(q_lo, bb), ula_a_last(q_lo, bb));
    assert(h == prev + row);
    if b == bb {
        lemma_row_contains(q_lo, q_hi, b, ula_a_first(q_lo, b), ula_a_last(q_lo, b), a);
        let k = choose|k: int| 0 <= k < row.len() && (#[trigger] row[k]).0 == ula_state(a, b);
        assert(h[prev.len() + k] == row[k]);
    } else {
        lemma_hits_contain(q_lo, q_hi, bb, b, a);
        let k = choose|k: int| 0 <= k < prev.len() && (#[trigger] prev[k]).0 == ula_state(a, b);
        assert(h[k] == prev[k]);
    }
}

proof fn lemma_ula_b_count_above(q_hi: nat, s: nat, b: nat)
    requires
        s <= b <= 64,
        power(3, b) <= q_hi,
    ensures
        ula_b_count(q_hi, s) > b,
    decreases b - s,
{
    lemma_power_monotone(3, s, b);
    assert(saturate(power(3, s)) <= q_hi);
    if s < b {
        lemma_ula_b_count_above(q_hi, s + 1, b);
    } else {
        lemma_ula_b_count_bounds(q_hi, b + 1);
    }
}

/// A state below `u128::MAX` is the exact product `2^a · 3^b`.
proof fn lemma_state_exact(a: nat, b: nat)
    requires
        ula_state(a, b) < u128::MAX,
    ensures
        ula_state(a, b) == power(2, a) * power(3, b),
{
    let t = power(2, a);
    let p = power(3, b);
    lemma_power_positive(2, a);
    lemma_power_positive(3, b);
    let st = saturate(t) as nat;
    let sp = saturate(p) as nat;
    assert(st <= st * sp && sp <= st * sp) by (nonlinear_arith)
        requires
            st >= 1,
            sp >= 1,
    ;
}

/// The scan's hits list every 3-smooth number of the band `[q_lo, q_hi]`
/// exactly once, each with exponents `a`, `b` such that it is `2^a · 3^b`.
pub open spec fn ula_complete(hits: Seq<(u128, u32, u32)>, q_lo: nat, q_hi: nat) -> bool {
    &&& forall|k: int|
        0 <= k < hits.len() ==> q_lo <= (#[trigger] hits[k]).0 <= q_hi && hits[k].0 == power(2, hits[k].1 as nat)
            * power(3, hits[k].2 as nat)
    &&& forall|k1: int, k2: int| 0 <= k1 < k2 < hits.len() ==> (#[trigger] hits[k1]).0 != (#[trigger] hits[k2]).0
    &&& forall|q: nat|
        q_lo <= q <= q_hi && #[trigger] is_smooth(q) ==> exists|k: int| 0 <= k < hits.len() && (#[trigger] hits[k]).0 == q
}

/// For a band `[q_lo, q_hi]` narrower than a factor of four and below
/// `3^65`, the ultralight-axion scan finds every 3-smooth state of the band,
/// each once.
pub proof fn lemma_ula_scan_complete(q_lo: u128, q_hi: u128)
    requires
        q_lo >= 1,
        q_hi < 4 * q_lo,
        q_hi < power(3, 65),
    ensures
        ula_complete(ula_hits(q_lo as nat, q_hi as nat, ula_b_count(q_hi as nat, 0)), q_lo as nat, q_hi as nat),
{
    let lo = q_lo as nat;
    let hi = q_hi as nat;
    let nb = ula_b_count(hi, 0);
    lemma_ula_b_count_bounds(hi, 0);
    lemma_power_three_65();
    lemma_hits_facts(lo, hi, nb);
    let h = ula_hits(lo, hi, nb);
    assert forall|k: int| 0 <= k < h.len() implies lo <= (#[trigger] h[k]).0 <= hi && h[k].0 == power(2, h[k].1 as nat)
        * power(3, h[k].2 as nat) by {
        assert(ula_hit_ok(h[k], lo, hi));
        lemma_state_exact(h[k].1 as nat, h[k].2 as nat);
    }
    assert forall|k1: int, k2: int| 0 <= k1 < k2 < h.len() implies (#[trigger] h[k1]).0 != (#[trigger] h[k2]).0 by {
        let t1 = h[k1];
        let t2 = h[k2];
        assert(ula_hit_ok(t1, lo, hi) && ula_hit_ok(t2, lo, hi));
        assert(scan_before(t1, t2));
        lemma_state_exact(t1.1 as nat, t1.2 as nat);
        lemma_state_exact(t2.1 as nat, t2.2 as nat);
        if t1.0 == t2.0 {
            let q = t1.0 as nat;
            assert(is_split(q, t1.1 as nat, t1.2 as nat, 1));
            assert(is_split(q, t2.1 as nat, t2.2 as nat, 1));
            lemma_split_unique(q, t1.1 as nat, t1.2 as nat, 1, t2.1 as nat, t2.2 as nat, 1);
        }
    }
    assert forall|q: nat| lo <= q <= hi && #[trigger] is_smooth(q) implies exists|k: int|
        0 <= k < h.len() && (#[trigger] h[k]).0 == q by {
        let (a, b) = choose|a: nat, b: nat| q == #[trigger] (power(2, a) * power(3, b));
        lemma_ula_window(lo, hi, a, b);
        let t = power(2, a);
        let p = power(3, b);
        lemma_power_positive(2, a);
        assert(p <= t * p) by (nonlinear_arith)
            requires
                t >= 1,
        ;
        if b > 64 {
            lemma_power_monotone(3, 65, b);
        }
        lemma_ula_b_count_above(hi, 0, b);
        lemma_hits_contain(lo, hi, nb, b, a);
    }
}

/// The states `2^a · 3^b` of the ultralight-axion scan between `q_lo` and
/// `q_hi`: for each `b` from 0 while `3^b <= q_hi` (at most 64), the
/// exponents `a` around `log2(q_lo / 3^b)`. Returns the 3-smooth states in
/// the band as `(q, a, b)`, in scan order, and the number of states tried.
/// For a band narrower than a factor of four and below `3^65` the states
/// are exactly the 3-smooth numbers of the band, each once.
pub fn scan_ula_states(q_lo: u128, q_hi: u128) -> (res: (Vec<(u128, u32, u32)>, u64))
    requires
        q_lo >= 1,
    ensures
        res.0@ == ula_hits(q_lo as nat, q_hi as nat, ula_b_count(q_hi as nat, 0)),
        res.1 == ula_tried(q_lo as nat, ula_b_count(q_hi as nat, 0)),
        q_hi < 4 * q_lo && q_hi < power(3, 65) ==> ula_complete(res.0@, q_lo as nat, q_hi as nat),
{
    let mut states: Vec<(u128, u32, u32)> = Vec::new();
    let mut total: u64 = 0;
    let mut b: u32 = 0;
    while b <= 64
        invariant
            q_lo >= 1,
            b <= 65,
            ula_b_count(q_hi as nat, 0) == ula_b_count(q_hi as nat, b as nat),
            states@ == ula_hits(q_lo as nat, q_hi as nat, b as nat),
            total == ula_tried(q_lo as nat, b as nat),
            total <= 4 * b,
        ensures
            b <= 64 ==> saturate(power(3, b as nat)) > q_hi,
            b <= 65,
            ula_b_count(q_hi as nat, 0) == ula_b_count(q_hi as nat, b as nat),
            states@ == ula_hits(q_lo as nat, q_hi as nat, b as nat),
            total == ula_tried(q_lo as nat, b as nat),
        decreases 65 - b,
    {
        let p3 = pow_u128(3, b);
        if p3 > q_hi {
            break;
        }
        proof {
            lemma_power_positive(3, b as nat);
        }
        assert(p3 >= 1);
        let a0 = floor_log2(q_lo / p3);
        proof {
            if q_lo / p3 > 0 {
                lemma_log2_floor_unique((q_lo / p3) as nat, a0 as nat);
            }
            assert(a0 as nat == log2_floor((q_lo as nat) / (saturate(power(3, b as nat)) as nat)));
        }
        let first: u32 = if a0 >= 1 {
            a0 - 1
        } else {
            0
        };
        let last: u32 = a0 + 2;
        let mut a: u32 = first;
        let ghost row_start = states@;
        while a <= last
            invariant
                q_lo >= 1,
                b <= 64,
                p3 <= q_hi,
                p3 == saturate(power(3, b as nat)),
                p3 >= 1,
                first as nat == ula_a_first(q_lo as nat, b as nat),
                last as nat == ula_a_last(q_lo as nat, b as nat),
                last < 130,
                first <= a <= last + 1,
                row_start == ula_hits(q_lo as nat, q_hi as nat, b as nat),
                states@ + ula_row(q_lo as nat, q_hi as nat, b as nat, a as nat, last as nat)
                    == row_start + ula_row(q_lo as nat, q_hi as nat, b as nat, first as nat, last as nat),
                total == ula_tried(q_lo as nat, b as nat) + (a - first),
                ula_tried(q_lo as nat, b as nat) <= 4 * b,
            decreases last + 1 - a,
        {
            let p2 = pow_u128(2, a);
            let q = saturating_mul_u128(p2, p3);
            proof {
                assert(q == ula_state(a as nat, b as nat));
            }
            total = total + 1;
            let ghost before = states@;
            if q >= q_lo && q <= q_hi && is_3_smooth(q) {
                states.push((q, a, b));
                proof {
                    assert(before + ula_row(q_lo as nat, q_hi as nat, b as nat, a as nat, last as nat)
                        =~= states@ + ula_row(q_lo as nat, q_hi as nat, b as nat, (a + 1) as nat, last as nat));
                }
            } else {
                proof {
                    if q >= 1 {
                        assert(q >= q_lo && q <= q_hi ==> !is_smooth(q as nat));
                    }
                }
            }
            a = a + 1;
        }
        proof {
            assert(ula_row(q_lo as nat, q_hi as nat, b as nat, a as nat, last as nat) =~= seq![]);
            assert(states@ =~= ula_hits(q_lo as nat, q_hi as nat, (b + 1) as nat));
            assert(!(b > 64 || saturate(power(3, b as nat)) > q_hi));
        }
        b = b + 1;
    }
    proof {
        lemma_ula_b_count_bounds(q_hi as nat, b as nat);
        if b <= 64 {
            assert(ula_b_count(q_hi as nat, b as nat) == b);
        } else {
            assert(ula_b_count(q_hi as nat, 65) == 65);
        }
        if q_hi < 4 * q_lo && q_hi < power(3, 65) {
            lemma_ula_scan_complete(q_lo, q_hi);
        }
    }
    (states, total)
}

} // verus!
