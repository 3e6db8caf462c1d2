//! Arithmetic of numbers of the form 2^a · 3^b · rest, and the 48-adic
//! structure (48 = 2^4 · 3 is the order of the group O_h).

use vstd::prelude::*;
use vstd::arithmetic::div_mod::*;

verus! {

/// `base` raised to `exp`, over the naturals.
pub open spec fn power(base: nat, exp: nat) -> nat
    decreases exp,
{
    if exp == 0 {
        1
    } else {
        power(base, (exp - 1) as nat) * base
    }
}

/// A natural clamped to the range of `u128`.
pub open spec fn saturate(x: nat) -> u128 {
    if x <= u128::MAX {
        x as u128
    } else {
        u128::MAX
    }
}

pub proof fn lemma_power_positive(base: nat, exp: nat)
    requires
        base >= 1,
    ensures
        power(base, exp) >= 1,
    decreases exp,
{
    if exp > 0 {
        lemma_power_positive(base, (exp - 1) as nat);
        assert(power(base, (exp - 1) as nat) * base >= 1) by (nonlinear_arith)
            requires
                base >= 1,
                power(base, (exp - 1) as nat) >= 1,
        ;
    }
}

pub proof fn lemma_power_monotone(base: nat, e1: nat, e2: nat)
    requires
        base >= 1,
        e1 <= e2,
    ensures
        power(base, e1) <= power(base, e2),
    decreases e2,
{
    if e1 < e2 {
        lemma_power_monotone(base, e1, (e2 - 1) as nat);
        lemma_power_positive(base, (e2 - 1) as nat);
        let p = power(base, (e2 - 1) as nat);
        assert(p <= p * base) by (nonlinear_arith)
            requires
                base >= 1,
        ;
    }
}

/// `base^exp`, saturating at `u128::MAX` when the exact power does not fit.
pub fn pow_u128(base: u128, exp: u32) -> (r: u128)
    ensures
        r == saturate(power(base as nat, exp as nat)),
{
    let mut acc: u128 = 1;
    let mut i: u32 = 0;
    while i < exp
        invariant
            i <= exp,
            acc as nat == power(base as nat, i as nat),
        decreases exp - i,
    {
        match acc.checked_mul(base) {
            Some(v) => {
                acc = v;
            },
            None => {
                proof {
                    assert(power(base as nat, (i + 1) as nat) == acc * base);
                    if base >= 1 {
                        lemma_power_monotone(base as nat, (i + 1) as nat, exp as nat);
                    }
                }
                return u128::MAX;
            },
        }
        i = i + 1;
    }
    acc
}


pub proof fn lemma_power_adds(base: nat, e1: nat, e2: nat)
    ensures
        power(base, e1 + e2) == power(base, e1) * power(base, e2),
    decreases e2,
{
    if e2 == 0 {
        assert(power(base, 0) == 1);
    } else {
        lemma_power_adds(base, e1, (e2 - 1) as nat);
        assert(power(base, e1 + e2) == power(base, (e1 + e2 - 1) as nat) * base);
        assert(power(base, e2) == power(base, (e2 - 1) as nat) * base);
        let a = power(base, e1);
        let b = power(base, (e2 - 1) as nat);
        assert(a * b * base == a * (b * base)) by (nonlinear_arith);
    }
}

pub proof fn lemma_power_two_128()
    ensures
        power(2, 128) == 0x1_0000_0000_0000_0000_0000_0000_0000_0000,
        power(2, 128) > u128::MAX,
{
    assert(power(2, 1) == 2) by {
        assert(power(2, 0) == 1);
    }
    lemma_power_adds(2, 1, 1);
    lemma_power_adds(2, 2, 2);
    lemma_power_adds(2, 4, 4);
    lemma_power_adds(2, 8, 8);
    lemma_power_adds(2, 16, 16);
    lemma_power_adds(2, 32, 32);
    lemma_power_adds(2, 64, 64);
}

/// Every power of two that fits in a `u128` has exponent below 128.
pub proof fn lemma_power_two_fits(k: nat)
    requires
        power(2, k) <= u128::MAX,
    ensures
        k < 128,
{
    lemma_power_two_128();
    if k >= 128 {
        lemma_power_monotone(2, 128, k);
    }
}

/// `floor(log2(n))`, and 0 for `n == 0`.
pub fn floor_log2(n: u128) -> (r: u32)
    ensures
        n == 0 ==> r == 0,
        n > 0 ==> power(2, r as nat) <= n < power(2, (r + 1) as nat),
        r < 128,
{
    if n == 0 {
        return 0;
    }
    let mut m: u128 = n;
    let mut k: u32 = 0;
    assert(power(2, 0) == 1);
    while m > 1
        invariant
            1 <= m <= n,
            k < 128,
            power(2, k as nat) * m <= n,
            n < power(2, k as nat) * (m + 1),
        decreases m,
    {
        let ghost p = power(2, k as nat);
        let ghost old_m = m;
        m = m / 2;
        proof {
            assert(power(2, (k + 1) as nat) == p * 2);
            assert(p * 2 * m <= p * old_m) by (nonlinear_arith)
                requires
                    m == old_m / 2,
                    p >= 0,
            ;
            assert(p * (old_m + 1) <= p * 2 * (m + 1)) by (nonlinear_arith)
                requires
                    m == old_m / 2,
                    p >= 0,
            ;
            assert(p * 2 <= n) by (nonlinear_arith)
                requires
                    p * old_m <= n,
                    old_m >= 2,
                    p >= 0,
            ;
            lemma_power_two_fits((k + 1) as nat);
        }
        k = k + 1;
    }
    k
}

/// `ceil(log2(n))`, and 0 for `n <= 1`.
pub fn ceil_log2(n: u128) -> (r: u32)
    ensures
        n <= 1 ==> r == 0,
        n > 1 ==> 0 < r <= 128 && power(2, (r - 1) as nat) < n <= power(2, r as nat),
{
    if n <= 1 {
        return 0;
    }
    let f = floor_log2(n);
    let p = pow_u128(2, f);
    proof {
        lemma_power_two_fits(f as nat);
    }
    if p == n {
        proof {
            if f == 0 {
                assert(power(2, 0) == 1);
            } else {
                lemma_power_monotone(2, (f - 1) as nat, f as nat);
                assert(power(2, f as nat) == power(2, (f - 1) as nat) * 2);
            }
        }
        f
    } else {
        f + 1
    }
}


/// `q = 2^a · 3^b · rest` with `rest` prime to 6: the split of a positive
/// number into its 2-part, its 3-part and the rest.
pub open spec fn is_split(q: nat, a: nat, b: nat, rest: nat) -> bool {
    &&& q == power(2, a) * power(3, b) * rest
    &&& rest % 2 == 1
    &&& rest % 3 != 0
}

/// `q` is 3-smooth: a product of powers of 2 and 3 only.
pub open spec fn is_smooth(q: nat) -> bool {
    exists|a: nat, b: nat| q == #[trigger] (power(2, a) * power(3, b))
}

proof fn lemma_power_three_odd(b: nat)
    ensures
        power(3, b) % 2 == 1,
    decreases b,
{
    if b > 0 {
        lemma_power_three_odd((b - 1) as nat);
        lemma_mul_mod_noop_general(power(3, (b - 1) as nat) as int, 3, 2);
    }
}

proof fn lemma_odd_times_odd(x: int, y: int)
    requires
        x % 2 == 1,
        y % 2 == 1,
    ensures
        (x * y) % 2 == 1,
{
    lemma_mul_mod_noop_general(x, y, 2);
}

proof fn lemma_even_product(x: int, y: int)
    ensures
        (2 * x * y) % 2 == 0,
{
    assert(2 * x * y == 2 * (x * y)) by (nonlinear_arith);
    lemma_mod_multiples_basic(x * y, 2);
    assert((x * y) * 2 == 2 * (x * y)) by (nonlinear_arith);
}

proof fn lemma_triple_product(x: int, y: int)
    ensures
        (3 * x * y) % 3 == 0,
{
    assert(3 * x * y == (x * y) * 3) by (nonlinear_arith);
    lemma_mod_multiples_basic(x * y, 3);
}

/// The split `q = 2^a · 3^b · rest` (rest prime to 6) is unique.
pub proof fn lemma_split_unique(q: nat, a: nat, b: nat, r: nat, a2: nat, b2: nat, r2: nat)
    requires
        is_split(q, a, b, r),
        is_split(q, a2, b2, r2),
    ensures
        a == a2,
        b == b2,
        r == r2,
    decreases a + a2 + b + b2,
{
    let p2 = power(2, a);
    let p3 = power(3, b);
    let p2b = power(2, a2);
    let p3b = power(3, b2);
    if a > 0 && a2 > 0 {
        let x = power(2, (a - 1) as nat);
        let y = power(2, (a2 - 1) as nat);
        assert(q == 2 * (x * p3 * r)) by (nonlinear_arith)
            requires
                q == p2 * p3 * r,
                p2 == x * 2,
        ;
        assert(q == 2 * (y * p3b * r2)) by (nonlinear_arith)
            requires
                q == p2b * p3b * r2,
                p2b == y * 2,
        ;
        lemma_split_unique((q / 2) as nat, (a - 1) as nat, b, r, (a2 - 1) as nat, b2, r2);
    } else if a > 0 || a2 > 0 {
        lemma_power_three_odd(b);
        lemma_power_three_odd(b2);
        if a > 0 {
            let x = power(2, (a - 1) as nat);
            assert(q == 2 * x * (p3 * r)) by (nonlinear_arith)
                requires
                    q == p2 * p3 * r,
                    p2 == x * 2,
            ;
            lemma_even_product(x as int, (p3 * r) as int);
            assert(p2b == 1);
            lemma_odd_times_odd(p3b as int, r2 as int);
            assert(q == p3b * r2) by (nonlinear_arith)
                requires
                    q == p2b * p3b * r2,
                    p2b == 1,
            ;
        } else {
            let y = power(2, (a2 - 1) as nat);
            assert(q == 2 * y * (p3b * r2)) by (nonlinear_arith)
                requires
                    q == p2b * p3b * r2,
                    p2b == y * 2,
            ;
            lemma_even_product(y as int, (p3b * r2) as int);
            assert(p2 == 1);
            lemma_odd_times_odd(p3 as int, r as int);
            assert(q == p3 * r) by (nonlinear_arith)
                requires
                    q == p2 * p3 * r,
                    p2 == 1,
            ;
        }
    } else {
        assert(p2 == 1 && p2b == 1);
        assert(q == p3 * r && q == p3b * r2) by (nonlinear_arith)
            requires
                q == p2 * p3 * r,
                q == p2b * p3b * r2,
                p2 == 1,
                p2b == 1,
        ;
        if b > 0 && b2 > 0 {
            let x = power(3, (b - 1) as nat);
            let y = power(3, (b2 - 1) as nat);
            assert(q == 3 * (x * r)) by (nonlinear_arith)
                requires
                    q == p3 * r,
                    p3 == x * 3,
            ;
            assert(q == 3 * (y * r2)) by (nonlinear_arith)
                requires
                    q == p3b * r2,
                    p3b == y * 3,
            ;
            assert(power(2, 0) == 1);
            assert(is_split((q / 3) as nat, 0, (b - 1) as nat, r));
            assert(is_split((q / 3) as nat, 0, (b2 - 1) as nat, r2));
            lemma_split_unique((q / 3) as nat, 0, (b - 1) as nat, r, 0, (b2 - 1) as nat, r2);
        } else if b > 0 {
            let x = power(3, (b - 1) as nat);
            assert(q == 3 * x * r) by (nonlinear_arith)
                requires
                    q == p3 * r,
                    p3 == x * 3,
            ;
            lemma_triple_product(x as int, r as int);
            assert(power(3, 0) == 1);
            assert(q == r2) by (nonlinear_arith)
                requires
                    q == p3b * r2,
                    p3b == 1,
            ;
        } else if b2 > 0 {
            let y = power(3, (b2 - 1) as nat);
            assert(q == 3 * y * r2) by (nonlinear_arith)
                requires
                    q == p3b * r2,
                    p3b == y * 3,
            ;
            lemma_triple_product(y as int, r2 as int);
            assert(power(3, 0) == 1);
            assert(q == r) by (nonlinear_arith)
                requires
                    q == p3 * r,
                    p3 == 1,
            ;
        } else {
            assert(p3 == 1 && p3b == 1);
            assert(r == q && r2 == q) by (nonlinear_arith)
                requires
                    q == p3 * r,
                    q == p3b * r2,
                    p3 == 1,
                    p3b == 1,
            ;
        }
    }
}

/// A number is 3-smooth exactly when the rest of its split is 1.
pub proof fn lemma_smooth_iff_rest_one(q: nat, a: nat, b: nat, r: nat)
    requires
        is_split(q, a, b, r),
    ensures
        is_smooth(q) <==> r == 1,
{
    if r == 1 {
        let x = power(2, a) * power(3, b);
        assert(q == x) by (nonlinear_arith)
            requires
                q == x * r,
                r == 1,
        ;
        assert(q == power(2, a) * power(3, b));
    }
    if is_smooth(q) {
        let (a2, b2) = choose|a2: nat, b2: nat| q == #[trigger] (power(2, a2) * power(3, b2));
        assert(is_split(q, a2, b2, 1));
        lemma_split_unique(q, a, b, r, a2, b2, 1);
    }
}

pub proof fn lemma_power_three_dominates(b: nat)
    ensures
        power(2, b) <= power(3, b),
    decreases b,
{
    if b > 0 {
        lemma_power_three_dominates((b - 1) as nat);
        let x = power(2, (b - 1) as nat);
        let y = power(3, (b - 1) as nat);
        assert(x * 2 <= y * 3) by (nonlinear_arith)
            requires
                x <= y,
        ;
    }
}

/// Splits `q = 2^a · 3^b · rest`, removing factors only while the running
/// value exceeds 1. Returns `(a, b, rest)`; `0` and `1` are returned as-is.
pub fn factorize_2_3(q: u128) -> (res: (u32, u32, u128))
    ensures
        q == 0 ==> res == (0u32, 0u32, 0u128),
        q > 0 ==> is_split(q as nat, res.0 as nat, res.1 as nat, res.2 as nat),
{
    let mut n: u128 = q;
    let mut a: u32 = 0;
    let mut b: u32 = 0;
    assert(power(2, 0) == 1 && power(3, 0) == 1);
    while n > 1 && n % 2 == 0
        invariant
            q == power(2, a as nat) * n,
            n <= q,
            q == 0 ==> a == 0 && n == 0,
            q > 0 ==> n >= 1,
            a < 128,
        decreases n,
    {
        let ghost old_n = n;
        let ghost p = power(2, a as nat);
        n = n / 2;
        proof {
            assert(power(2, (a + 1) as nat) == p * 2);
            assert(q == p * 2 * n) by (nonlinear_arith)
                requires
                    q == p * old_n,
                    old_n == 2 * n,
            ;
            assert(p * 2 <= q) by (nonlinear_arith)
                requires
                    q == p * 2 * n,
                    n >= 1,
                    p >= 0,
            ;
            lemma_power_two_fits((a + 1) as nat);
        }
        a = a + 1;
    }
    assert(q == power(2, a as nat) * power(3, b as nat) * n);
    while n > 1 && n % 3 == 0
        invariant
            q == power(2, a as nat) * power(3, b as nat) * n,
            n <= q,
            q == 0 ==> a == 0 && b == 0 && n == 0,
            q > 0 ==> n >= 1 && n % 2 == 1,
            a < 128,
            b < 128,
        decreases n,
    {
        let ghost old_n = n;
        let ghost p = power(2, a as nat);
        let ghost t = power(3, b as nat);
        n = n / 3;
        proof {
            assert(power(3, (b + 1) as nat) == t * 3);
            assert(q == p * (t * 3) * n) by (nonlinear_arith)
                requires
                    q == p * t * old_n,
                    old_n == 3 * n,
            ;
            lemma_power_positive(2, a as nat);
            assert(t * 3 <= q) by (nonlinear_arith)
                requires
                    q == p * (t * 3) * n,
                    n >= 1,
                    p >= 1,
                    t >= 0,
            ;
            lemma_power_three_dominates((b + 1) as nat);
            lemma_power_two_fits((b + 1) as nat);
        }
        b = b + 1;
    }
    (a, b, n)
}

/// Splits a positive `q = 2^a · 3^b · rest` by repeated division.
pub fn factorize_smooth(q: u128) -> (res: (u32, u32, u128))
    requires
        q > 0,
    ensures
        is_split(q as nat, res.0 as nat, res.1 as nat, res.2 as nat),
{
    let mut n: u128 = q;
    let mut a: u32 = 0;
    let mut b: u32 = 0;
    assert(power(2, 0) == 1 && power(3, 0) == 1);
    while n % 2 == 0
        invariant
            q == power(2, a as nat) * n,
            1 <= n <= q,
            a < 128,
        decreases n,
    {
        let ghost old_n = n;
        let ghost p = power(2, a as nat);
        n = n / 2;
        proof {
            assert(power(2, (a + 1) as nat) == p * 2);
            assert(q == p * 2 * n) by (nonlinear_arith)
                requires
                    q == p * old_n,
                    old_n == 2 * n,
            ;
            assert(p * 2 <= q) by (nonlinear_arith)
                requires
                    q == p * 2 * n,
                    n >= 1,
                    p >= 0,
            ;
            lemma_power_two_fits((a + 1) as nat);
        }
        a = a + 1;
    }
    assert(q == power(2, a as nat) * power(3, b as nat) * n);
    while n % 3 == 0
        invariant
            q == power(2, a as nat) * power(3, b as nat) * n,
            1 <= n <= q,
            n % 2 == 1,
            a < 128,
            b < 128,
        decreases n,
    {
        let ghost old_n = n;
        let ghost p = power(2, a as nat);
        let ghost t = power(3, b as nat);
        n = n / 3;
        proof {
            assert(power(3, (b + 1) as nat) == t * 3);
            assert(q == p * (t * 3) * n) by (nonlinear_arith)
                requires
                    q == p * t * old_n,
                    old_n == 3 * n,
            ;
            lemma_power_positive(2, a as nat);
            assert(t * 3 <= q) by (nonlinear_arith)
                requires
                    q == p * (t * 3) * n,
                    n >= 1,
                    p >= 1,
                    t >= 0,
            ;
            lemma_power_three_dominates((b + 1) as nat);
            lemma_power_two_fits((b + 1) as nat);
        }
        b = b + 1;
    }
    (a, b, n)
}

/// Whether a positive `q` is 3-smooth (a product of powers of 2 and 3).
pub fn is_3_smooth(q: u128) -> (r: bool)
    requires
        q > 0,
    ensures
        r == is_smooth(q as nat),
{
    let (a, b, rest) = factorize_smooth(q);
    proof {
        lemma_smooth_iff_rest_one(q as nat, a as nat, b as nat, rest as nat);
    }
    rest == 1
}


pub proof fn lemma_power_of_product(x: nat, y: nat, k: nat)
    ensures
        power(x * y, k) == power(x, k) * power(y, k),
    decreases k,
{
    if k == 0 {
        assert(power(x * y, 0) == 1 && power(x, 0) == 1 && power(y, 0) == 1);
    } else {
        lemma_power_of_product(x, y, (k - 1) as nat);
        let px = power(x, (k - 1) as nat);
        let py = power(y, (k - 1) as nat);
        assert((px * py) * (x * y) == (px * x) * (py * y)) by (nonlinear_arith);
    }
}

proof fn lemma_power_sixteen(k: nat)
    ensures
        power(16, k) == power(2, 4 * k),
    decreases k,
{
    if k > 0 {
        lemma_power_sixteen((k - 1) as nat);
        lemma_power_adds(2, (4 * (k - 1)) as nat, 4);
        assert(power(2, 4) == 16) by {
            assert(power(2, 0) == 1);
            assert(power(2, 1) == 2);
            assert(power(2, 2) == 4);
            assert(power(2, 3) == 8);
        }
        assert((4 * (k - 1)) as nat + 4 == 4 * k);
    }
}

/// `48^k = 2^(4k) · 3^k`.
pub proof fn lemma_power_48(k: nat)
    ensures
        power(48, k) == power(2, 4 * k) * power(3, k),
{
    lemma_power_of_product(16, 3, k);
    lemma_power_sixteen(k);
}

/// Every positive natural has a split `2^a · 3^b · rest`.
pub proof fn lemma_split_exists(n: nat) -> (t: (nat, nat, nat))
    requires
        n > 0,
    ensures
        is_split(n, t.0, t.1, t.2),
    decreases n,
{
    assert(power(2, 0) == 1 && power(3, 0) == 1);
    if n % 2 == 0 {
        let s = lemma_split_exists(n / 2);
        let p = power(2, s.0);
        assert(power(2, s.0 + 1) == p * 2);
        assert(n == (p * 2) * power(3, s.1) * s.2) by (nonlinear_arith)
            requires
                n / 2 == p * power(3, s.1) * s.2,
                n % 2 == 0,
        ;
        (s.0 + 1, s.1, s.2)
    } else if n % 3 == 0 {
        let s = lemma_split_exists(n / 3);
        let t3 = power(3, s.1);
        assert(power(3, s.1 + 1) == t3 * 3);
        assert(n == power(2, s.0) * (t3 * 3) * s.2) by (nonlinear_arith)
            requires
                n / 3 == power(2, s.0) * t3 * s.2,
                n % 3 == 0,
        ;
        (s.0, s.1 + 1, s.2)
    } else {
        assert(power(2, 0) * power(3, 0) * n == n) by (nonlinear_arith)
            requires
                power(2, 0) == 1,
                power(3, 0) == 1,
        ;
        (0, 0, n)
    }
}

/// Removing `48^k` with `k = min(a / 4, b)` from a split leaves a cofactor
/// that 48 no longer divides.
proof fn lemma_val48_shape(q: nat, a: nat, b: nat, r: nat, k: nat)
    requires
        is_split(q, a, b, r),
        k == if a / 4 < b { a / 4 } else { b },
    ensures
        q == power(48, k) * (power(2, (a - 4 * k) as nat) * power(3, (b - k) as nat) * r),
        (power(2, (a - 4 * k) as nat) * power(3, (b - k) as nat) * r) % 48 != 0,
{
    let ea = (a - 4 * k) as nat;
    let eb = (b - k) as nat;
    let rest = power(2, ea) * power(3, eb) * r;
    lemma_power_48(k);
    lemma_power_adds(2, 4 * k, ea);
    lemma_power_adds(3, k, eb);
    assert(4 * k + ea == a);
    assert(k + eb == b);
    let x2 = power(2, 4 * k);
    let y2 = power(2, ea);
    let x3 = power(3, k);
    let y3 = power(3, eb);
    assert(q == (x2 * x3) * (y2 * y3 * r)) by (nonlinear_arith)
        requires
            q == (x2 * y2) * (x3 * y3) * r,
    ;
    if rest % 48 == 0 {
        assert(rest > 0) by {
            lemma_power_positive(2, ea);
            lemma_power_positive(3, eb);
            assert(y2 * y3 * r > 0) by (nonlinear_arith)
                requires
                    y2 >= 1,
                    y3 >= 1,
                    r >= 1,
            ;
        }
        let m = rest / 48;
        let s = lemma_split_exists(m);
        assert(m > 0);
        let pc = power(2, s.0);
        let pd = power(3, s.1);
        lemma_power_adds(2, 4, s.0);
        lemma_power_adds(3, 1, s.1);
        assert(power(2, 4) == 16) by {
            assert(power(2, 0) == 1);
            assert(power(2, 1) == 2);
            assert(power(2, 2) == 4);
            assert(power(2, 3) == 8);
        }
        assert(power(3, 1) == 3) by {
            assert(power(3, 0) == 1);
        }
        assert(rest == (16 * pc) * (3 * pd) * s.2) by (nonlinear_arith)
            requires
                rest == 48 * m,
                m == pc * pd * s.2,
        ;
        assert(is_split(rest, 4 + s.0, 1 + s.1, s.2));
        assert(is_split(rest, ea, eb, r));
        lemma_split_unique(rest, ea, eb, r, 4 + s.0, 1 + s.1, s.2);
    }
}

pub proof fn lemma_power_48_even(k: nat)
    requires
        k >= 1,
    ensures
        power(48, k) % 2 == 0,
{
    let p = power(48, (k - 1) as nat);
    assert(power(48, k) == p * 48);
    assert(p * 48 == (p * 24) * 2) by (nonlinear_arith);
    lemma_mod_multiples_basic((p * 24) as int, 2);
}

/// 48-adic valuation of `q`: `q = 48^k · rest` with `rest` not divisible by
/// 48. For `q == 0` the result is `(0, 0)`.
pub fn val_48(q: u128) -> (res: (u32, u128))
    ensures
        q == 0 ==> res == (0u32, 0u128),
        q > 0 ==> q == power(48, res.0 as nat) * res.1 && res.1 % 48 != 0,
{
    if q < 1 {
        return (0, q);
    }
    let (a, b, rest23) = factorize_2_3(q);
    let k = if a / 4 < b { a / 4 } else { b };
    let divisor = pow_u128(48, k);
    proof {
        lemma_val48_shape(q as nat, a as nat, b as nat, rest23 as nat, k as nat);
        let cof = power(2, (a - 4 * k) as nat) * power(3, (b - k) as nat) * rest23;
        lemma_power_positive(48, k as nat);
        lemma_power_positive(2, (a - 4 * k) as nat);
        lemma_power_positive(3, (b - k) as nat);
        assert(cof >= 1) by (nonlinear_arith)
            requires
                cof == power(2, (a - 4 * k) as nat) * power(3, (b - k) as nat) * rest23,
                power(2, (a - 4 * k) as nat) >= 1,
                power(3, (b - k) as nat) >= 1,
                rest23 >= 1,
        ;
        assert(power(48, k as nat) <= q) by (nonlinear_arith)
            requires
                q == power(48, k as nat) * cof,
                cof >= 1,
        ;
        if k >= 1 {
            lemma_power_48_even(k as nat);
        } else {
            assert(power(48, 0) == 1);
        }
        lemma_div_multiples_vanish(cof as int, power(48, k as nat) as int);
    }
    let rest = if divisor > 0 && divisor != u128::MAX {
        q / divisor
    } else {
        q
    };
    (k, rest)
}


/// `x * y`, clamped at `u128::MAX`.
pub fn saturating_mul_u128(x: u128, y: u128) -> (r: u128)
    ensures
        r == saturate(x as nat * y as nat),
{
    match x.checked_mul(y) {
        Some(v) => v,
        None => u128::MAX,
    }
}

} // verus!
