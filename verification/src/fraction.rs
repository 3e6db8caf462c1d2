//! Reduced fractions `numerator / denominator` (the fractional Burgers
//! numbers of the neutrino search) and their integer classification.

use vstd::prelude::*;
use vstd::arithmetic::div_mod::*;
use crate::smooth::{factorize_2_3, is_split};

verus! {

/// Greatest common divisor by Euclid's algorithm; `gcd(a, 0) == a`.
pub open spec fn gcd_spec(a: nat, b: nat) -> nat
    decreases b,
{
    if b == 0 {
        a
    } else {
        gcd_spec(b, a % b)
    }
}

/// `d` divides `x`.
pub open spec fn divides(d: nat, x: nat) -> bool {
    exists|m: nat| x == #[trigger] (d * m)
}

proof fn lemma_mod_of_divides(d: nat, x: nat)
    requires
        d > 0,
        divides(d, x),
    ensures
        x % d == 0,
{
    let m = choose|m: nat| x == #[trigger] (d * m);
    lemma_mod_multiples_basic(m as int, d as int);
    assert(m * d == d * m) by (nonlinear_arith);
}

/// `gcd(a, b)` divides both `a` and `b`.
pub proof fn lemma_gcd_divides(a: nat, b: nat)
    ensures
        divides(gcd_spec(a, b), a),
        divides(gcd_spec(a, b), b),
    decreases b,
{
    let g = gcd_spec(a, b);
    if b == 0 {
        assert(a == a * 1);
        assert(0 == a * 0);
    } else {
        lemma_gcd_divides(b, a % b);
        let m1 = choose|m: nat| b == #[trigger] (g * m);
        let m2 = choose|m: nat| a % b == #[trigger] (g * m);
        lemma_fundamental_div_mod(a as int, b as int);
        let q = a / b;
        assert(a == g * (m1 * q + m2)) by (nonlinear_arith)
            requires
                a == b * q + a % b,
                b == g * m1,
                a % b == g * m2,
        ;
        assert(a == g * ((m1 * q + m2) as nat));
    }
}

/// `gcd(a c, b c) == gcd(a, b) c`.
pub proof fn lemma_gcd_scale(a: nat, b: nat, c: nat)
    requires
        c > 0,
    ensures
        gcd_spec(a * c, b * c) == gcd_spec(a, b) * c,
    decreases b,
{
    if b == 0 {
        assert(b * c == 0);
    } else {
        assert(b * c > 0) by (nonlinear_arith)
            requires
                b > 0,
                c > 0,
        ;
        lemma_fundamental_div_mod(a as int, b as int);
        lemma_mod_bound(a as int, b as int);
        let q = a / b;
        let r = a % b;
        assert(a * c == (b * c) * q + r * c) by (nonlinear_arith)
            requires
                a == b * q + r,
        ;
        assert(r * c < b * c) by (nonlinear_arith)
            requires
                r < b,
                c > 0,
        ;
        lemma_fundamental_div_mod_converse((a * c) as int, (b * c) as int, q as int, (r * c) as int);
        lemma_gcd_scale(b, r, c);
    }
}

/// Dividing out the gcd leaves coprime parts.
pub proof fn lemma_reduced_coprime(a: nat, b: nat)
    requires
        a > 0 || b > 0,
    ensures
        gcd_spec(a, b) > 0,
        gcd_spec(a / gcd_spec(a, b), b / gcd_spec(a, b)) == 1,
{
    lemma_gcd_positive(a, b);
    let g = gcd_spec(a, b);
    lemma_gcd_divides(a, b);
    lemma_mod_of_divides(g, a);
    lemma_mod_of_divides(g, b);
    lemma_fundamental_div_mod(a as int, g as int);
    lemma_fundamental_div_mod(b as int, g as int);
    let x = a / g;
    let y = b / g;
    assert(a == x * g && b == y * g) by (nonlinear_arith)
        requires
            a == g * x + 0,
            b == g * y + 0,
    ;
    lemma_gcd_scale(x, y, g);
    assert(gcd_spec(x, y) == 1) by (nonlinear_arith)
        requires
            g == gcd_spec(x, y) * g,
            g > 0,
    ;
}

proof fn lemma_gcd_positive(a: nat, b: nat)
    requires
        a > 0 || b > 0,
    ensures
        gcd_spec(a, b) > 0,
    decreases b,
{
    if b > 0 {
        lemma_gcd_positive(b, a % b);
    }
}

/// Fraction `numerator / denominator`.
#[derive(Debug, Clone, Copy, PartialEq, Eq, Structural)]
pub struct FractionalNf {
    pub numerator: u64,
    pub denominator: u64,
}

impl FractionalNf {
    /// The fraction `numerator / denominator` in lowest terms.
    pub fn new(numerator: u64, denominator: u64) -> (f: Self)
        requires
            numerator > 0 || denominator > 0,
        ensures
            f.numerator == numerator as nat / gcd_spec(numerator as nat, denominator as nat),
            f.denominator == denominator as nat / gcd_spec(numerator as nat, denominator as nat),
    {
        let gcd = Self::gcd(numerator, denominator);
        proof {
            lemma_gcd_positive(numerator as nat, denominator as nat);
        }
        Self { numerator: numerator / gcd, denominator: denominator / gcd }
    }

    /// Greatest common divisor by Euclid's algorithm.
    pub fn gcd(a: u64, b: u64) -> (g: u64)
        ensures
            g == gcd_spec(a as nat, b as nat),
    {
        let mut x = a;
        let mut y = b;
        while y != 0
            invariant
                gcd_spec(x as nat, y as nat) == gcd_spec(a as nat, b as nat),
            decreases y,
        {
            let t = y;
            y = x % y;
            x = t;
        }
        x
    }
}


/// The fraction `new(n, d)` keeps the ratio `n / d` and is in lowest terms;
/// reducing it again changes nothing.
pub proof fn lemma_fraction_reduced(n: nat, d: nat)
    requires
        n > 0 || d > 0,
    ensures
        (n / gcd_spec(n, d)) * d == n * (d / gcd_spec(n, d)),
        gcd_spec(n / gcd_spec(n, d), d / gcd_spec(n, d)) == 1,
        (n / gcd_spec(n, d)) / gcd_spec(n / gcd_spec(n, d), d / gcd_spec(n, d)) == n / gcd_spec(n, d),
        (d / gcd_spec(n, d)) / gcd_spec(n / gcd_spec(n, d), d / gcd_spec(n, d)) == d / gcd_spec(n, d),
{
    lemma_reduced_coprime(n, d);
    let g = gcd_spec(n, d);
    lemma_gcd_divides(n, d);
    lemma_mod_of_divides(g, n);
    lemma_mod_of_divides(g, d);
    lemma_fundamental_div_mod(n as int, g as int);
    lemma_fundamental_div_mod(d as int, g as int);
    let x = n / g;
    let y = d / g;
    assert(x * d == n * y) by (nonlinear_arith)
        requires
            n == g * x + 0,
            d == g * y + 0,
    ;
}

/// Topological charge of a fraction: 1 for `1/d` with `d <= 48`, 2 when 48
/// divides the denominator, -1 for an even numerator, else 0.
pub fn calculate_charge(nf: FractionalNf) -> (c: i32)
    ensures
        c == if nf.numerator == 1 && nf.denominator <= 48 {
            1i32
        } else if nf.denominator % 48 == 0 {
            2i32
        } else if nf.numerator % 2 == 0 {
            -1i32
        } else {
            0i32
        },
{
    if nf.numerator == 1 && nf.denominator <= 48 {
        1
    } else if nf.denominator % 48 == 0 {
        2
    } else if nf.numerator % 2 == 0 {
        -1
    } else {
        0
    }
}

/// Numerators `h` of the convergents of a continued fraction with partial
/// quotients `q`, shifted by two: `cf_h(q, 0) == 0`, `cf_h(q, 1) == 1`.
pub open spec fn cf_h(q: Seq<i128>, n: nat) -> int
    decreases n,
{
    if n == 0 {
        0
    } else if n == 1 {
        1
    } else {
        q[n - 2] * cf_h(q, (n - 1) as nat) + cf_h(q, (n - 2) as nat)
    }
}

/// Denominators `k` of the convergents, shifted by two: `cf_k(q, 0) == 1`,
/// `cf_k(q, 1) == 0`.
pub open spec fn cf_k(q: Seq<i128>, n: nat) -> int
    decreases n,
{
    if n == 0 {
        1
    } else if n == 1 {
        0
    } else {
        q[n - 2] * cf_k(q, (n - 1) as nat) + cf_k(q, (n - 2) as nat)
    }
}

/// Numerator of the `j`-th convergent.
pub open spec fn conv_h(q: Seq<i128>, j: nat) -> int {
    cf_h(q, j + 2)
}

/// Denominator of the `j`-th convergent.
pub open spec fn conv_k(q: Seq<i128>, j: nat) -> int {
    cf_k(q, j + 2)
}

/// The convergents `h/k` among the first `n` quotients with `0 < h, k` and
/// both fitting in a `u64`, in order.
pub open spec fn cf_emit(q: Seq<i128>, n: nat) -> Seq<FractionalNf>
    decreases n,
{
    if n == 0 {
        seq![]
    } else {
        let h = conv_h(q, (n - 1) as nat);
        let k = conv_k(q, (n - 1) as nat);
        cf_emit(q, (n - 1) as nat) + if 0 < h <= u64::MAX && 0 < k <= u64::MAX {
            seq![FractionalNf { numerator: h as u64, denominator: k as u64 }]
        } else {
            seq![]
        }
    }
}

/// No convergent among the first `n` has a denominator above `max_den`.
pub open spec fn cf_within(q: Seq<i128>, max_den: u64, n: nat) -> bool {
    forall|j: nat| j < n ==> #[trigger] conv_k(q, j) <= max_den
}

/// Every convergent that the expansion reaches fits in an `i128`.
pub open spec fn cf_fits(q: Seq<i128>, max_den: u64) -> bool {
    forall|i: nat|
        i < q.len() && cf_within(q, max_den, i) ==> #[trigger] conv_h(q, i) <= i128::MAX && conv_k(
            q,
            i,
        ) <= i128::MAX
}

proof fn lemma_cf_nonneg(q: Seq<i128>, n: nat)
    requires
        forall|i: int| 0 <= i < q.len() ==> q[i] >= 0,
        n <= q.len() + 1,
    ensures
        cf_h(q, n) >= 0,
        cf_k(q, n) >= 0,
    decreases n,
{
    if n >= 2 {
        lemma_cf_nonneg(q, (n - 1) as nat);
        lemma_cf_nonneg(q, (n - 2) as nat);
        let a = q[n - 2];
        assert(a * cf_h(q, (n - 1) as nat) >= 0 && a * cf_k(q, (n - 1) as nat) >= 0)
            by (nonlinear_arith)
            requires
                a >= 0,
                cf_h(q, (n - 1) as nat) >= 0,
                cf_k(q, (n - 1) as nat) >= 0,
        ;
    }
}

/// Consecutive convergents satisfy `h_n k_{n-1} - h_{n-1} k_n = ±1`.
pub proof fn lemma_cf_determinant(q: Seq<i128>, n: nat)
    requires
        1 <= n,
    ensures
        cf_h(q, n) * cf_k(q, (n - 1) as nat) - cf_h(q, (n - 1) as nat) * cf_k(q, n) == 1 || cf_h(
            q,
            n,
        ) * cf_k(q, (n - 1) as nat) - cf_h(q, (n - 1) as nat) * cf_k(q, n) == -1,
    decreases n,
{
    if n >= 2 {
        lemma_cf_determinant(q, (n - 1) as nat);
        let a = q[n - 2] as int;
        let h1 = cf_h(q, (n - 1) as nat);
        let h2 = cf_h(q, (n - 2) as nat);
        let k1 = cf_k(q, (n - 1) as nat);
        let k2 = cf_k(q, (n - 2) as nat);
        assert((a * h1 + h2) * k1 - h1 * (a * k1 + k2) == -(h1 * k2 - h2 * k1)) by (nonlinear_arith);
    }
}

/// Every convergent `h/k` is already in lowest terms.
pub proof fn lemma_cf_coprime(q: Seq<i128>, n: nat)
    requires
        1 <= n,
        forall|i: int| 0 <= i < q.len() ==> q[i] >= 0,
        n <= q.len() + 1,
        cf_h(q, n) > 0 || cf_k(q, n) > 0,
    ensures
        gcd_spec(cf_h(q, n) as nat, cf_k(q, n) as nat) == 1,
{
    lemma_cf_nonneg(q, n);
    lemma_cf_nonneg(q, (n - 1) as nat);
    lemma_cf_determinant(q, n);
    let h = cf_h(q, n) as nat;
    let k = cf_k(q, n) as nat;
    let hp = cf_h(q, (n - 1) as nat);
    let kp = cf_k(q, (n - 1) as nat);
    lemma_gcd_divides(h, k);
    lemma_gcd_positive(h, k);
    let g = gcd_spec(h, k);
    let m1 = choose|m: nat| h == #[trigger] (g * m);
    let m2 = choose|m: nat| k == #[trigger] (g * m);
    let x = m1 * kp - hp * m2;
    assert(h * kp - hp * k == g * x) by (nonlinear_arith)
        requires
            h == g * m1,
            k == g * m2,
            x == m1 * kp - hp * m2,
    ;
    assert(g == 1) by (nonlinear_arith)
        requires
            g * x == 1 || g * x == -1,
            g >= 1,
    ;
}

/// Runs the convergent recurrence over the partial quotients `quotients`,
/// stopping at the first denominator above `max_den`, and returns the
/// convergents `h/k` with positive `h` and `k` that fit in a `u64`.
pub fn convergents_from_quotients(quotients: &Vec<i128>, max_den: u64) -> (res: Vec<FractionalNf>)
    requires
        forall|i: int| 0 <= i < quotients@.len() ==> quotients@[i] >= 0,
        cf_fits(quotients@, max_den),
    ensures
        exists|n: nat|
            n <= quotients@.len() && cf_within(quotients@, max_den, n) && (n == quotients@.len()
                || conv_k(quotients@, n) > max_den) && res@ == cf_emit(quotients@, n),
{
    let ghost q = quotients@;
    let mut result: Vec<FractionalNf> = Vec::new();
    let mut h2: i128 = 0;
    let mut k2: i128 = 1;
    let mut h1: i128 = 1;
    let mut k1: i128 = 0;
    let mut i: usize = 0;
    while i < quotients.len()
        invariant
            q == quotients@,
            forall|j: int| 0 <= j < q.len() ==> q[j] >= 0,
            cf_fits(q, max_den),
            i <= q.len(),
            h2 == cf_h(q, i as nat),
            k2 == cf_k(q, i as nat),
            h1 == cf_h(q, (i + 1) as nat),
            k1 == cf_k(q, (i + 1) as nat),
            cf_within(q, max_den, i as nat),
            result@ == cf_emit(q, i as nat),
        ensures
            exists|n: nat|
                n <= q.len() && cf_within(q, max_den, n) && (n == q.len() || conv_k(q, n)
                    > max_den) && result@ == cf_emit(q, n),
        decreases q.len() - i,
    {
        let a = quotients[i];
        proof {
            lemma_cf_nonneg(q, i as nat);
            lemma_cf_nonneg(q, (i + 1) as nat);
            assert(conv_h(q, i as nat) <= i128::MAX && conv_k(q, i as nat) <= i128::MAX);
            assert(cf_h(q, (i + 2) as nat) == a * h1 + h2);
            assert(cf_k(q, (i + 2) as nat) == a * k1 + k2);
            assert(0 <= a * h1 <= a * h1 + h2) by (nonlinear_arith)
                requires
                    a >= 0,
                    h1 >= 0,
                    h2 >= 0,
            ;
            assert(0 <= a * k1 <= a * k1 + k2) by (nonlinear_arith)
                requires
                    a >= 0,
                    k1 >= 0,
                    k2 >= 0,
            ;
        }
        let h = a * h1 + h2;
        let k = a * k1 + k2;
        if k > max_den as i128 {
            assert(conv_k(q, i as nat) > max_den);
            break;
        }
        if h > 0 && k > 0 && h <= u64::MAX as i128 && k <= u64::MAX as i128 {
            proof {
                lemma_cf_coprime(q, (i + 2) as nat);
            }
            let nf = FractionalNf::new(h as u64, k as u64);
            proof {
                assert(gcd_spec(h as nat, k as nat) == 1);
                assert(nf.numerator == h && nf.denominator == k);
            }
            result.push(nf);
        }
        proof {
            assert(conv_k(q, i as nat) <= max_den);
            assert(cf_emit(q, (i + 1) as nat) =~= result@);
        }
        h2 = h1;
        k2 = k1;
        h1 = h;
        k1 = k;
        i = i + 1;
    }
    result
}


/// Stride between numerators scanned for one denominator: the range
/// `[a, b]` is visited in at most about 100000 steps.
pub open spec fn numerator_step(a: nat, b: nat) -> nat {
    if b - a > 100000 {
        ((b - a) / 100000) as nat
    } else {
        1
    }
}

/// Number of numerators `a, a + step, ...` not above `b`.
pub open spec fn numerator_count(a: nat, b: nat) -> nat {
    ((b - a) as nat / numerator_step(a, b) + 1) as nat
}

/// The fractions `num/den` in lowest terms for `num = a, a + step, ...`,
/// over the first `count` numerators.
pub open spec fn stepped_lowest(den: nat, a: nat, step: nat, count: nat) -> Seq<FractionalNf>
    decreases count,
{
    if count == 0 {
        seq![]
    } else {
        let num = (a + step * (count - 1)) as nat;
        stepped_lowest(den, a, step, (count - 1) as nat) + if gcd_spec(num, den) == 1 {
            seq![FractionalNf { numerator: num as u64, denominator: den as u64 }]
        } else {
            seq![]
        }
    }
}

/// For the denominator `den`, the fractions `num/den` already in lowest
/// terms with `num` running from `a` to `b` by `numerator_step(a, b)`.
/// Nothing is produced unless `1 <= a <= b`.
pub fn lowest_terms_for_denominator(den: u64, a: u64, b: u64) -> (res: Vec<FractionalNf>)
    requires
        den >= 1,
        1 <= a <= b ==> a + numerator_step(a as nat, b as nat) * numerator_count(a as nat, b as nat)
            <= u64::MAX,
    ensures
        !(1 <= a <= b) ==> res@ == Seq::<FractionalNf>::empty(),
        1 <= a <= b ==> res@ == stepped_lowest(
            den as nat,
            a as nat,
            numerator_step(a as nat, b as nat),
            numerator_count(a as nat, b as nat),
        ),
{
    let mut out: Vec<FractionalNf> = Vec::new();
    if a <= b && a >= 1 {
        let step = if b - a > 100_000 {
            (b - a) / 100_000
        } else {
            1
        };
        let ghost count = numerator_count(a as nat, b as nat);
        let ghost span: int = (b - a) as int;
        let mut num = a;
        let mut i: u64 = 0;
        proof {
            lemma_fundamental_div_mod(span, step as int);
            lemma_mod_bound(span, step as int);
        }
        while num <= b
            invariant
                1 <= a <= b,
                den >= 1,
                step == numerator_step(a as nat, b as nat),
                step >= 1,
                span == b - a,
                count == span / (step as int) + 1,
                span == step * (span / (step as int)) + span % (step as int),
                0 <= span % (step as int) < step,
                a + step * count <= u64::MAX,
                num == a + step * i,
                i <= count,
                i < count <==> num <= b,
                out@ == stepped_lowest(den as nat, a as nat, step as nat, i as nat),
            decreases count - i,
        {
            let nf = FractionalNf::new(num, den);
            proof {
                lemma_gcd_positive(num as nat, den as nat);
                lemma_gcd_divides(num as nat, den as nat);
                let g = gcd_spec(num as nat, den as nat);
                if g != 1 {
                    assert(den as nat / g < den) by {
                        lemma_div_decreases(den as int, g as int);
                    }
                }
            }
            if nf.denominator == den {
                out.push(nf);
            }
            proof {
                assert(out@ =~= stepped_lowest(den as nat, a as nat, step as nat, (i + 1) as nat));
                assert(step * (i + 1) == step * i + step) by (nonlinear_arith);
                assert(step * (i + 1) <= step * count) by (nonlinear_arith)
                    requires
                        i + 1 <= count,
                ;
                assert((i + 1 < count) <==> (num + step <= b)) by (nonlinear_arith)
                    requires
                        num == a + step * i,
                        span == b - a,
                        count == span / (step as int) + 1,
                        span == step * (span / (step as int)) + span % (step as int),
                        0 <= span % (step as int) < step,
                        step >= 1,
                ;
            }
            num = num + step;
            i = i + 1;
        }
    }
    out
}

/// Powers of 2 and 3 in `n` and the remaining cofactor, as used by the
/// O_h purity score; `0` gives `(0, 0, 0)`.
pub fn oh_purity_factors(n: u64) -> (res: (u32, u32, u64))
    ensures
        n == 0 ==> res == (0u32, 0u32, 0u64),
        n > 0 ==> is_split(n as nat, res.0 as nat, res.1 as nat, res.2 as nat),
{
    let (f2, f3, rest) = factorize_2_3(n as u128);
    proof {
        if n > 0 {
            lemma_split_rest_le(n as nat, f2 as nat, f3 as nat, rest as nat);
        }
    }
    (f2, f3, rest as u64)
}

proof fn lemma_split_rest_le(q: nat, a: nat, b: nat, r: nat)
    requires
        is_split(q, a, b, r),
    ensures
        r <= q,
{
    crate::smooth::lemma_power_positive(2, a);
    crate::smooth::lemma_power_positive(3, b);
    let x = crate::smooth::power(2, a);
    let y = crate::smooth::power(3, b);
    assert(r <= x * y * r) by (nonlinear_arith)
        requires
            x >= 1,
            y >= 1,
    ;
}

} // verus!
