//! The 48 operations of the octahedral group O_h as signed permutation
//! matrices with entries in {-1, 0, 1}, stored row-major as `[m00, m01,
//! m02, m10, ..., m22]`.

use vstd::prelude::*;
use vstd::string::*;
use crate::text::{decimal, push_decimal, push_signed, signed_decimal};

verus! {

/// Row-major 3×3 integer matrix.
pub type Mat3 = [i64; 9];

/// Entry bound under which products and determinants stay exact in `i64`.
pub open spec fn small(m: Seq<i64>) -> bool {
    m.len() == 9 && forall|k: int| 0 <= k < 9 ==> -0x10_0000 <= #[trigger] m[k] <= 0x10_0000
}

/// Component `i` (0, 1 or 2) of a triple.
pub open spec fn tri(t: (int, int, int), i: int) -> int {
    if i == 0 {
        t.0
    } else if i == 1 {
        t.1
    } else {
        t.2
    }
}

/// `p` is a permutation of {0, 1, 2}.
pub open spec fn is_perm3(p: (int, int, int)) -> bool {
    &&& 0 <= p.0 < 3
    &&& 0 <= p.1 < 3
    &&& 0 <= p.2 < 3
    &&& p.0 != p.1
    &&& p.0 != p.2
    &&& p.1 != p.2
}

/// Every component of `s` is 1 or -1.
pub open spec fn is_sign3(s: (int, int, int)) -> bool {
    &&& (s.0 == 1 || s.0 == -1)
    &&& (s.1 == 1 || s.1 == -1)
    &&& (s.2 == 1 || s.2 == -1)
}

/// The matrix with `s_i` at row `i`, column `p_i`, and zeros elsewhere.
pub open spec fn signed_perm(p: (int, int, int), s: (int, int, int)) -> Seq<i64> {
    Seq::new(
        9,
        |k: int|
            if tri(p, k / 3) == k % 3 {
                tri(s, k / 3) as i64
            } else {
                0i64
            },
    )
}

/// The six permutations of {0, 1, 2}, in the order of `build_permutations`.
pub open spec fn perm_table(pi: int) -> (int, int, int) {
    if pi == 0 {
        (0, 1, 2)
    } else if pi == 1 {
        (0, 2, 1)
    } else if pi == 2 {
        (1, 0, 2)
    } else if pi == 3 {
        (1, 2, 0)
    } else if pi == 4 {
        (2, 0, 1)
    } else {
        (2, 1, 0)
    }
}

/// The eight sign triples, in the order of `build_all_signs`.
pub open spec fn sign_table(si: int) -> (int, int, int) {
    (
        if si < 4 {
            1
        } else {
            -1
        },
        if (si / 2) % 2 == 0 {
            1
        } else {
            -1
        },
        if si % 2 == 0 {
            1
        } else {
            -1
        },
    )
}

/// The `k`-th operation of O_h (`0 <= k < 48`) in generation order.
pub open spec fn oh_element(k: int) -> Seq<i64> {
    signed_perm(perm_table(k / 8), sign_table(k % 8))
}

pub open spec fn identity_spec() -> Seq<i64> {
    seq![1i64, 0, 0, 0, 1, 0, 0, 0, 1]
}

/// Matrix product of row-major 3×3 matrices.
pub open spec fn mat_mul_spec(a: Seq<i64>, b: Seq<i64>) -> Seq<i64> {
    Seq::new(
        9,
        |k: int|
            (a[3 * (k / 3)] * b[k % 3] + a[3 * (k / 3) + 1] * b[3 + k % 3] + a[3 * (k / 3) + 2]
                * b[6 + k % 3]) as i64,
    )
}

pub open spec fn transpose_spec(m: Seq<i64>) -> Seq<i64> {
    Seq::new(9, |k: int| m[3 * (k % 3) + k / 3])
}

pub open spec fn det_spec(m: Seq<i64>) -> int {
    m[0] * (m[4] * m[8] - m[5] * m[7]) - m[1] * (m[3] * m[8] - m[5] * m[6]) + m[2] * (m[3] * m[7]
        - m[4] * m[6])
}

/// Sum of the squares of the entries.
pub open spec fn norm_sq_spec(m: Seq<i64>) -> int {
    m[0] * m[0] + m[1] * m[1] + m[2] * m[2] + m[3] * m[3] + m[4] * m[4] + m[5] * m[5] + m[6]
        * m[6] + m[7] * m[7] + m[8] * m[8]
}

pub fn mat_identity() -> (r: Mat3)
    ensures
        r@ == identity_spec(),
{
    let r: Mat3 = [1, 0, 0, 0, 1, 0, 0, 0, 1];
    assert(r@ =~= identity_spec());
    r
}

/// Row `i` of `a` times column `j` of `b`, over the first `n` terms.
pub open spec fn dot_prefix(a: Seq<i64>, b: Seq<i64>, i: int, j: int, n: int) -> int
    decreases n,
{
    if n <= 0 {
        0
    } else {
        dot_prefix(a, b, i, j, n - 1) + a[3 * i + n - 1] * b[3 * (n - 1) + j]
    }
}

proof fn lemma_small_product(x: i64, y: i64)
    requires
        -0x10_0000 <= x <= 0x10_0000,
        -0x10_0000 <= y <= 0x10_0000,
    ensures
        -0x100_0000_0000 <= x * y <= 0x100_0000_0000,
{
    assert(-0x100_0000_0000 <= x * y <= 0x100_0000_0000) by (nonlinear_arith)
        requires
            -0x10_0000 <= x <= 0x10_0000,
            -0x10_0000 <= y <= 0x10_0000,
    ;
}

pub fn mat_mul(a: &Mat3, b: &Mat3) -> (r: Mat3)
    requires
        small(a@),
        small(b@),
    ensures
        r@ == mat_mul_spec(a@, b@),
{
    let mut r: Mat3 = [0; 9];
    for i in 0usize..3
        invariant
            small(a@),
            small(b@),
            forall|k: int| 0 <= k < 3 * i ==> #[trigger] r@[k] == mat_mul_spec(a@, b@)[k],
    {
        for j in 0usize..3
            invariant
                0 <= i < 3,
                small(a@),
                small(b@),
                forall|k: int| 0 <= k < 3 * i + j ==> #[trigger] r@[k] == mat_mul_spec(a@, b@)[k],
        {
            let mut s: i64 = 0;
            for k in 0usize..3
                invariant
                    0 <= i < 3,
                    0 <= j < 3,
                    small(a@),
                    small(b@),
                    s == dot_prefix(a@, b@, i as int, j as int, k as int),
                    -0x100_0000_0000 * k <= s <= 0x100_0000_0000 * k,
            {
                proof {
                    lemma_small_product(a@[3 * i + k], b@[3 * k + j]);
                }
                s = s + a[i * 3 + k] * b[k * 3 + j];
            }
            proof {
                let kk = 3 * i + j;
                assert(kk / 3 == i && kk % 3 == j);
                reveal_with_fuel(dot_prefix, 4);
                let ii = i as int;
                let jj = j as int;
                assert(s == a@[3 * ii] * b@[jj] + a@[3 * ii + 1] * b@[3 + jj] + a@[3 * ii + 2] * b@[6
                    + jj]);
                assert(s == mat_mul_spec(a@, b@)[kk]);
            }
            r[i * 3 + j] = s;
        }
    }
    assert(r@ =~= mat_mul_spec(a@, b@));
    r
}

pub fn mat_det(m: &Mat3) -> (d: i64)
    requires
        small(m@),
    ensures
        d == det_spec(m@),
{
    proof {
        assert(-0x10_0000 <= m@[0] <= 0x10_0000);
        assert(-0x10_0000 <= m@[1] <= 0x10_0000);
        assert(-0x10_0000 <= m@[2] <= 0x10_0000);
        assert(-0x10_0000 <= m@[3] <= 0x10_0000);
        assert(-0x10_0000 <= m@[4] <= 0x10_0000);
        assert(-0x10_0000 <= m@[5] <= 0x10_0000);
        assert(-0x10_0000 <= m@[6] <= 0x10_0000);
        assert(-0x10_0000 <= m@[7] <= 0x10_0000);
        assert(-0x10_0000 <= m@[8] <= 0x10_0000);
        lemma_small_product(m@[4], m@[8]);
        lemma_small_product(m@[5], m@[7]);
        lemma_small_product(m@[3], m@[8]);
        lemma_small_product(m@[5], m@[6]);
        lemma_small_product(m@[3], m@[7]);
        lemma_small_product(m@[4], m@[6]);
        let x = m@[4] * m@[8] - m@[5] * m@[7];
        let y = m@[3] * m@[8] - m@[5] * m@[6];
        let z = m@[3] * m@[7] - m@[4] * m@[6];
        assert(-0x2000_0000_0000_0000 <= m@[0] * x <= 0x2000_0000_0000_0000) by (nonlinear_arith)
            requires
                -0x10_0000 <= m@[0] <= 0x10_0000,
                -0x200_0000_0000 <= x <= 0x200_0000_0000,
        ;
        assert(-0x2000_0000_0000_0000 <= m@[1] * y <= 0x2000_0000_0000_0000) by (nonlinear_arith)
            requires
                -0x10_0000 <= m@[1] <= 0x10_0000,
                -0x200_0000_0000 <= y <= 0x200_0000_0000,
        ;
        assert(-0x2000_0000_0000_0000 <= m@[2] * z <= 0x2000_0000_0000_0000) by (nonlinear_arith)
            requires
                -0x10_0000 <= m@[2] <= 0x10_0000,
                -0x200_0000_0000 <= z <= 0x200_0000_0000,
        ;
    }
    m[0] * (m[4] * m[8] - m[5] * m[7]) - m[1] * (m[3] * m[8] - m[5] * m[6]) + m[2] * (m[3] * m[7]
        - m[4] * m[6])
}

pub fn mat_transpose(m: &Mat3) -> (r: Mat3)
    ensures
        r@ == transpose_spec(m@),
{
    let r: Mat3 = [m[0], m[3], m[6], m[1], m[4], m[7], m[2], m[5], m[8]];
    assert(r@ =~= transpose_spec(m@));
    r
}

pub fn mat_sub(a: &Mat3, b: &Mat3) -> (r: Mat3)
    requires
        small(a@),
        small(b@),
    ensures
        forall|k: int| 0 <= k < 9 ==> #[trigger] r@[k] == a@[k] - b@[k],
{
    let mut r: Mat3 = [0; 9];
    for i in 0usize..9
        invariant
            small(a@),
            small(b@),
            forall|k: int| 0 <= k < i ==> #[trigger] r@[k] == a@[k] - b@[k],
    {
        r[i] = a[i] - b[i];
    }
    r
}

/// Squared Frobenius norm.
pub fn mat_norm_sq(m: &Mat3) -> (r: i64)
    requires
        forall|k: int| 0 <= k < 9 ==> -0x20_0000 <= #[trigger] m@[k] <= 0x20_0000,
    ensures
        r == norm_sq_spec(m@),
{
    let mut s: i64 = 0;
    for i in 0usize..9
        invariant
            forall|k: int| 0 <= k < 9 ==> -0x20_0000 <= #[trigger] m@[k] <= 0x20_0000,
            0 <= s <= 0x400_0000_0000 * i,
            s == (if i > 0 { m@[0] * m@[0] } else { 0 }) + (if i > 1 { m@[1] * m@[1] } else { 0 }) + (
            if i > 2 { m@[2] * m@[2] } else { 0 }) + (if i > 3 { m@[3] * m@[3] } else { 0 }) + (if i
                > 4 { m@[4] * m@[4] } else { 0 }) + (if i > 5 { m@[5] * m@[5] } else { 0 }) + (if i
                > 6 { m@[6] * m@[6] } else { 0 }) + (if i > 7 { m@[7] * m@[7] } else { 0 }) + (if i
                > 8 { m@[8] * m@[8] } else { 0 }),
    {
        let x = m[i];
        assert(0 <= x * x <= 0x400_0000_0000) by (nonlinear_arith)
            requires
                -0x20_0000 <= x <= 0x20_0000,
        ;
        s = s + x * x;
    }
    s
}


/// Composition used by products of signed permutations: row `i` of the
/// product selects column `q[p[i]]`.
pub open spec fn compose3(p: (int, int, int), q: (int, int, int)) -> (int, int, int) {
    (tri(q, p.0), tri(q, p.1), tri(q, p.2))
}

/// Signs of the product of two signed permutations.
pub open spec fn sign_product(p: (int, int, int), s: (int, int, int), t: (int, int, int)) -> (
    int,
    int,
    int,
) {
    (s.0 * tri(t, p.0), s.1 * tri(t, p.1), s.2 * tri(t, p.2))
}

/// The product of two signed permutation matrices is the signed permutation
/// matrix of the composed permutation.
pub proof fn lemma_signed_perm_mul(
    p: (int, int, int),
    s: (int, int, int),
    q: (int, int, int),
    t: (int, int, int),
)
    requires
        is_perm3(p),
        is_sign3(s),
        is_perm3(q),
        is_sign3(t),
    ensures
        mat_mul_spec(signed_perm(p, s), signed_perm(q, t)) == signed_perm(
            compose3(p, q),
            sign_product(p, s, t),
        ),
        is_perm3(compose3(p, q)),
        is_sign3(sign_product(p, s, t)),
{
    let a = signed_perm(p, s);
    let b = signed_perm(q, t);
    let c = signed_perm(compose3(p, q), sign_product(p, s, t));
    assert forall|k: int| 0 <= k < 9 implies #[trigger] mat_mul_spec(a, b)[k] == c[k] by {
        let i = k / 3;
        let j = k % 3;
        assert(0 <= i < 3 && 0 <= j < 3);
        assert(a[3 * i] == if tri(p, i) == 0 { tri(s, i) as i64 } else { 0i64 });
        assert(a[3 * i + 1] == if tri(p, i) == 1 { tri(s, i) as i64 } else { 0i64 });
        assert(a[3 * i + 2] == if tri(p, i) == 2 { tri(s, i) as i64 } else { 0i64 });
        assert(b[j] == if tri(q, 0) == j { tri(t, 0) as i64 } else { 0i64 });
        assert(b[3 + j] == if tri(q, 1) == j { tri(t, 1) as i64 } else { 0i64 });
        assert(b[6 + j] == if tri(q, 2) == j { tri(t, 2) as i64 } else { 0i64 });
    }
    assert(mat_mul_spec(a, b) =~= c);
}

/// Every permutation of {0, 1, 2} is in the table.
pub proof fn lemma_perm_in_table(p: (int, int, int)) -> (pi: int)
    requires
        is_perm3(p),
    ensures
        0 <= pi < 6,
        perm_table(pi) == p,
{
    if p.0 == 0 {
        if p.1 == 1 {
            0
        } else {
            1
        }
    } else if p.0 == 1 {
        if p.1 == 0 {
            2
        } else {
            3
        }
    } else {
        if p.1 == 0 {
            4
        } else {
            5
        }
    }
}

/// Every sign triple is in the table.
pub proof fn lemma_sign_in_table(s: (int, int, int)) -> (si: int)
    requires
        is_sign3(s),
    ensures
        0 <= si < 8,
        sign_table(si) == s,
{
    (if s.0 == 1 { 0int } else { 4int }) + (if s.1 == 1 { 0int } else { 2int }) + (if s.2 == 1 {
        0int
    } else {
        1int
    })
}

/// Index `k < 48` picks a permutation and a sign triple.
pub proof fn lemma_tables_valid(k: int)
    requires
        0 <= k < 48,
    ensures
        is_perm3(perm_table(k / 8)),
        is_sign3(sign_table(k % 8)),
{
}

/// The operations of O_h are closed under composition.
pub proof fn lemma_oh_closure(i: int, j: int) -> (k: int)
    requires
        0 <= i < 48,
        0 <= j < 48,
    ensures
        0 <= k < 48,
        mat_mul_spec(oh_element(i), oh_element(j)) == oh_element(k),
{
    lemma_tables_valid(i);
    lemma_tables_valid(j);
    let p = perm_table(i / 8);
    let s = sign_table(i % 8);
    let q = perm_table(j / 8);
    let t = sign_table(j % 8);
    lemma_signed_perm_mul(p, s, q, t);
    let pi = lemma_perm_in_table(compose3(p, q));
    let si = lemma_sign_in_table(sign_product(p, s, t));
    let k = 8 * pi + si;
    assert(k / 8 == pi && k % 8 == si);
    k
}

/// The first operation is the identity.
pub proof fn lemma_oh_identity()
    ensures
        oh_element(0) == identity_spec(),
{
    assert(oh_element(0) =~= identity_spec());
}

/// Every operation is orthogonal: `Mᵀ · M = I`.
pub proof fn lemma_oh_orthogonal(k: int)
    requires
        0 <= k < 48,
    ensures
        mat_mul_spec(transpose_spec(oh_element(k)), oh_element(k)) == identity_spec(),
{
    lemma_tables_valid(k);
    let p = perm_table(k / 8);
    let s = sign_table(k % 8);
    let m = oh_element(k);
    let mt = transpose_spec(m);
    assert(s.0 * s.0 == 1 && s.1 * s.1 == 1 && s.2 * s.2 == 1);
    assert forall|e: int| 0 <= e < 9 implies #[trigger] mat_mul_spec(mt, m)[e]
        == identity_spec()[e] by {
        let i = e / 3;
        let j = e % 3;
        assert(mt[3 * i] == m[i]);
        assert(mt[3 * i + 1] == m[3 + i]);
        assert(mt[3 * i + 2] == m[6 + i]);
        let x0: int = if p.0 == i { s.0 } else { 0 };
        let x1: int = if p.1 == i { s.1 } else { 0 };
        let x2: int = if p.2 == i { s.2 } else { 0 };
        let y0: int = if p.0 == j { s.0 } else { 0 };
        let y1: int = if p.1 == j { s.1 } else { 0 };
        let y2: int = if p.2 == j { s.2 } else { 0 };
        assert(m[i] == x0 && m[3 + i] == x1 && m[6 + i] == x2);
        assert(m[j] == y0 && m[3 + j] == y1 && m[6 + j] == y2);
        assert(x0 * y0 == if p.0 == i && p.0 == j { 1int } else { 0int });
        assert(x1 * y1 == if p.1 == i && p.1 == j { 1int } else { 0int });
        assert(x2 * y2 == if p.2 == i && p.2 == j { 1int } else { 0int });
        assert(mat_mul_spec(mt, m)[e] == (x0 * y0 + x1 * y1 + x2 * y2) as i64);
    }
    assert(mat_mul_spec(mt, m) =~= identity_spec());
}

/// The 48 operations are pairwise distinct.
pub proof fn lemma_oh_distinct(i: int, j: int)
    requires
        0 <= i < 48,
        0 <= j < 48,
        i != j,
    ensures
        oh_element(i) != oh_element(j),
{
    lemma_tables_valid(i);
    lemma_tables_valid(j);
    let p = perm_table(i / 8);
    let s = sign_table(i % 8);
    let q = perm_table(j / 8);
    let t = sign_table(j % 8);
    let a = oh_element(i);
    let b = oh_element(j);
    if p != q {
        let r = if p.0 != q.0 {
            0int
        } else if p.1 != q.1 {
            1int
        } else {
            2int
        };
        let idx = 3 * r + tri(p, r);
        assert(idx / 3 == r && idx % 3 == tri(p, r));
        assert(a[idx] != b[idx]);
    } else {
        assert(i / 8 == j / 8) by {
            if i / 8 != j / 8 {
                assert(perm_table(i / 8) != perm_table(j / 8));
            }
        }
        assert(s != t);
        let r = if s.0 != t.0 {
            0int
        } else if s.1 != t.1 {
            1int
        } else {
            2int
        };
        let idx = 3 * r + tri(p, r);
        assert(idx / 3 == r && idx % 3 == tri(p, r));
        assert(a[idx] != b[idx]);
    }
}

/// Sign of the permutation `perm_table(pi)`.
pub open spec fn perm_parity(pi: int) -> int {
    if pi == 0 || pi == 3 || pi == 4 {
        1
    } else {
        -1
    }
}

/// `det(oh_element(k))` is the parity of its permutation times the product
/// of its signs.
pub proof fn lemma_oh_det(k: int)
    requires
        0 <= k < 48,
    ensures
        det_spec(oh_element(k)) == perm_parity(k / 8) * (sign_table(k % 8).0 * sign_table(
            k % 8,
        ).1 * sign_table(k % 8).2),
        det_spec(oh_element(k)) == 1 || det_spec(oh_element(k)) == -1,
{
    let pi = k / 8;
    let si = k % 8;
    let p = perm_table(pi);
    let s = sign_table(si);
    let m = oh_element(k);
    assert(m[0] == if p.0 == 0 { s.0 as i64 } else { 0i64 });
    assert(m[1] == if p.0 == 1 { s.0 as i64 } else { 0i64 });
    assert(m[2] == if p.0 == 2 { s.0 as i64 } else { 0i64 });
    assert(m[3] == if p.1 == 0 { s.1 as i64 } else { 0i64 });
    assert(m[4] == if p.1 == 1 { s.1 as i64 } else { 0i64 });
    assert(m[5] == if p.1 == 2 { s.1 as i64 } else { 0i64 });
    assert(m[6] == if p.2 == 0 { s.2 as i64 } else { 0i64 });
    assert(m[7] == if p.2 == 1 { s.2 as i64 } else { 0i64 });
    assert(m[8] == if p.2 == 2 { s.2 as i64 } else { 0i64 });
    let (a0, a1, a2) = s;
    assert(a0 == 1 || a0 == -1);
    assert(a1 == 1 || a1 == -1);
    assert(a2 == 1 || a2 == -1);
    let prod = a0 * a1 * a2;
    assert(prod == 1 || prod == -1) by (nonlinear_arith)
        requires
            prod == a0 * a1 * a2,
            a0 == 1 || a0 == -1,
            a1 == 1 || a1 == -1,
            a2 == 1 || a2 == -1,
    ;
    if pi == 0 {
        assert(det_spec(m) == a0 * (a1 * a2)) by (nonlinear_arith)
            requires
                m[0] == a0, m[1] == 0, m[2] == 0, m[3] == 0, m[4] == a1, m[5] == 0, m[6] == 0,
                m[7] == 0, m[8] == a2,
        ;
    } else if pi == 1 {
        assert(det_spec(m) == -(a0 * (a1 * a2))) by (nonlinear_arith)
            requires
                m[0] == a0, m[1] == 0, m[2] == 0, m[3] == 0, m[4] == 0, m[5] == a1, m[6] == 0,
                m[7] == a2, m[8] == 0,
        ;
    } else if pi == 2 {
        assert(det_spec(m) == -(a0 * (a1 * a2))) by (nonlinear_arith)
            requires
                m[0] == 0, m[1] == a0, m[2] == 0, m[3] == a1, m[4] == 0, m[5] == 0, m[6] == 0,
                m[7] == 0, m[8] == a2,
        ;
    } else if pi == 3 {
        assert(det_spec(m) == a0 * (a1 * a2)) by (nonlinear_arith)
            requires
                m[0] == 0, m[1] == a0, m[2] == 0, m[3] == 0, m[4] == 0, m[5] == a1, m[6] == a2,
                m[7] == 0, m[8] == 0,
        ;
    } else if pi == 4 {
        assert(det_spec(m) == a0 * (a1 * a2)) by (nonlinear_arith)
            requires
                m[0] == 0, m[1] == 0, m[2] == a0, m[3] == a1, m[4] == 0, m[5] == 0, m[6] == 0,
                m[7] == a2, m[8] == 0,
        ;
    } else {
        assert(det_spec(m) == -(a0 * (a1 * a2))) by (nonlinear_arith)
            requires
                m[0] == 0, m[1] == 0, m[2] == a0, m[3] == 0, m[4] == a1, m[5] == 0, m[6] == a2,
                m[7] == 0, m[8] == 0,
        ;
    }
    assert(a0 * (a1 * a2) == prod) by (nonlinear_arith)
        requires
            prod == a0 * a1 * a2,
    ;
}

/// Number of operations among the first `n` with determinant +1.
pub open spec fn proper_count(n: int) -> int
    decreases n,
{
    if n <= 0 {
        0
    } else {
        proper_count(n - 1) + if det_spec(oh_element(n - 1)) == 1 {
            1int
        } else {
            0int
        }
    }
}

proof fn lemma_proper_block(pi: int)
    requires
        0 <= pi < 6,
    ensures
        proper_count(8 * pi + 8) == proper_count(8 * pi) + 4,
{
    let b = 8 * pi;
    lemma_oh_det(b);
    lemma_oh_det(b + 1);
    lemma_oh_det(b + 2);
    lemma_oh_det(b + 3);
    lemma_oh_det(b + 4);
    lemma_oh_det(b + 5);
    lemma_oh_det(b + 6);
    lemma_oh_det(b + 7);
    assert((b + 1) / 8 == pi && (b + 1) % 8 == 1);
    assert((b + 2) / 8 == pi && (b + 2) % 8 == 2);
    assert((b + 3) / 8 == pi && (b + 3) % 8 == 3);
    assert((b + 4) / 8 == pi && (b + 4) % 8 == 4);
    assert((b + 5) / 8 == pi && (b + 5) % 8 == 5);
    assert((b + 6) / 8 == pi && (b + 6) % 8 == 6);
    assert((b + 7) / 8 == pi && (b + 7) % 8 == 7);
    assert(b / 8 == pi && b % 8 == 0);
    reveal_with_fuel(proper_count, 9);
}

/// Exactly 24 of the 48 operations are proper rotations (det = +1); the
/// other 24 have det = -1.
pub proof fn lemma_oh_proper_count()
    ensures
        proper_count(48) == 24,
{
    assert(proper_count(0) == 0);
    lemma_proper_block(0);
    lemma_proper_block(1);
    lemma_proper_block(2);
    lemma_proper_block(3);
    lemma_proper_block(4);
    lemma_proper_block(5);
}


/// The six permutations of {0, 1, 2}: identity, the three transpositions
/// and the two 3-cycles.
pub fn build_permutations() -> (r: [[usize; 3]; 6])
    ensures
        forall|pi: int|
            0 <= pi < 6 ==> (r@[pi]@[0] as int, r@[pi]@[1] as int, r@[pi]@[2] as int)
                == perm_table(pi),
{
    let r: [[usize; 3]; 6] = [[0, 1, 2], [0, 2, 1], [1, 0, 2], [1, 2, 0], [2, 0, 1], [2, 1, 0]];
    r
}

/// The eight sign triples with entries ±1.
pub fn build_all_signs() -> (r: [[i64; 3]; 8])
    ensures
        forall|si: int|
            0 <= si < 8 ==> (r@[si]@[0] as int, r@[si]@[1] as int, r@[si]@[2] as int)
                == sign_table(si),
{
    let r: [[i64; 3]; 8] = [
        [1, 1, 1],
        [1, 1, -1],
        [1, -1, 1],
        [1, -1, -1],
        [-1, 1, 1],
        [-1, 1, -1],
        [-1, -1, 1],
        [-1, -1, -1],
    ];
    r
}

/// The 48 operations of O_h: 6 permutations × 8 sign choices, in that
/// order. Of them 24 have determinant +1 and 24 determinant -1
/// (`lemma_oh_proper_count`).
pub fn generate_oh_group() -> (ops: Vec<Mat3>)
    ensures
        ops@.len() == 48,
        forall|k: int| 0 <= k < 48 ==> #[trigger] ops@[k]@ == oh_element(k),
{
    let perms = build_permutations();
    let signs = build_all_signs();
    let mut ops: Vec<Mat3> = Vec::with_capacity(48);
    for pi in 0usize..6
        invariant
            ops@.len() == 8 * pi,
            forall|k: int| 0 <= k < 8 * pi ==> #[trigger] ops@[k]@ == oh_element(k),
            forall|x: int|
                0 <= x < 6 ==> (perms@[x]@[0] as int, perms@[x]@[1] as int, perms@[x]@[2] as int)
                    == perm_table(x),
            forall|x: int|
                0 <= x < 8 ==> (signs@[x]@[0] as int, signs@[x]@[1] as int, signs@[x]@[2] as int)
                    == sign_table(x),
    {
        let p = perms[pi];
        for si in 0usize..8
            invariant
                0 <= pi < 6,
                p == perms@[pi as int],
                ops@.len() == 8 * pi + si,
                forall|k: int| 0 <= k < 8 * pi + si ==> #[trigger] ops@[k]@ == oh_element(k),
                forall|x: int|
                    0 <= x < 6 ==> (perms@[x]@[0] as int, perms@[x]@[1] as int, perms@[x]@[2] as int)
                        == perm_table(x),
                forall|x: int|
                    0 <= x < 8 ==> (signs@[x]@[0] as int, signs@[x]@[1] as int, signs@[x]@[2] as int)
                        == sign_table(x),
        {
            let sg = signs[si];
            let ghost pt = perm_table(pi as int);
            let ghost st = sign_table(si as int);
            let mut m: Mat3 = [0; 9];
            for i in 0usize..3
                invariant
                    0 <= pi < 6,
                    0 <= si < 8,
                    (p@[0] as int, p@[1] as int, p@[2] as int) == pt,
                    (sg@[0] as int, sg@[1] as int, sg@[2] as int) == st,
                    is_perm3(pt),
                    forall|k: int|
                        0 <= k < 9 ==> #[trigger] m@[k] == if k / 3 < i && tri(pt, k / 3) == k % 3 {
                            tri(st, k / 3) as i64
                        } else {
                            0i64
                        },
            {
                m[i * 3 + p[i]] = sg[i];
            }
            proof {
                let k0 = 8 * pi + si;
                assert(k0 / 8 == pi && k0 % 8 == si);
                assert(m@ =~= oh_element(k0 as int));
            }
            ops.push(m);
        }
    }
    ops
}

/// Number of operations of O_h.
pub fn oh_order() -> (n: usize)
    ensures
        n == 48,
{
    generate_oh_group().len()
}


/// Whether two matrices have the same entries.
pub fn mat_equal(a: &Mat3, b: &Mat3) -> (r: bool)
    ensures
        r == (a@ == b@),
{
    let mut i: usize = 0;
    while i < 9
        invariant
            i <= 9,
            forall|k: int| 0 <= k < i ==> a@[k] == b@[k],
        decreases 9 - i,
    {
        if a[i] != b[i] {
            return false;
        }
        i = i + 1;
    }
    assert(a@ =~= b@);
    true
}

pub open spec fn all_small(ops: Seq<Mat3>) -> bool {
    forall|k: int| 0 <= k < ops.len() ==> small(#[trigger] ops[k]@)
}

pub open spec fn is_orthogonal(m: Seq<i64>) -> bool {
    mat_mul_spec(transpose_spec(m), m) == identity_spec()
}

pub open spec fn has_unit_det(m: Seq<i64>) -> bool {
    det_spec(m) == 1 || det_spec(m) == -1
}

/// Some operation of `ops` equals `m`.
pub open spec fn contains_mat(ops: Seq<Mat3>, m: Seq<i64>) -> bool {
    exists|k: int| 0 <= k < ops.len() && #[trigger] ops[k]@ == m
}

/// The product `ops[i] · ops[j]` lies in `ops`.
pub open spec fn product_in(ops: Seq<Mat3>, i: int, j: int) -> bool {
    contains_mat(ops, mat_mul_spec(ops[i]@, ops[j]@))
}

/// `i` is the first index of an operation that is not orthogonal.
pub open spec fn first_not_orthogonal(ops: Seq<Mat3>, i: int) -> bool {
    &&& 0 <= i < ops.len()
    &&& !is_orthogonal(ops[i]@)
    &&& forall|j: int| 0 <= j < i ==> is_orthogonal(#[trigger] ops[j]@)
}

/// `i` is the first index of an operation whose determinant is not ±1.
pub open spec fn first_bad_det(ops: Seq<Mat3>, i: int) -> bool {
    &&& 0 <= i < ops.len()
    &&& !has_unit_det(ops[i]@)
    &&& forall|j: int| 0 <= j < i ==> has_unit_det(#[trigger] ops[j]@)
}

/// `(i, j)` is the first pair, in row-major order over `[0, 48)²`, whose
/// product is missing from `ops`.
pub open spec fn first_open_pair(ops: Seq<Mat3>, i: int, j: int) -> bool {
    &&& 0 <= i < 48
    &&& 0 <= j < 48
    &&& !product_in(ops, i, j)
    &&& forall|x: int, y: int|
        0 <= x < 48 && 0 <= y < 48 && (x < i || (x == i && y < j)) ==> #[trigger] product_in(
            ops,
            x,
            y,
        )
}

pub open spec fn group_ok(ops: Seq<Mat3>) -> bool {
    &&& contains_mat(ops, identity_spec())
    &&& forall|i: int| 0 <= i < ops.len() ==> is_orthogonal(#[trigger] ops[i]@)
    &&& forall|i: int| 0 <= i < ops.len() ==> has_unit_det(#[trigger] ops[i]@)
    &&& forall|i: int, j: int| 0 <= i < 48 && 0 <= j < 48 ==> #[trigger] product_in(ops, i, j)
}

pub open spec fn msg_no_identity() -> Seq<char> {
    "Identity not found"@
}

pub open spec fn msg_not_orthogonal(i: int) -> Seq<char> {
    "Matrix "@ + decimal(i as nat) + " is not orthogonal"@
}

pub open spec fn msg_bad_det(i: int, d: int) -> Seq<char> {
    "Matrix "@ + decimal(i as nat) + " has det = "@ + signed_decimal(d)
}

pub open spec fn msg_open_pair(i: int, j: int) -> Seq<char> {
    "Closure fails: "@ + decimal(i as nat) + " × "@ + decimal(j as nat) + " is not in the group"@
}

pub open spec fn msg_group_ok() -> Seq<char> {
    "Group O_h verified: 48 elements, orthogonal, closed, det = ±1"@
}

/// Checks that `ops` contains the identity, that every operation is
/// orthogonal with determinant ±1, and that the products of the first 48
/// operations stay in `ops`. Reports the first failure found.
#[verifier::spinoff_prover]
#[verifier::rlimit(40)]
pub fn verify_group(ops: &[Mat3]) -> (res: (bool, String))
    requires
        ops@.len() >= 48,
        all_small(ops@),
    ensures
        res.0 == group_ok(ops@),
        !contains_mat(ops@, identity_spec()) ==> res.1@ == msg_no_identity(),
        contains_mat(ops@, identity_spec()) && !(forall|i: int|
            0 <= i < ops@.len() ==> is_orthogonal(#[trigger] ops@[i]@)) ==> exists|i: int|
            first_not_orthogonal(ops@, i) && res.1@ == msg_not_orthogonal(i),
        contains_mat(ops@, identity_spec()) && (forall|i: int|
            0 <= i < ops@.len() ==> is_orthogonal(#[trigger] ops@[i]@)) && !(forall|i: int|
            0 <= i < ops@.len() ==> has_unit_det(#[trigger] ops@[i]@)) ==> exists|i: int|
            first_bad_det(ops@, i) && res.1@ == msg_bad_det(i, det_spec(ops@[i]@)),
        contains_mat(ops@, identity_spec()) && (forall|i: int|
            0 <= i < ops@.len() ==> is_orthogonal(#[trigger] ops@[i]@)) && (forall|i: int|
            0 <= i < ops@.len() ==> has_unit_det(#[trigger] ops@[i]@)) && !group_ok(ops@)
            ==> exists|i: int, j: int| first_open_pair(ops@, i, j) && res.1@ == msg_open_pair(i, j),
        group_ok(ops@) ==> res.1@ == msg_group_ok(),
{
    let n = ops.len();
    let id = mat_identity();
    // 1. The identity is in the group
    let mut has_id = false;
    let mut k: usize = 0;
    while k < n
        invariant
            n == ops@.len(),
            k <= n,
            id@ == identity_spec(),
            has_id == exists|x: int| 0 <= x < k && #[trigger] ops@[x]@ == identity_spec(),
        decreases n - k,
    {
        if mat_equal(&ops[k], &id) {
            has_id = true;
        }
        k = k + 1;
    }
    if !has_id {
        assert(!contains_mat(ops@, identity_spec()));
        return (false, String::from_str("Identity not found"));
    }
    // 2. All matrices are orthogonal: M^T M = I
    let mut i: usize = 0;
    while i < n
        invariant
            n == ops@.len(),
            i <= n,
            all_small(ops@),
            id@ == identity_spec(),
            contains_mat(ops@, identity_spec()),
            forall|x: int| 0 <= x < i ==> is_orthogonal(#[trigger] ops@[x]@),
        decreases n - i,
    {
        let m = ops[i];
        assert(small(ops@[i as int]@));
        let mt = mat_transpose(&m);
        assert(small(mt@)) by {
            assert forall|e: int| 0 <= e < 9 implies -0x10_0000 <= #[trigger] mt@[e] <= 0x10_0000 by {
                assert(mt@[e] == m@[3 * (e % 3) + e / 3]);
            }
        }
        let prod = mat_mul(&mt, &m);
        if !mat_equal(&prod, &id) {
            let mut s = String::from_str("Matrix ");
            push_decimal(&mut s, i as u128);
            s.append(" is not orthogonal");
            assert(first_not_orthogonal(ops@, i as int));
            assert(s@ =~= msg_not_orthogonal(i as int));
            return (false, s);
        }
        i = i + 1;
    }
    // 3. Determinant ±1
    let mut i: usize = 0;
    while i < n
        invariant
            n == ops@.len(),
            i <= n,
            all_small(ops@),
            contains_mat(ops@, identity_spec()),
            forall|x: int| 0 <= x < n ==> is_orthogonal(#[trigger] ops@[x]@),
            forall|x: int| 0 <= x < i ==> has_unit_det(#[trigger] ops@[x]@),
        decreases n - i,
    {
        assert(small(ops@[i as int]@));
        let d = mat_det(&ops[i]);
        if d != 1 && d != -1 {
            let mut s = String::from_str("Matrix ");
            push_decimal(&mut s, i as u128);
            s.append(" has det = ");
            push_signed(&mut s, d as i128);
            assert(first_bad_det(ops@, i as int));
            assert(s@ =~= msg_bad_det(i as int, det_spec(ops@[i as int]@)));
            return (false, s);
        }
        i = i + 1;
    }
    // 4. Closure under composition (48 × 48 products)
    let mut i: usize = 0;
    while i < 48
        invariant
            n == ops@.len(),
            n >= 48,
            i <= 48,
            all_small(ops@),
            contains_mat(ops@, identity_spec()),
            forall|x: int| 0 <= x < n ==> is_orthogonal(#[trigger] ops@[x]@),
            forall|x: int| 0 <= x < n ==> has_unit_det(#[trigger] ops@[x]@),
            forall|x: int, y: int| 0 <= x < i && 0 <= y < 48 ==> #[trigger] product_in(ops@, x, y),
        decreases 48 - i,
    {
        let mut j: usize = 0;
        while j < 48
            invariant
                n == ops@.len(),
                n >= 48,
                i < 48,
                j <= 48,
                all_small(ops@),
                contains_mat(ops@, identity_spec()),
                forall|x: int| 0 <= x < n ==> is_orthogonal(#[trigger] ops@[x]@),
                forall|x: int| 0 <= x < n ==> has_unit_det(#[trigger] ops@[x]@),
                forall|x: int, y: int|
                    0 <= x < 48 && 0 <= y < 48 && (x < i || (x == i && y < j)) ==> #[trigger] product_in(
                        ops@,
                        x,
                        y,
                    ),
            decreases 48 - j,
        {
            assert(small(ops@[i as int]@));
            assert(small(ops@[j as int]@));
            let prod = mat_mul(&ops[i], &ops[j]);
            let mut found = false;
            let mut k: usize = 0;
            while k < n
                invariant
                    n == ops@.len(),
                    k <= n,
                    found == exists|x: int| 0 <= x < k && #[trigger] ops@[x]@ == prod@,
                decreases n - k,
            {
                if mat_equal(&ops[k], &prod) {
                    found = true;
                }
                k = k + 1;
            }
            assert(found == product_in(ops@, i as int, j as int));
            if !found {
                let mut s = String::from_str("Closure fails: ");
                push_decimal(&mut s, i as u128);
                s.append(" × ");
                push_decimal(&mut s, j as u128);
                s.append(" is not in the group");
                assert(first_open_pair(ops@, i as int, j as int));
                assert(s@ =~= msg_open_pair(i as int, j as int));
                return (false, s);
            }
            j = j + 1;
        }
        i = i + 1;
    }
    (true, String::from_str("Group O_h verified: 48 elements, orthogonal, closed, det = ±1"))
}

/// Generates O_h and checks it with `verify_group`; the check always
/// passes.
pub fn oh_verify() -> (res: (bool, String))
    ensures
        res.0,
        res.1@ == msg_group_ok(),
{
    let ops = generate_oh_group();
    proof {
        assert forall|k: int| 0 <= k < ops@.len() implies small(#[trigger] ops@[k]@) by {
            assert(ops@[k]@ == oh_element(k));
        }
        lemma_oh_identity();
        assert(ops@[0]@ == identity_spec());
        assert forall|i: int| 0 <= i < ops@.len() implies is_orthogonal(#[trigger] ops@[i]@) by {
            lemma_oh_orthogonal(i);
        }
        assert forall|i: int| 0 <= i < ops@.len() implies has_unit_det(#[trigger] ops@[i]@) by {
            lemma_oh_det(i);
        }
        assert forall|i: int, j: int| 0 <= i < 48 && 0 <= j < 48 implies #[trigger] product_in(
            ops@,
            i,
            j,
        ) by {
            let k = lemma_oh_closure(i, j);
            assert(ops@[k]@ == oh_element(k));
        }
    }
    verify_group(ops.as_slice())
}

} // verus!
