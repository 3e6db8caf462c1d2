//! The 48 operations of the octahedral group O_h, each once, as the VPM-48
//! engine applies them to a braid word; the lattice points of a word; and
//! the test of whether an operation maps the point configuration onto
//! itself.
//!
//! The engine places the crossing `i` with generator `g` at
//! `(i mod 10, |g|, ±1)` in units of the lattice constant; every operation
//! has entries in `{-1, 0, 1}`, so the images are again lattice points and a
//! match within a tenth of the lattice constant is an exact match.

use vstd::prelude::*;
use vstd::multiset::Multiset;
use crate::braid::{abs_spec, negatable};
use crate::octahedral::{Mat3, generate_oh_group, lemma_oh_distinct, lemma_oh_identity, lemma_tables_valid, oh_element};

verus! {

/// Entry `(i, j)` of operation `k < 48`: the `k`-th element of O_h in the
/// order of `generate_oh_group`.
pub open spec fn op_entry(k: int, i: int, j: int) -> int {
    oh_element(k)[3 * i + j] as int
}

/// A symmetry operation: a 3×3 matrix with entries in `{-1, 0, 1}`.
#[derive(Clone, Copy)]
pub struct OhOp {
    pub matrix: [[i8; 3]; 3],
}

/// `op` has the entries of operation `k`.
pub open spec fn op_is(op: OhOp, k: int) -> bool {
    forall|i: int, j: int| 0 <= i < 3 && 0 <= j < 3 ==> #[trigger] op.matrix[i][j] == op_entry(k, i, j)
}

/// The row-major matrix `m` as rows of `i8`.
fn to_rows(m: &Mat3) -> (r: [[i8; 3]; 3])
    requires
        forall|e: int| 0 <= e < 9 ==> -1 <= #[trigger] m@[e] <= 1,
    ensures
        forall|i: int, j: int| 0 <= i < 3 && 0 <= j < 3 ==> #[trigger] r[i][j] == m@[3 * i + j],
{
    let r: [[i8; 3]; 3] = [
        [m[0] as i8, m[1] as i8, m[2] as i8],
        [m[3] as i8, m[4] as i8, m[5] as i8],
        [m[6] as i8, m[7] as i8, m[8] as i8],
    ];
    assert forall|i: int, j: int| 0 <= i < 3 && 0 <= j < 3 implies #[trigger] r[i][j] == m@[3 * i + j] by {
        if i == 0 {
        } else if i == 1 {
        } else {
        }
    }
    r
}

/// Operations with the entries of two different elements of O_h differ.
proof fn lemma_ops_distinct(a: OhOp, b: OhOp, k1: int, k2: int)
    requires
        0 <= k1 < 48,
        0 <= k2 < 48,
        k1 != k2,
        op_is(a, k1),
        op_is(b, k2),
    ensures
        a != b,
{
    lemma_oh_distinct(k1, k2);
    if a == b {
        assert forall|e: int| 0 <= e < 9 implies oh_element(k1)[e] == oh_element(k2)[e] by {
            let i = e / 3;
            let j = e % 3;
            assert(a.matrix[i][j] == op_entry(k1, i, j));
            assert(b.matrix[i][j] == op_entry(k2, i, j));
        }
        assert(oh_element(k1) =~= oh_element(k2));
    }
}

impl OhOp {
    /// The 48 operations of O_h, identity first, each once.
    pub fn generate_all() -> (ops: Vec<OhOp>)
        ensures
            ops@.len() == 48,
            forall|k: int| 0 <= k < 48 ==> op_is(#[trigger] ops@[k], k),
            forall|k1: int, k2: int|
                0 <= k1 < 48 && 0 <= k2 < 48 && k1 != k2 ==> #[trigger] ops@[k1] != #[trigger] ops@[k2],
    {
        let mats = generate_oh_group();
        let mut ops: Vec<OhOp> = Vec::with_capacity(48);
        let mut k: usize = 0;
        while k < 48
            invariant
                mats@.len() == 48,
                forall|q: int| 0 <= q < 48 ==> #[trigger] mats@[q]@ == oh_element(q),
                k <= 48,
                ops@.len() == k,
                forall|q: int| 0 <= q < k ==> op_is(#[trigger] ops@[q], q),
            decreases 48 - k,
        {
            proof {
                assert forall|e: int| 0 <= e < 9 implies -1 <= #[trigger] mats@[k as int]@[e] <= 1 by {
                    lemma_op_entry_unit(k as int, e / 3, e % 3);
                }
            }
            let m = to_rows(&mats[k]);
            ops.push(OhOp { matrix: m });
            k = k + 1;
        }
        assert forall|k1: int, k2: int|
            0 <= k1 < 48 && 0 <= k2 < 48 && k1 != k2 implies #[trigger] ops@[k1] != #[trigger] ops@[k2] by {
            lemma_ops_distinct(ops@[k1], ops@[k2], k1, k2);
        }
        ops
    }
}

/// Every entry of `op` is -1, 0 or 1.
pub open spec fn unit_entries(op: OhOp) -> bool {
    forall|i: int, j: int| 0 <= i < 3 && 0 <= j < 3 ==> -1 <= #[trigger] op.matrix[i][j] <= 1
}

/// Row `r` of `op` applied to `p`.
pub open spec fn apply_row(op: OhOp, r: int, p: (i64, i64, i64)) -> int {
    op.matrix[r][0] * p.0 + op.matrix[r][1] * p.1 + op.matrix[r][2] * p.2
}

/// The image of `p` under `op`.
pub open spec fn apply_spec(op: OhOp, p: (i64, i64, i64)) -> (i64, i64, i64) {
    (apply_row(op, 0, p) as i64, apply_row(op, 1, p) as i64, apply_row(op, 2, p) as i64)
}

/// Coordinates small enough that images under unit matrices fit in `i64`.
pub open spec fn small_point(p: (i64, i64, i64)) -> bool {
    -0x1_0000_0000_0000 <= p.0 <= 0x1_0000_0000_0000 && -0x1_0000_0000_0000 <= p.1
        <= 0x1_0000_0000_0000 && -0x1_0000_0000_0000 <= p.2 <= 0x1_0000_0000_0000
}

fn unit_times(m: i8, v: i64) -> (r: i64)
    requires
        -1 <= m <= 1,
        -0x1_0000_0000_0000 <= v <= 0x1_0000_0000_0000,
    ensures
        r == m * v,
        -0x1_0000_0000_0000 <= r <= 0x1_0000_0000_0000,
{
    if m == 1 {
        v
    } else if m == -1 {
        -v
    } else {
        0
    }
}

impl OhOp {
    /// The image of the lattice point `p`.
    pub fn apply(&self, p: (i64, i64, i64)) -> (r: (i64, i64, i64))
        requires
            unit_entries(*self),
            small_point(p),
        ensures
            r == apply_spec(*self, p),
    {
        let m = self.matrix;
        assert(-1 <= m[0][0] <= 1 && -1 <= m[0][1] <= 1 && -1 <= m[0][2] <= 1);
        assert(-1 <= m[1][0] <= 1 && -1 <= m[1][1] <= 1 && -1 <= m[1][2] <= 1);
        assert(-1 <= m[2][0] <= 1 && -1 <= m[2][1] <= 1 && -1 <= m[2][2] <= 1);
        let x = unit_times(m[0][0], p.0) + unit_times(m[0][1], p.1) + unit_times(m[0][2], p.2);
        let y = unit_times(m[1][0], p.0) + unit_times(m[1][1], p.1) + unit_times(m[1][2], p.2);
        let z = unit_times(m[2][0], p.0) + unit_times(m[2][1], p.1) + unit_times(m[2][2], p.2);
        (x, y, z)
    }
}

/// The lattice point of crossing `i` of the word `g`.
pub open spec fn lattice_point(g: Seq<i32>, i: int) -> (i64, i64, i64) {
    ((i % 10) as i64, abs_spec(g[i] as int) as i64, if g[i] > 0 {
        1i64
    } else {
        -1i64
    })
}

/// The lattice points of the crossings of `g`, in order.
pub open spec fn lattice_points(g: Seq<i32>) -> Seq<(i64, i64, i64)> {
    Seq::new(g.len(), |i: int| lattice_point(g, i))
}

/// The images of the lattice points of `g` under `op`.
pub open spec fn image_points(g: Seq<i32>, op: OhOp) -> Seq<(i64, i64, i64)> {
    Seq::new(g.len(), |i: int| apply_spec(op, lattice_point(g, i)))
}

/// `op` maps the (nonempty) point configuration of `g` onto itself: the
/// images are the points, counted with multiplicity.
pub open spec fn maps_onto_itself(g: Seq<i32>, op: OhOp) -> bool {
    g.len() > 0 && lattice_points(g).to_multiset() == image_points(g, op).to_multiset()
}

/// The points of `orig` marked in `used`, among the first `n`.
pub open spec fn picked(orig: Seq<(i64, i64, i64)>, used: Seq<bool>, n: nat) -> Multiset<(i64, i64, i64)>
    decreases n,
{
    if n == 0 {
        Multiset::empty()
    } else if used[n - 1] {
        picked(orig, used, (n - 1) as nat).insert(orig[n - 1])
    } else {
        picked(orig, used, (n - 1) as nat)
    }
}

/// The points of `orig` not marked in `used`, among the first `n`.
pub open spec fn unpicked(orig: Seq<(i64, i64, i64)>, used: Seq<bool>, n: nat) -> Multiset<(i64, i64, i64)>
    decreases n,
{
    if n == 0 {
        Multiset::empty()
    } else if !used[n - 1] {
        unpicked(orig, used, (n - 1) as nat).insert(orig[n - 1])
    } else {
        unpicked(orig, used, (n - 1) as nat)
    }
}

proof fn lemma_picked_split(orig: Seq<(i64, i64, i64)>, used: Seq<bool>, n: nat)
    requires
        n <= orig.len(),
    ensures
        picked(orig, used, n).add(unpicked(orig, used, n)) == orig.subrange(0, n as int).to_multiset(),
    decreases n,
{
    broadcast use vstd::multiset::group_multiset_axioms;
    broadcast use vstd::seq_lib::group_to_multiset_ensures;

    if n == 0 {
        assert(orig.subrange(0, 0) =~= Seq::<(i64, i64, i64)>::empty());
        assert(picked(orig, used, 0).add(unpicked(orig, used, 0)) =~= Multiset::empty());
    } else {
        lemma_picked_split(orig, used, (n - 1) as nat);
        assert(orig.subrange(0, n as int) =~= orig.subrange(0, n - 1).push(orig[n - 1]));
        assert(picked(orig, used, n).add(unpicked(orig, used, n)) =~= picked(
            orig,
            used,
            (n - 1) as nat,
        ).add(unpicked(orig, used, (n - 1) as nat)).insert(orig[n - 1]));
    }
}

proof fn lemma_pick_one(orig: Seq<(i64, i64, i64)>, used: Seq<bool>, n: nat, j: int)
    requires
        0 <= j < n,
        n <= used.len(),
        !used[j],
    ensures
        picked(orig, used.update(j, true), n) == picked(orig, used, n).insert(orig[j]),
    decreases n,
{
    broadcast use vstd::multiset::group_multiset_axioms;

    let u2 = used.update(j, true);
    if j == n - 1 {
        assert(picked(orig, u2, (n - 1) as nat) == picked(orig, used, (n - 1) as nat)) by {
            lemma_picked_same_prefix(orig, used, u2, (n - 1) as nat);
        }
    } else {
        lemma_pick_one(orig, used, (n - 1) as nat, j);
        assert(u2[n - 1] == used[n - 1]);
        assert(picked(orig, u2, n) =~= picked(orig, used, n).insert(orig[j]));
    }
}

proof fn lemma_picked_same_prefix(orig: Seq<(i64, i64, i64)>, u1: Seq<bool>, u2: Seq<bool>, n: nat)
    requires
        n <= u1.len(),
        n <= u2.len(),
        forall|i: int| 0 <= i < n ==> u1[i] == u2[i],
    ensures
        picked(orig, u1, n) == picked(orig, u2, n),
    decreases n,
{
    if n > 0 {
        lemma_picked_same_prefix(orig, u1, u2, (n - 1) as nat);
    }
}

proof fn lemma_unpicked_absent(orig: Seq<(i64, i64, i64)>, used: Seq<bool>, n: nat, v: (i64, i64, i64))
    requires
        n <= used.len(),
        n <= orig.len(),
        forall|j: int| 0 <= j < n && !used[j] ==> orig[j] != v,
    ensures
        unpicked(orig, used, n).count(v) == 0,
    decreases n,
{
    broadcast use vstd::multiset::group_multiset_axioms;

    if n > 0 {
        lemma_unpicked_absent(orig, used, (n - 1) as nat, v);
    }
}

proof fn lemma_prefix_count(s: Seq<(i64, i64, i64)>, m: int, v: (i64, i64, i64))
    requires
        0 <= m <= s.len(),
    ensures
        s.subrange(0, m).to_multiset().count(v) <= s.to_multiset().count(v),
    decreases s.len() - m,
{
    broadcast use vstd::multiset::group_multiset_axioms;
    broadcast use vstd::seq_lib::group_to_multiset_ensures;

    if m == s.len() {
        assert(s.subrange(0, m) =~= s);
    } else {
        lemma_prefix_count(s, m + 1, v);
        assert(s.subrange(0, m + 1) =~= s.subrange(0, m).push(s[m]));
    }
}

/// Whether `trans` is a rearrangement of `orig`: each point of `trans` is
/// matched to the first unused equal point of `orig`.
pub fn is_equivalent_configuration(orig: &Vec<(i64, i64, i64)>, trans: &Vec<(i64, i64, i64)>) -> (r: bool)
    ensures
        r == (orig@.len() == trans@.len() && orig@.len() > 0 && orig@.to_multiset()
            == trans@.to_multiset()),
{
    broadcast use vstd::multiset::group_multiset_axioms;
    broadcast use vstd::seq_lib::group_to_multiset_ensures;

    if orig.len() != trans.len() || orig.len() == 0 {
        return false;
    }
    let n = orig.len();
    let mut used: Vec<bool> = Vec::with_capacity(n);
    let mut j: usize = 0;
    while j < n
        invariant
            j <= n,
            used@.len() == j,
            forall|i: int| 0 <= i < j ==> !#[trigger] used@[i],
        decreases n - j,
    {
        used.push(false);
        j = j + 1;
    }
    proof {
        assert(picked(orig@, used@, n as nat) == Multiset::<(i64, i64, i64)>::empty()) by {
            lemma_picked_none(orig@, used@, n as nat);
        }
        assert(trans@.subrange(0, 0) =~= Seq::<(i64, i64, i64)>::empty());
    }
    let mut k: usize = 0;
    while k < n
        invariant
            n == orig@.len(),
            n == trans@.len(),
            n > 0,
            k <= n,
            used@.len() == n,
            picked(orig@, used@, n as nat) == trans@.subrange(0, k as int).to_multiset(),
        decreases n - k,
    {
        let tp = trans[k];
        let mut found = false;
        let mut jj: usize = 0;
        proof {
            assert(trans@.subrange(0, k + 1) =~= trans@.subrange(0, k as int).push(tp));
            vstd::seq_lib::to_multiset_build(trans@.subrange(0, k as int), tp);
            assert(trans@.subrange(0, k as int).push(tp).to_multiset() =~= trans@.subrange(
                0,
                k as int,
            ).to_multiset().insert(tp));
        }
        while jj < n
            invariant_except_break
                !found,
                picked(orig@, used@, n as nat) == trans@.subrange(0, k as int).to_multiset(),
                forall|i: int| 0 <= i < jj && !used@[i] ==> orig@[i] != tp,
            invariant
                n == orig@.len(),
                n == trans@.len(),
                k < n,
                tp == trans@[k as int],
                used@.len() == n,
                jj <= n,
                trans@.subrange(0, k + 1) == trans@.subrange(0, k as int).push(tp),
                trans@.subrange(0, k + 1).to_multiset() == trans@.subrange(0, k as int).to_multiset().insert(tp),
            ensures
                used@.len() == n,
                found ==> picked(orig@, used@, n as nat) == trans@.subrange(0, k + 1).to_multiset(),
                !found ==> picked(orig@, used@, n as nat) == trans@.subrange(0, k as int).to_multiset(),
                !found ==> forall|i: int| 0 <= i < n && !used@[i] ==> orig@[i] != tp,
            decreases n - jj,
        {
            let o = orig[jj];
            if !used[jj] && o.0 == tp.0 && o.1 == tp.1 && o.2 == tp.2 {
                proof {
                    lemma_pick_one(orig@, used@, n as nat, jj as int);
                    assert(orig@[jj as int] == tp);
                }
                used.set(jj, true);
                found = true;
                break;
            }
            jj = jj + 1;
        }
        if !found {
            proof {
                lemma_unpicked_absent(orig@, used@, n as nat, tp);
                lemma_picked_split(orig@, used@, n as nat);
                assert(orig@.subrange(0, n as int) =~= orig@);
                lemma_prefix_count(trans@, k + 1, tp);
                let pk = picked(orig@, used@, n as nat);
                let uk = unpicked(orig@, used@, n as nat);
                assert(orig@.to_multiset().count(tp) == pk.count(tp) + uk.count(tp));
                assert(trans@.subrange(0, k + 1).to_multiset().count(tp) == pk.count(tp) + 1);
                assert(orig@.to_multiset().count(tp) < trans@.to_multiset().count(tp));
            }
            return false;
        }
        k = k + 1;
    }
    proof {
        assert(trans@.subrange(0, n as int) =~= trans@);
        assert(orig@.subrange(0, n as int) =~= orig@);
        lemma_picked_split(orig@, used@, n as nat);
        let u = unpicked(orig@, used@, n as nat);
        assert(orig@.to_multiset().len() == n);
        assert(trans@.to_multiset().len() == n);
        assert(u.len() == 0);
        assert(u =~= Multiset::empty());
        assert(picked(orig@, used@, n as nat).add(u) =~= picked(orig@, used@, n as nat));
    }
    true
}

proof fn lemma_picked_none(orig: Seq<(i64, i64, i64)>, used: Seq<bool>, n: nat)
    requires
        n <= used.len(),
        forall|i: int| 0 <= i < n ==> !#[trigger] used[i],
    ensures
        picked(orig, used, n) == Multiset::<(i64, i64, i64)>::empty(),
    decreases n,
{
    if n > 0 {
        lemma_picked_none(orig, used, (n - 1) as nat);
    }
}

/// The images of the lattice points of `g` under operation `k`.
pub open spec fn image_points_k(g: Seq<i32>, k: int) -> Seq<(i64, i64, i64)> {
    Seq::new(
        g.len(),
        |i: int|
            {
                let p = lattice_point(g, i);
                (
                    (op_entry(k, 0, 0) * p.0 + op_entry(k, 0, 1) * p.1 + op_entry(k, 0, 2) * p.2) as i64,
                    (op_entry(k, 1, 0) * p.0 + op_entry(k, 1, 1) * p.1 + op_entry(k, 1, 2) * p.2) as i64,
                    (op_entry(k, 2, 0) * p.0 + op_entry(k, 2, 1) * p.1 + op_entry(k, 2, 2) * p.2) as i64,
                )
            },
    )
}

/// Operation `k` maps the (nonempty) point configuration of `g` onto itself.
pub open spec fn symmetric_under(g: Seq<i32>, k: int) -> bool {
    g.len() > 0 && lattice_points(g).to_multiset() == image_points_k(g, k).to_multiset()
}

/// How many of the operations `0..n` map the configuration of `g` onto
/// itself.
pub open spec fn symmetry_count(g: Seq<i32>, n: nat) -> nat
    decreases n,
{
    if n == 0 {
        0
    } else {
        symmetry_count(g, (n - 1) as nat) + if symmetric_under(g, n - 1) {
            1nat
        } else {
            0nat
        }
    }
}

/// Every entry of every operation is -1, 0 or 1.
pub proof fn lemma_op_entry_unit(k: int, i: int, j: int)
    requires
        0 <= k < 48,
        0 <= i < 3,
        0 <= j < 3,
    ensures
        -1 <= op_entry(k, i, j) <= 1,
{
    lemma_tables_valid(k);
    let e = 3 * i + j;
    assert(e / 3 == i && e % 3 == j);
}

proof fn lemma_op_is_unit(op: OhOp, k: int)
    requires
        0 <= k < 48,
        op_is(op, k),
    ensures
        unit_entries(op),
{
    assert forall|i: int, j: int| 0 <= i < 3 && 0 <= j < 3 implies -1 <= #[trigger] op.matrix[i][j] <= 1 by {
        lemma_op_entry_unit(k, i, j);
    }
}

proof fn lemma_images_agree(g: Seq<i32>, op: OhOp, k: int)
    requires
        op_is(op, k),
    ensures
        image_points(g, op) == image_points_k(g, k),
{
    assert(op.matrix[0][0] == op_entry(k, 0, 0) && op.matrix[0][1] == op_entry(k, 0, 1) && op.matrix[0][2] == op_entry(k, 0, 2));
    assert(op.matrix[1][0] == op_entry(k, 1, 0) && op.matrix[1][1] == op_entry(k, 1, 1) && op.matrix[1][2] == op_entry(k, 1, 2));
    assert(op.matrix[2][0] == op_entry(k, 2, 0) && op.matrix[2][1] == op_entry(k, 2, 1) && op.matrix[2][2] == op_entry(k, 2, 2));
    assert(image_points(g, op) =~= image_points_k(g, k));
}

/// Every nonempty word is symmetric under the identity, operation 0, so at
/// least one of the 48 operations maps it onto itself.
pub proof fn lemma_identity_symmetry(g: Seq<i32>)
    requires
        g.len() > 0,
    ensures
        symmetric_under(g, 0),
        symmetry_count(g, 48) >= 1,
{
    lemma_oh_identity();
    assert(op_entry(0, 0, 0) == 1 && op_entry(0, 0, 1) == 0 && op_entry(0, 0, 2) == 0);
    assert(op_entry(0, 1, 0) == 0 && op_entry(0, 1, 1) == 1 && op_entry(0, 1, 2) == 0);
    assert(op_entry(0, 2, 0) == 0 && op_entry(0, 2, 1) == 0 && op_entry(0, 2, 2) == 1);
    assert(image_points_k(g, 0) =~= lattice_points(g));
    lemma_symmetry_count_at_least(g, 48);
}

proof fn lemma_symmetry_count_at_least(g: Seq<i32>, n: nat)
    requires
        1 <= n,
        symmetric_under(g, 0),
    ensures
        symmetry_count(g, n) >= 1,
    decreases n,
{
    if n > 1 {
        lemma_symmetry_count_at_least(g, (n - 1) as nat);
    }
}

impl crate::braid::BraidWord {
    /// The lattice points of the crossings.
    pub fn lattice_points(&self) -> (pts: Vec<(i64, i64, i64)>)
        requires
            negatable(self.generators@),
        ensures
            pts@ == lattice_points(self.generators@),
            forall|i: int| 0 <= i < pts@.len() ==> small_point(#[trigger] pts@[i]),
    {
        let n = self.generators.len();
        let mut pts: Vec<(i64, i64, i64)> = Vec::with_capacity(n);
        let mut i: usize = 0;
        while i < n
            invariant
                n == self.generators@.len(),
                negatable(self.generators@),
                i <= n,
                pts@.len() == i,
                forall|j: int| 0 <= j < i ==> #[trigger] pts@[j] == lattice_point(self.generators@, j),
                forall|j: int| 0 <= j < i ==> small_point(#[trigger] pts@[j]),
            decreases n - i,
        {
            let g = self.generators[i];
            assert(g > i32::MIN);
            let x = (i % 10) as i64;
            let y: i64 = if g < 0 {
                -(g as i64)
            } else {
                g as i64
            };
            let z: i64 = if g > 0 {
                1
            } else {
                -1
            };
            pts.push((x, y, z));
            i = i + 1;
        }
        assert(pts@ =~= lattice_points(self.generators@));
        pts
    }

    /// Whether `op` maps the point configuration of the word onto itself.
    pub fn check_oh_invariance(&self, op: &OhOp) -> (r: bool)
        requires
            negatable(self.generators@),
            unit_entries(*op),
        ensures
            r == maps_onto_itself(self.generators@, *op),
    {
        if self.generators.len() == 0 {
            return false;
        }
        let points = self.lattice_points();
        let mut transformed: Vec<(i64, i64, i64)> = Vec::with_capacity(points.len());
        let mut i: usize = 0;
        while i < points.len()
            invariant
                points@ == lattice_points(self.generators@),
                forall|j: int| 0 <= j < points@.len() ==> small_point(#[trigger] points@[j]),
                unit_entries(*op),
                i <= points@.len(),
                transformed@.len() == i,
                forall|j: int| 0 <= j < i ==> #[trigger] transformed@[j] == apply_spec(*op, points@[j]),
            decreases points@.len() - i,
        {
            let t = op.apply(points[i]);
            transformed.push(t);
            i = i + 1;
        }
        assert(transformed@ =~= image_points(self.generators@, *op));
        is_equivalent_configuration(&points, &transformed)
    }

    /// How many of the 48 operations map the word's configuration onto
    /// itself.
    pub fn symmetric_op_count(&self) -> (c: usize)
        requires
            negatable(self.generators@),
        ensures
            c == symmetry_count(self.generators@, 48),
    {
        let ops = OhOp::generate_all();
        let mut valid: usize = 0;
        let mut k: usize = 0;
        while k < 48
            invariant
                ops@.len() == 48,
                forall|q: int| 0 <= q < 48 ==> op_is(#[trigger] ops@[q], q),
                negatable(self.generators@),
                k <= 48,
                valid == symmetry_count(self.generators@, k as nat),
                valid <= k,
            decreases 48 - k,
        {
            let op = ops[k];
            proof {
                assert(op_is(ops@[k as int], k as int));
                lemma_op_is_unit(op, k as int);
                lemma_images_agree(self.generators@, op, k as int);
            }
            if self.check_oh_invariance(&op) {
                valid = valid + 1;
            }
            k = k + 1;
        }
        valid
    }
}

} // verus!
