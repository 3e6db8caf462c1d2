//! Braid words over the generators `±1, ±2, ...` (σ_k and its inverse),
//! the particle patterns of the VPM-48 engine, and the reduction of words by
//! cancelling adjacent pairs and applying the braid relation.

use vstd::prelude::*;
use vstd::string::*;

verus! {

/// Signed generator at position `i` of a pattern that cycles through the
/// strands `1..=strands` and flips sign every `block` positions.
pub open spec fn alternating_at(strands: nat, block: nat, i: nat) -> int {
    ((i % strands) + 1) * if (i / block) % 2 == 0 {
        1int
    } else {
        -1int
    }
}

fn alternating_pattern(n: usize, strands: usize, block: usize) -> (braid: Vec<i32>)
    requires
        1 <= strands <= 1000,
        1 <= block,
    ensures
        braid@.len() == n,
        forall|i: int| 0 <= i < n ==> #[trigger] braid@[i] == alternating_at(
            strands as nat,
            block as nat,
            i as nat,
        ),
{
    let mut braid: Vec<i32> = Vec::with_capacity(n);
    let mut i: usize = 0;
    while i < n
        invariant
            i <= n,
            1 <= strands <= 1000,
            1 <= block,
            braid@.len() == i,
            forall|j: int| 0 <= j < i ==> #[trigger] braid@[j] == alternating_at(
                strands as nat,
                block as nat,
                j as nat,
            ),
        decreases n - i,
    {
        let strand = ((i % strands) + 1) as i32;
        let sign: i32 = if (i / block) % 2 == 0 {
            1
        } else {
            -1
        };
        braid.push(strand * sign);
        i = i + 1;
    }
    braid
}

/// The electron: the single crossing σ₁.
pub fn generar_patron_electron() -> (braid: Vec<i32>)
    ensures
        braid@ == seq![1i32],
{
    let braid = vec![1i32];
    assert(braid@ =~= seq![1i32]);
    braid
}

/// The 15-crossing motif repeated by the muon pattern.
pub open spec fn muon_motif() -> Seq<i32> {
    seq![1i32, 2i32, -1i32, 2i32, 3i32, -2i32, 1i32, -3i32, 2i32, 1i32, -2i32, 3i32, 4i32, -3i32, 4i32]
}

/// The muon: 207 crossings cycling through the muon motif.
pub fn generar_patron_muon() -> (braid: Vec<i32>)
    ensures
        braid@.len() == 207,
        forall|i: int| 0 <= i < 207 ==> #[trigger] braid@[i] == muon_motif()[i % 15],
{
    let pattern: [i32; 15] = [1, 2, -1, 2, 3, -2, 1, -3, 2, 1, -2, 3, 4, -3, 4];
    assert(pattern@ =~= muon_motif());
    let mut braid: Vec<i32> = Vec::with_capacity(207);
    let mut i: usize = 0;
    while i < 207
        invariant
            i <= 207,
            pattern@ == muon_motif(),
            braid@.len() == i,
            forall|j: int| 0 <= j < i ==> #[trigger] braid@[j] == muon_motif()[j % 15],
        decreases 207 - i,
    {
        braid.push(pattern[i % 15]);
        i = i + 1;
    }
    braid
}

/// The proton: 1836 crossings over 4 strands, sign flipping every 4.
pub fn generar_patron_proton() -> (braid: Vec<i32>)
    ensures
        braid@.len() == 1836,
        forall|i: int| 0 <= i < 1836 ==> #[trigger] braid@[i] == alternating_at(4, 4, i as nat),
{
    alternating_pattern(1836, 4, 4)
}

/// The neutron: the proton pattern followed by σ₂ σ₃⁻¹.
pub fn generar_patron_neutron() -> (braid: Vec<i32>)
    ensures
        braid@.len() == 1838,
        forall|i: int| 0 <= i < 1836 ==> #[trigger] braid@[i] == alternating_at(4, 4, i as nat),
        braid@[1836] == 2,
        braid@[1837] == -3,
{
    let mut braid = generar_patron_proton();
    braid.push(2);
    braid.push(-3);
    braid
}

/// The tau: 3477 crossings over 5 strands, sign flipping every 3.
pub fn generar_patron_tau() -> (braid: Vec<i32>)
    ensures
        braid@.len() == 3477,
        forall|i: int| 0 <= i < 3477 ==> #[trigger] braid@[i] == alternating_at(5, 3, i as nat),
{
    alternating_pattern(3477, 5, 3)
}

/// The W boson: 15 563 000 crossings over 10 strands, sign flipping every 5.
pub fn generar_patron_boson_w() -> (braid: Vec<i32>)
    ensures
        braid@.len() == 15_563_000,
        forall|i: int|
            0 <= i < 15_563_000 ==> #[trigger] braid@[i] == alternating_at(10, 5, i as nat),
{
    alternating_pattern(15_563_000, 10, 5)
}

/// The Z boson: 19 996 000 crossings over 8 strands, sign flipping every 4.
pub fn generar_patron_boson_z() -> (braid: Vec<i32>)
    ensures
        braid@.len() == 19_996_000,
        forall|i: int|
            0 <= i < 19_996_000 ==> #[trigger] braid@[i] == alternating_at(8, 4, i as nat),
{
    alternating_pattern(19_996_000, 8, 4)
}

/// The Higgs: 37 445 000 crossings over 12 strands, sign flipping every 6.
pub fn generar_patron_higgs() -> (braid: Vec<i32>)
    ensures
        braid@.len() == 37_445_000,
        forall|i: int|
            0 <= i < 37_445_000 ==> #[trigger] braid@[i] == alternating_at(12, 6, i as nat),
{
    alternating_pattern(37_445_000, 12, 6)
}

/// Generic pattern: `cruces` crossings cycling through the strands, with
/// alternating signs.
pub fn generar_patron_generico(cruces: usize, strands: usize) -> (braid: Vec<i32>)
    requires
        1 <= strands <= i32::MAX,
    ensures
        braid@.len() == cruces,
        forall|i: int| 0 <= i < cruces ==> #[trigger] braid@[i] == alternating_at(strands as nat, 1, i as nat),
{
    let mut braid: Vec<i32> = Vec::with_capacity(cruces);
    let mut i: usize = 0;
    while i < cruces
        invariant
            i <= cruces,
            1 <= strands <= i32::MAX,
            braid@.len() == i,
            forall|j: int| 0 <= j < i ==> #[trigger] braid@[j] == alternating_at(strands as nat, 1, j as nat),
        decreases cruces - i,
    {
        let r = i % strands;
        assert(r < strands);
        let base = r as i32 + 1;
        assert(1 <= base <= i32::MAX);
        let g = if i % 2 == 0 {
            base
        } else {
            -base
        };
        assert((i as nat / 1) % 2 == i % 2);
        assert(g == alternating_at(strands as nat, 1, i as nat)) by {
            if i % 2 == 0 {
                assert((r + 1) * 1int == r + 1);
            } else {
                assert((r + 1) * -1int == -(r + 1));
            }
        }
        braid.push(g);
        i = i + 1;
    }
    braid
}


/// The cancellation rules on adjacent generators: equal pairs `g, g`
/// (`equal_pairs`) or inverse pairs `g, -g`.
pub open spec fn cancels(equal_pairs: bool, x: int, y: int) -> bool {
    if equal_pairs {
        x == y
    } else {
        x == -y
    }
}

/// Pushes `x` on a stack of generators, or pops the top when it cancels
/// with `x`.
pub open spec fn push_cancel(equal_pairs: bool, stack: Seq<i32>, x: i32) -> Seq<i32> {
    if stack.len() > 0 && cancels(equal_pairs, stack.last() as int, x as int) {
        stack.drop_last()
    } else {
        stack.push(x)
    }
}

/// Feeds the word `w` through `push_cancel`, starting from `stack`.
pub open spec fn cancel_onto(equal_pairs: bool, stack: Seq<i32>, w: Seq<i32>) -> Seq<i32>
    decreases w.len(),
{
    if w.len() == 0 {
        stack
    } else {
        cancel_onto(equal_pairs, push_cancel(equal_pairs, stack, w[0]), w.drop_first())
    }
}

/// The word `w` with cancelling adjacent pairs removed repeatedly, left to
/// right, until none is left.
pub open spec fn cancel_pairs(equal_pairs: bool, w: Seq<i32>) -> Seq<i32> {
    cancel_onto(equal_pairs, seq![], w)
}

/// No two adjacent generators of `w` cancel.
pub open spec fn pair_free(equal_pairs: bool, w: Seq<i32>) -> bool {
    forall|i: int| 0 <= i < w.len() - 1 ==> !cancels(equal_pairs, #[trigger] w[i] as int, w[i + 1] as int)
}

/// No generator is `i32::MIN`, so every generator has a negation and an
/// absolute value.
pub open spec fn negatable(w: Seq<i32>) -> bool {
    forall|i: int| 0 <= i < w.len() ==> #[trigger] w[i] > i32::MIN
}

/// The strand test of `a` and `b` stays within `i32`: both have an absolute
/// value, and the strand one above is only formed where the test has not
/// already been decided (equal strands first, then `|a| + 1 == |b|`, then
/// `|b| + 1 == |a|`).
pub open spec fn strand_pair_defined(a: i32, b: i32) -> bool {
    &&& a > i32::MIN
    &&& b > i32::MIN
    &&& {
        let g1 = abs_spec(a as int);
        let g2 = abs_spec(b as int);
        g1 == g2 || (g1 < i32::MAX && (g1 + 1 == g2 || g2 < i32::MAX))
    }
}

/// Every generator has absolute value below `i32::MAX`, so that the strand
/// index one above it is still an `i32`.
pub open spec fn strand_bounded(w: Seq<i32>) -> bool {
    forall|i: int| 0 <= i < w.len() ==> -i32::MAX < #[trigger] w[i] < i32::MAX
}

/// Stack and remaining input of the left-to-right cancellation scan when it
/// stands at index `i` of `g`.
pub open spec fn scan_stack(g: Seq<i32>, i: int) -> Seq<i32> {
    if g.len() == 0 {
        seq![]
    } else {
        g.subrange(0, i + 1)
    }
}

pub open spec fn scan_rest(g: Seq<i32>, i: int) -> Seq<i32> {
    if g.len() == 0 {
        seq![]
    } else {
        g.subrange(i + 1, g.len() as int)
    }
}

/// One step of the scan preserves the word that the stack and the rest
/// reduce to.
proof fn lemma_scan_step(eq: bool, g: Seq<i32>, i: int, g2: Seq<i32>, i2: int)
    requires
        0 <= i,
        i + 1 < g.len(),
        pair_free(eq, scan_stack(g, i)),
        (cancels(eq, g[i] as int, g[i + 1] as int) && g2 == g.remove(i).remove(i) && i2 == if i > 0 {
            i - 1
        } else {
            0
        }) || (!cancels(eq, g[i] as int, g[i + 1] as int) && g2 == g && i2 == i + 1),
    ensures
        cancel_onto(eq, scan_stack(g2, i2), scan_rest(g2, i2)) == cancel_onto(
            eq,
            scan_stack(g, i),
            scan_rest(g, i),
        ),
        pair_free(eq, scan_stack(g2, i2)),
        g2.len() == 0 ==> i2 == 0,
        g2.len() > 0 ==> i2 < g2.len(),
{
    let st = scan_stack(g, i);
    let rs = scan_rest(g, i);
    assert(rs.len() > 0);
    assert(rs[0] == g[i + 1]);
    assert(st.last() == g[i]);
    assert(cancel_onto(eq, st, rs) == cancel_onto(eq, push_cancel(eq, st, rs[0]), rs.drop_first()));
    if cancels(eq, g[i] as int, g[i + 1] as int) {
        assert(push_cancel(eq, st, rs[0]) =~= st.drop_last());
        if i > 0 {
            assert(scan_stack(g2, i2) =~= st.drop_last());
            assert(scan_rest(g2, i2) =~= rs.drop_first());
        } else {
            assert(st.drop_last() =~= seq![]);
            if g2.len() == 0 {
                assert(rs.drop_first() =~= seq![]);
            } else {
                let r2 = rs.drop_first();
                assert(r2[0] == g2[0]);
                assert(push_cancel(eq, seq![], r2[0]) =~= seq![g2[0]]);
                assert(cancel_onto(eq, seq![], r2) == cancel_onto(eq, push_cancel(eq, seq![], r2[0]), r2.drop_first()));
                assert(scan_stack(g2, 0) =~= seq![g2[0]]);
                assert(scan_rest(g2, 0) =~= r2.drop_first());
            }
        }
    } else {
        assert(push_cancel(eq, st, rs[0]) =~= st.push(g[i + 1]));
        assert(scan_stack(g2, i2) =~= st.push(g[i + 1]));
        assert(scan_rest(g2, i2) =~= rs.drop_first());
    }
}

/// A pair-free word is left unchanged by the cancellation scan.
pub proof fn lemma_cancel_onto_free(eq: bool, stack: Seq<i32>, w: Seq<i32>)
    requires
        pair_free(eq, stack + w),
    ensures
        cancel_onto(eq, stack, w) == stack + w,
    decreases w.len(),
{
    if w.len() > 0 {
        if stack.len() > 0 {
            assert((stack + w)[stack.len() - 1] == stack.last());
            assert((stack + w)[stack.len() as int] == w[0]);
        }
        assert(push_cancel(eq, stack, w[0]) =~= stack.push(w[0]));
        assert(stack.push(w[0]) + w.drop_first() =~= stack + w);
        lemma_cancel_onto_free(eq, stack.push(w[0]), w.drop_first());
    } else {
        assert(stack + w =~= stack);
    }
}

/// Cancelling twice gives the same word as cancelling once.
pub proof fn lemma_cancel_idempotent(eq: bool, w: Seq<i32>)
    requires
        pair_free(eq, cancel_pairs(eq, w)),
    ensures
        cancel_pairs(eq, cancel_pairs(eq, w)) == cancel_pairs(eq, w),
{
    let r = cancel_pairs(eq, w);
    assert(seq![] + r =~= r);
    lemma_cancel_onto_free(eq, seq![], r);
}

/// A braid word: its generators, its number of strands and the residue
/// of its length modulo 48 after reduction.
pub struct BraidWord {
    pub generators: Vec<i32>,
    pub num_strands: usize,
    pub particle_type: String,
    pub residuo: usize,
}

impl BraidWord {
    /// Removes adjacent inverse pairs `g, -g` (second Reidemeister move),
    /// stepping back after each removal. Returns whether any pair was
    /// removed.
    pub fn apply_r2(&mut self) -> (changed: bool)
        requires
            negatable(old(self).generators@),
        ensures
            final(self).generators@ == cancel_pairs(false, old(self).generators@),
            pair_free(false, final(self).generators@),
            negatable(final(self).generators@),
            strand_bounded(old(self).generators@) ==> strand_bounded(final(self).generators@),
            final(self).num_strands == old(self).num_strands,
            final(self).residuo == old(self).residuo,
            final(self).particle_type == old(self).particle_type,
            changed == (final(self).generators@.len() < old(self).generators@.len()),
    {
        let ghost o = self.generators@;
        let mut i: usize = 0;
        let mut changed = false;
        proof {
            if o.len() > 0 {
                assert(scan_rest(o, 0) =~= o.drop_first());
                assert(scan_stack(o, 0) =~= seq![o[0]]);
                assert(push_cancel(false, seq![], o[0]) =~= seq![o[0]]);
            } else {
                assert(scan_stack(o, 0) =~= seq![]);
            }
        }
        while i < self.generators.len() && i + 1 < self.generators.len()
            invariant
                self.num_strands == old(self).num_strands,
                self.residuo == old(self).residuo,
                self.particle_type == old(self).particle_type,
                o == old(self).generators@,
                self.generators@.len() <= o.len(),
                i <= self.generators@.len(),
                negatable(self.generators@),
                strand_bounded(o) ==> strand_bounded(self.generators@),
                self.generators@.len() == 0 ==> i == 0,
                self.generators@.len() > 0 ==> i < self.generators@.len(),
                pair_free(false, scan_stack(self.generators@, i as int)),
                cancel_pairs(false, o) == cancel_onto(
                    false,
                    scan_stack(self.generators@, i as int),
                    scan_rest(self.generators@, i as int),
                ),
                changed == (self.generators@.len() < o.len()),
            decreases 2 * self.generators@.len() - i,
        {
            let ghost g = self.generators@;
            if self.generators[i] == -self.generators[i + 1] {
                self.generators.remove(i);
                self.generators.remove(i);
                changed = true;
                let ghost i0 = i as int;
                if i > 0 {
                    i = i - 1;
                }
                proof {
                    lemma_scan_step(false, g, i0, self.generators@, i as int);
                    assert forall|k: int| 0 <= k < self.generators@.len() implies #[trigger] self.generators@[k]
                        == if k < i0 { g[k] } else { g[k + 2] } by {
                    }
                    assert forall|k: int| 0 <= k < self.generators@.len() implies #[trigger] self.generators@[k]
                        > i32::MIN by {
                        assert(self.generators@[k] == if k < i0 { g[k] } else { g[k + 2] });
                    }
                    if strand_bounded(o) {
                        assert forall|k: int| 0 <= k < self.generators@.len() implies -i32::MAX < #[trigger] self.generators@[k]
                            < i32::MAX by {
                            assert(self.generators@[k] == if k < i0 { g[k] } else { g[k + 2] });
                        }
                    }
                }
            } else {
                proof {
                    lemma_scan_step(false, g, i as int, g, i + 1);
                }
                i = i + 1;
            }
        }
        proof {
            if self.generators@.len() > 0 {
                assert(scan_stack(self.generators@, i as int) =~= self.generators@);
                assert(scan_rest(self.generators@, i as int) =~= seq![]);
            } else {
                assert(scan_stack(self.generators@, i as int) =~= self.generators@);
            }
        }
        changed
    }

    /// Whether the generators at `idx1` and `idx2` act on the same or on
    /// neighbouring strands; `false` when an index is out of range.
    pub fn is_same_strand_pair(&self, idx1: usize, idx2: usize) -> (r: bool)
        requires
            idx1 < self.generators@.len() && idx2 < self.generators@.len() ==> strand_pair_defined(
                self.generators@[idx1 as int],
                self.generators@[idx2 as int],
            ),
        ensures
            r == (idx1 < self.generators@.len() && idx2 < self.generators@.len() && {
                let g1 = abs_spec(self.generators@[idx1 as int] as int);
                let g2 = abs_spec(self.generators@[idx2 as int] as int);
                g1 == g2 || g1 + 1 == g2 || g2 + 1 == g1
            }),
    {
        if idx1 >= self.generators.len() || idx2 >= self.generators.len() {
            return false;
        }
        let g1 = abs_i32(self.generators[idx1]);
        let g2 = abs_i32(self.generators[idx2]);
        g1 == g2 || g1 + 1 == g2 || g2 + 1 == g1
    }

    /// Removes adjacent equal pairs `g, g` acting on the same or neighbouring
    /// strands (first Reidemeister move), stepping back after each removal.
    /// Returns whether any pair was removed.
    pub fn apply_r1(&mut self) -> (changed: bool)
        requires
            negatable(old(self).generators@),
        ensures
            final(self).generators@ == cancel_pairs(true, old(self).generators@),
            pair_free(true, final(self).generators@),
            negatable(final(self).generators@),
            strand_bounded(old(self).generators@) ==> strand_bounded(final(self).generators@),
            final(self).num_strands == old(self).num_strands,
            final(self).residuo == old(self).residuo,
            final(self).particle_type == old(self).particle_type,
            changed == (final(self).generators@.len() < old(self).generators@.len()),
    {
        let ghost o = self.generators@;
        let mut i: usize = 0;
        let mut changed = false;
        proof {
            if o.len() > 0 {
                assert(scan_rest(o, 0) =~= o.drop_first());
                assert(scan_stack(o, 0) =~= seq![o[0]]);
                assert(push_cancel(true, seq![], o[0]) =~= seq![o[0]]);
            } else {
                assert(scan_stack(o, 0) =~= seq![]);
            }
        }
        while i < self.generators.len() && i + 1 < self.generators.len()
            invariant
                self.num_strands == old(self).num_strands,
                self.residuo == old(self).residuo,
                self.particle_type == old(self).particle_type,
                o == old(self).generators@,
                self.generators@.len() <= o.len(),
                i <= self.generators@.len(),
                negatable(self.generators@),
                strand_bounded(o) ==> strand_bounded(self.generators@),
                self.generators@.len() == 0 ==> i == 0,
                self.generators@.len() > 0 ==> i < self.generators@.len(),
                pair_free(true, scan_stack(self.generators@, i as int)),
                cancel_pairs(true, o) == cancel_onto(
                    true,
                    scan_stack(self.generators@, i as int),
                    scan_rest(self.generators@, i as int),
                ),
                changed == (self.generators@.len() < o.len()),
            decreases 2 * self.generators@.len() - i,
        {
            let ghost g = self.generators@;
            if self.generators[i] == self.generators[i + 1] {
                if self.is_same_strand_pair(i, i + 1) {
                    self.generators.remove(i);
                    self.generators.remove(i);
                    changed = true;
                    let ghost i0 = i as int;
                    if i > 0 {
                        i = i - 1;
                    }
                    proof {
                        lemma_scan_step(true, g, i0, self.generators@, i as int);
                        assert forall|k: int| 0 <= k < self.generators@.len() implies #[trigger] self.generators@[k]
                            == if k < i0 { g[k] } else { g[k + 2] } by {}
                        assert forall|k: int| 0 <= k < self.generators@.len() implies #[trigger] self.generators@[k]
                            > i32::MIN by {
                            if k >= i0 {
                                assert(g[k + 2] > i32::MIN);
                            }
                        }
                        if strand_bounded(o) {
                            assert forall|k: int| 0 <= k < self.generators@.len() implies -i32::MAX
                                < #[trigger] self.generators@[k] < i32::MAX by {
                                if k >= i0 {
                                    assert(g[k + 2] < i32::MAX);
                                }
                            }
                        }
                    }
                } else {
                    proof {
                        lemma_scan_step(true, g, i as int, g, i + 1);
                    }
                    i = i + 1;
                }
            } else {
                proof {
                    lemma_scan_step(true, g, i as int, g, i + 1);
                }
                i = i + 1;
            }
        }
        proof {
            if self.generators@.len() > 0 {
                assert(scan_stack(self.generators@, i as int) =~= self.generators@);
                assert(scan_rest(self.generators@, i as int) =~= seq![]);
            } else {
                assert(scan_stack(self.generators@, i as int) =~= self.generators@);
            }
        }
        changed
    }
}

pub open spec fn abs_spec(x: int) -> int {
    if x < 0 {
        -x
    } else {
        x
    }
}

fn abs_i32(x: i32) -> (r: i32)
    requires
        x > i32::MIN,
    ensures
        r == abs_spec(x as int),
{
    if x < 0 {
        -x
    } else {
        x
    }
}


/// `w[i], w[i+1], w[i+2]` has the shape `a, b, a` with `|a| = |b| - 1`,
/// where the braid relation rewrites it to `b, a, b`.
pub open spec fn r3_site(w: Seq<i32>, i: int) -> bool {
    &&& 0 <= i
    &&& i + 2 < w.len()
    &&& w[i] == w[i + 2]
    &&& abs_spec(w[i] as int) == abs_spec(w[i + 1] as int) - 1
}

/// The word after rewriting its first braid-relation site, and whether a
/// site was found.
pub open spec fn r3_rewrite(w: Seq<i32>) -> (Seq<i32>, bool) {
    if exists|i: int| r3_site(w, i) {
        let i = choose|i: int| r3_site(w, i) && forall|j: int| 0 <= j < i ==> !#[trigger] r3_site(w, j);
        (w.update(i, w[i + 1]).update(i + 1, w[i]).update(i + 2, w[i + 1]), true)
    } else {
        (w, false)
    }
}

/// One round of the reduction: cancel inverse pairs, then equal pairs, and
/// only when neither removed anything, apply the braid relation once.
pub open spec fn reduce_round(w: Seq<i32>) -> (Seq<i32>, bool) {
    let w1 = cancel_pairs(false, w);
    let w2 = cancel_pairs(true, w1);
    if w1.len() < w.len() || w2.len() < w1.len() {
        (w2, true)
    } else {
        r3_rewrite(w2)
    }
}

/// The word after `n` rounds.
pub open spec fn reduce_rounds(w: Seq<i32>, n: nat) -> Seq<i32>
    decreases n,
{
    if n == 0 {
        w
    } else {
        reduce_round(reduce_rounds(w, (n - 1) as nat)).0
    }
}

proof fn lemma_push_cancel_pair_free(eq: bool, stack: Seq<i32>, x: i32)
    requires
        pair_free(eq, stack),
    ensures
        pair_free(eq, push_cancel(eq, stack, x)),
{
    let r = push_cancel(eq, stack, x);
    if stack.len() > 0 && cancels(eq, stack.last() as int, x as int) {
        assert forall|i: int| 0 <= i < r.len() - 1 implies !cancels(eq, #[trigger] r[i] as int, r[i + 1] as int) by {
            assert(r[i] == stack[i] && r[i + 1] == stack[i + 1]);
        }
    } else {
        assert forall|i: int| 0 <= i < r.len() - 1 implies !cancels(eq, #[trigger] r[i] as int, r[i + 1] as int) by {
            if i + 1 < stack.len() {
                assert(r[i] == stack[i] && r[i + 1] == stack[i + 1]);
            }
        }
    }
}

proof fn lemma_cancel_onto_pair_free(eq: bool, stack: Seq<i32>, w: Seq<i32>)
    requires
        pair_free(eq, stack),
    ensures
        pair_free(eq, cancel_onto(eq, stack, w)),
    decreases w.len(),
{
    if w.len() > 0 {
        lemma_push_cancel_pair_free(eq, stack, w[0]);
        lemma_cancel_onto_pair_free(eq, push_cancel(eq, stack, w[0]), w.drop_first());
    }
}

/// The cancellation leaves no cancelling adjacent pair, and cancelling again
/// changes nothing.
pub proof fn lemma_cancel_pairs_normal(eq: bool, w: Seq<i32>)
    ensures
        pair_free(eq, cancel_pairs(eq, w)),
        cancel_pairs(eq, cancel_pairs(eq, w)) == cancel_pairs(eq, w),
{
    lemma_cancel_onto_pair_free(eq, seq![], w);
    lemma_cancel_idempotent(eq, w);
}

impl BraidWord {
    /// Applies the braid relation `a b a -> b a b` (with `|a| = |b| - 1`) at
    /// the first site where it fits. Returns whether a site was found.
    pub fn apply_r3_search(&mut self) -> (found: bool)
        requires
            negatable(old(self).generators@),
        ensures
            (final(self).generators@, found) == r3_rewrite(old(self).generators@),
            final(self).num_strands == old(self).num_strands,
            final(self).residuo == old(self).residuo,
            final(self).particle_type == old(self).particle_type,
            negatable(final(self).generators@),
            strand_bounded(old(self).generators@) ==> strand_bounded(final(self).generators@),
    {
        let ghost o = self.generators@;
        let n = self.generators.len();
        let end = if n >= 2 { n - 2 } else { 0 };
        let mut i: usize = 0;
        while i < end
            invariant
                o == self.generators@,
                o == old(self).generators@,
                self.num_strands == old(self).num_strands,
                self.residuo == old(self).residuo,
                self.particle_type == old(self).particle_type,
                n == o.len(),
                end == if n >= 2 { n - 2 } else { 0 },
                i <= end,
                negatable(o),
                forall|j: int| 0 <= j < i ==> !#[trigger] r3_site(o, j),
            decreases end - i,
        {
            let a = self.generators[i];
            let b = self.generators[i + 1];
            let c = self.generators[i + 2];
            if a == c && abs_i32(a) == abs_i32(b) - 1 {
                self.generators.set(i, b);
                self.generators.set(i + 1, a);
                self.generators.set(i + 2, b);
                proof {
                    assert(r3_site(o, i as int));
                    let k = choose|k: int| r3_site(o, k) && forall|j: int| 0 <= j < k ==> !#[trigger] r3_site(o, j);
                    assert(k == i) by {
                        if k < i {
                            assert(!r3_site(o, k));
                        }
                        if k > i {
                            assert(!r3_site(o, i as int));
                        }
                    }
                    let ii = i as int;
                    assert(self.generators@ =~= o.update(ii, o[ii + 1]).update(ii + 1, o[ii]).update(
                        ii + 2,
                        o[ii + 1],
                    ));
                    assert forall|k: int| 0 <= k < self.generators@.len() implies #[trigger] self.generators@[k]
                        > i32::MIN by {
                        if k == ii || k == ii + 2 {
                            assert(self.generators@[k] == o[ii + 1]);
                        } else if k == ii + 1 {
                            assert(self.generators@[k] == o[ii]);
                        } else {
                            assert(self.generators@[k] == o[k]);
                        }
                    }
                    if strand_bounded(o) {
                        assert forall|k: int| 0 <= k < self.generators@.len() implies -i32::MAX
                            < #[trigger] self.generators@[k] < i32::MAX by {
                            if k == ii || k == ii + 2 {
                                assert(self.generators@[k] == o[ii + 1]);
                            } else if k == ii + 1 {
                                assert(self.generators@[k] == o[ii]);
                            } else {
                                assert(self.generators@[k] == o[k]);
                            }
                        }
                    }
                }
                return true;
            }
            i = i + 1;
        }
        proof {
            assert forall|j: int| !r3_site(o, j) by {
                if 0 <= j < end {
                } else {
                }
            }
        }
        false
    }
}


pub open spec fn round_changes(w: Seq<i32>, m: nat) -> bool {
    reduce_round(reduce_rounds(w, m)).1
}

/// `r` is what the reduction makes of `o`: the word after the first round
/// that changes nothing, or after 1000 rounds.
pub open spec fn reduction_of(o: Seq<i32>, r: Seq<i32>) -> bool {
    exists|n: nat|
        1 <= n <= 1000 && r == reduce_rounds(o, n) && (n == 1000 || !round_changes(o, (n - 1) as nat))
            && forall|m: nat| 1 <= m < n ==> #[trigger] round_changes(o, (m - 1) as nat)
}

impl BraidWord {
    /// A word on `num_strands` strands; a known particle name as hint
    /// replaces the generators by that particle's pattern.
    pub fn new(generators: Vec<i32>, num_strands: usize, particle_hint: Option<String>) -> (b: Self)
        ensures
            b.num_strands == num_strands,
            b.residuo == 0,
            b.particle_type@ == "Desconocida"@,
            b.generators@ == match particle_hint {
                Some(h) => if h@ == "electron"@ {
                    electron_spec()
                } else if h@ == "muon"@ {
                    muon_spec()
                } else if h@ == "proton"@ {
                    proton_spec()
                } else if h@ == "neutron"@ {
                    neutron_spec()
                } else if h@ == "tau"@ {
                    tau_spec()
                } else {
                    generators@
                },
                None => generators@,
            },
    {
        let mut braid = BraidWord {
            generators,
            num_strands,
            particle_type: String::from_str("Desconocida"),
            residuo: 0,
        };
        match particle_hint {
            Some(hint) => {
                if str_eq(hint.as_str(), "electron") {
                    braid.generators = generar_patron_electron();
                } else if str_eq(hint.as_str(), "muon") {
                    braid.generators = generar_patron_muon();
                    assert(braid.generators@ =~= muon_spec());
                } else if str_eq(hint.as_str(), "proton") {
                    braid.generators = generar_patron_proton();
                    assert(braid.generators@ =~= proton_spec());
                } else if str_eq(hint.as_str(), "neutron") {
                    braid.generators = generar_patron_neutron();
                    assert(braid.generators@ =~= neutron_spec());
                } else if str_eq(hint.as_str(), "tau") {
                    braid.generators = generar_patron_tau();
                    assert(braid.generators@ =~= tau_spec());
                }
            },
            None => {},
        }
        braid
    }

    /// Residue of the word length modulo 48, as set by `reduce`.
    pub fn get_residuo_value(&self) -> (r: usize)
        ensures
            r == self.residuo,
    {
        self.residuo
    }

    /// Runs reduction rounds (inverse pairs, equal pairs, then the braid
    /// relation when nothing cancelled) until a round changes nothing or
    /// 1000 rounds have run; then records the length modulo 48.
    pub fn reduce(&mut self)
        requires
            negatable(old(self).generators@),
        ensures
            reduction_of(old(self).generators@, final(self).generators@),
            final(self).residuo == final(self).generators@.len() % 48,
            final(self).num_strands == old(self).num_strands,
            final(self).particle_type == old(self).particle_type,
            negatable(final(self).generators@),
            strand_bounded(old(self).generators@) ==> strand_bounded(final(self).generators@),
    {
        let ghost o = self.generators@;
        let mut changed = true;
        let mut iter: usize = 0;
        let max_iter: usize = 1000;
        while changed && iter < max_iter
            invariant
                o == old(self).generators@,
                self.num_strands == old(self).num_strands,
                self.particle_type == old(self).particle_type,
                max_iter == 1000,
                iter <= 1000,
                negatable(self.generators@),
                strand_bounded(o) ==> strand_bounded(self.generators@),
                self.generators@ == reduce_rounds(o, iter as nat),
                iter == 0 ==> changed,
                iter >= 1 ==> changed == round_changes(o, (iter - 1) as nat),
                forall|m: nat| 1 <= m < iter ==> #[trigger] round_changes(o, (m - 1) as nat),
            decreases 1000 - iter,
        {
            let ghost w = self.generators@;
            proof {
                assert forall|m: nat| 1 <= m < iter + 1 implies #[trigger] round_changes(o, (m - 1) as nat) by {
                    if m == iter {
                    }
                }
            }
            changed = false;
            let removed_r2 = self.apply_r2();
            changed = changed || removed_r2;
            let removed_r1 = self.apply_r1();
            changed = changed || removed_r1;
            if !changed {
                let found_r3 = self.apply_r3_search();
                changed = changed || found_r3;
            }
            iter += 1;
            proof {
                assert(reduce_rounds(o, iter as nat) == reduce_round(w).0);
            }
        }
        self.residuo = self.generators.len() % 48;
    }
}

pub open spec fn electron_spec() -> Seq<i32> {
    seq![1i32]
}

pub open spec fn muon_spec() -> Seq<i32> {
    Seq::new(207, |i: int| muon_motif()[i % 15])
}

pub open spec fn proton_spec() -> Seq<i32> {
    Seq::new(1836, |i: int| alternating_at(4, 4, i as nat) as i32)
}

pub open spec fn neutron_spec() -> Seq<i32> {
    proton_spec() + seq![2i32, -3i32]
}

pub open spec fn tau_spec() -> Seq<i32> {
    Seq::new(3477, |i: int| alternating_at(5, 3, i as nat) as i32)
}

/// Equality of two strings.
pub fn str_eq(a: &str, b: &str) -> (r: bool)
    ensures
        r == (a@ == b@),
{
    let n = a.unicode_len();
    if n != b.unicode_len() {
        return false;
    }
    let mut i: usize = 0;
    while i < n
        invariant
            n == a@.len(),
            n == b@.len(),
            i <= n,
            forall|k: int| 0 <= k < i ==> a@[k] == b@[k],
        decreases n - i,
    {
        if a.get_char(i) != b.get_char(i) {
            return false;
        }
        i = i + 1;
    }
    assert(a@ =~= b@);
    true
}

/// No adjacent inverse pair, no adjacent equal pair and no braid-relation
/// site.
pub open spec fn normal_form(w: Seq<i32>) -> bool {
    pair_free(false, w) && pair_free(true, w) && forall|i: int| !#[trigger] r3_site(w, i)
}

proof fn lemma_cancel_onto_len(eq: bool, stack: Seq<i32>, w: Seq<i32>)
    ensures
        cancel_onto(eq, stack, w).len() <= stack.len() + w.len(),
        cancel_onto(eq, stack, w).len() == stack.len() + w.len() ==> cancel_onto(eq, stack, w)
            == stack + w,
    decreases w.len(),
{
    if w.len() == 0 {
        assert(stack + w =~= stack);
    } else {
        let next = push_cancel(eq, stack, w[0]);
        lemma_cancel_onto_len(eq, next, w.drop_first());
        if !(stack.len() > 0 && cancels(eq, stack.last() as int, w[0] as int)) {
            assert(next + w.drop_first() =~= stack + w);
        }
    }
}

proof fn lemma_cancel_pairs_same_len(eq: bool, w: Seq<i32>)
    ensures
        cancel_pairs(eq, w).len() <= w.len(),
        cancel_pairs(eq, w).len() == w.len() ==> cancel_pairs(eq, w) == w,
{
    lemma_cancel_onto_len(eq, seq![], w);
    assert(seq![] + w =~= w);
}

/// A reduction round changes nothing exactly when the word is in normal
/// form, and then it returns the word as it was.
pub proof fn lemma_round_fixed_iff_normal(w: Seq<i32>)
    ensures
        !reduce_round(w).1 <==> normal_form(w),
        !reduce_round(w).1 ==> reduce_round(w).0 == w,
{
    let w1 = cancel_pairs(false, w);
    let w2 = cancel_pairs(true, w1);
    lemma_cancel_pairs_same_len(false, w);
    lemma_cancel_pairs_same_len(true, w1);
    lemma_cancel_pairs_normal(false, w);
    lemma_cancel_pairs_normal(true, w1);
    if !reduce_round(w).1 {
        assert(w1 == w && w2 == w1);
        if exists|i: int| r3_site(w2, i) {
            assert(r3_rewrite(w2).1);
        }
    }
    if normal_form(w) {
        assert(seq![] + w =~= w);
        lemma_cancel_onto_free(false, seq![], w);
        assert(w1 == w);
        lemma_cancel_onto_free(true, seq![], w);
        assert(w2 == w);
        assert(!(exists|i: int| r3_site(w2, i)));
    }
}

/// The reduction ends with a word in normal form, unless all of its 1000
/// rounds changed the word.
pub proof fn lemma_reduction_normal(o: Seq<i32>, r: Seq<i32>)
    requires
        reduction_of(o, r),
    ensures
        normal_form(r) || forall|m: nat| 1 <= m <= 1000 ==> #[trigger] round_changes(o, (m - 1) as nat),
{
    let n = choose|n: nat|
        1 <= n <= 1000 && r == reduce_rounds(o, n) && (n == 1000 || !round_changes(o, (n - 1) as nat))
            && forall|m: nat| 1 <= m < n ==> #[trigger] round_changes(o, (m - 1) as nat);
    let w = reduce_rounds(o, (n - 1) as nat);
    if !round_changes(o, (n - 1) as nat) {
        lemma_round_fixed_iff_normal(w);
        assert(r == reduce_round(w).0);
    } else {
        assert(n == 1000);
        assert forall|m: nat| 1 <= m <= 1000 implies #[trigger] round_changes(o, (m - 1) as nat) by {
            if m < 1000 {
            }
        }
    }
}

proof fn lemma_cancel_onto_parity(eq: bool, stack: Seq<i32>, w: Seq<i32>)
    ensures
        cancel_onto(eq, stack, w).len() % 2 == (stack.len() + w.len()) % 2,
    decreases w.len(),
{
    if w.len() > 0 {
        lemma_cancel_onto_parity(eq, push_cancel(eq, stack, w[0]), w.drop_first());
    }
}

proof fn lemma_round_parity(w: Seq<i32>)
    ensures
        reduce_round(w).0.len() <= w.len(),
        reduce_round(w).0.len() % 2 == w.len() % 2,
{
    let w1 = cancel_pairs(false, w);
    let w2 = cancel_pairs(true, w1);
    lemma_cancel_pairs_same_len(false, w);
    lemma_cancel_pairs_same_len(true, w1);
    lemma_cancel_onto_parity(false, seq![], w);
    lemma_cancel_onto_parity(true, seq![], w1);
    lemma_r3_rewrite_len(w2);
}

proof fn lemma_first_site(w: Seq<i32>, k: int)
    requires
        r3_site(w, k),
    ensures
        exists|i: int| r3_site(w, i) && forall|j: int| 0 <= j < i ==> !#[trigger] r3_site(w, j),
    decreases k,
{
    if exists|j: int| 0 <= j < k && r3_site(w, j) {
        let j = choose|j: int| 0 <= j < k && r3_site(w, j);
        lemma_first_site(w, j);
    } else {
        assert(forall|j: int| 0 <= j < k ==> !#[trigger] r3_site(w, j));
    }
}

proof fn lemma_r3_rewrite_len(w: Seq<i32>)
    ensures
        r3_rewrite(w).0.len() == w.len(),
{
    if exists|i: int| r3_site(w, i) {
        let k = choose|i: int| r3_site(w, i);
        lemma_first_site(w, k);
        let i = choose|i: int| r3_site(w, i) && forall|j: int| 0 <= j < i ==> !#[trigger] r3_site(w, j);
        assert(r3_site(w, i));
    }
}

proof fn lemma_rounds_parity(w: Seq<i32>, n: nat)
    ensures
        reduce_rounds(w, n).len() <= w.len(),
        reduce_rounds(w, n).len() % 2 == w.len() % 2,
    decreases n,
{
    if n > 0 {
        lemma_rounds_parity(w, (n - 1) as nat);
        lemma_round_parity(reduce_rounds(w, (n - 1) as nat));
    }
}

/// The reduction never lengthens a word and keeps the parity of its
/// crossing number: cancellations remove crossings in pairs and the braid
/// relation keeps the length.
pub proof fn lemma_reduction_parity(o: Seq<i32>, r: Seq<i32>)
    requires
        reduction_of(o, r),
    ensures
        r.len() <= o.len(),
        r.len() % 2 == o.len() % 2,
{
    let n = choose|n: nat|
        1 <= n <= 1000 && r == reduce_rounds(o, n) && (n == 1000 || !round_changes(o, (n - 1) as nat))
            && forall|m: nat| 1 <= m < n ==> #[trigger] round_changes(o, (m - 1) as nat);
    lemma_rounds_parity(o, n);
}

} // verus!
