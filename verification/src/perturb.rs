//! Random braid words: the optimised random word on a given number of
//! crossings, and the perturbation that injects crossings into a word.
//! The random draws come from `rand`'s thread-local generator; everything
//! done with a draw is verified for every value it can take.

use vstd::prelude::*;
use vstd::multiset::Multiset;
use crate::braid::{abs_spec, negatable, BraidWord};
use crate::random::{random_below, random_between, random_coin, thread_rng};

verus! {

/// Crossing `i` of base pattern `p < 4` of the optimised random word.
pub open spec fn base_pattern_at(p: int, i: int) -> int {
    let t: Seq<int> = if p == 0 {
        seq![1, 2, -1, 2, 3, -2]
    } else if p == 1 {
        seq![1, -2, 3, -1, 2, -3]
    } else if p == 2 {
        seq![2, 1, -2, 3, -1, 2]
    } else {
        seq![3, -1, 2, -3, 1, -2]
    };
    t[i % 6]
}

/// Crossing `i` of the optimised random word when pattern `p` and shift
/// `shift < 3` were drawn for it: the base crossing moved `shift` strands
/// away from zero.
pub open spec fn optimized_crossing(p: int, i: int, shift: int) -> int {
    let base = base_pattern_at(p, i);
    if shift == 0 {
        base
    } else if base > 0 {
        base + shift
    } else {
        base - shift
    }
}

/// Crossing `i` of the optimised random word for the drawn pattern and shift.
pub fn optimized_crossing_value(pattern: usize, i: usize, shift: usize) -> (g: i32)
    requires
        pattern < 4,
        shift < 3,
    ensures
        g == optimized_crossing(pattern as int, i as int, shift as int),
        1 <= abs_spec(g as int) <= 5,
{
    let t: [i32; 6] = if pattern == 0 {
        [1, 2, -1, 2, 3, -2]
    } else if pattern == 1 {
        [1, -2, 3, -1, 2, -3]
    } else if pattern == 2 {
        [2, 1, -2, 3, -1, 2]
    } else {
        [3, -1, 2, -3, 1, -2]
    };
    let base = t[i % 6];
    assert(base == base_pattern_at(pattern as int, i as int)) by {
        let k = (i % 6) as int;
        assert(0 <= k < 6);
        if k == 0 {
        } else if k == 1 {
        } else if k == 2 {
        } else if k == 3 {
        } else if k == 4 {
        } else {
        }
    }
    if shift == 0 {
        base
    } else if base > 0 {
        base + shift as i32
    } else {
        base - shift as i32
    }
}

/// The word after the relaxation step at `i`: where `g[i], g[i+1], g[i+2]`
/// has the shape `a, b, a` with `|a| = |b| - 1`, the first two crossings
/// trade places.
pub open spec fn relaxed_at(g: Seq<i32>, i: int) -> Seq<i32> {
    if 0 <= i && i + 2 < g.len() && g[i] == g[i + 2] && abs_spec(g[i] as int) == abs_spec(
        g[i + 1] as int,
    ) - 1 {
        g.update(i, g[i + 1]).update(i + 1, g[i])
    } else {
        g
    }
}

/// Swaps `g[i]` and `g[i+1]` where `g[i], g[i+1], g[i+2]` has the shape
/// `a, b, a` with `|a| = |b| - 1`.
pub fn relax_at(g: &mut Vec<i32>, i: usize)
    requires
        negatable(old(g)@),
        i + 2 < old(g)@.len(),
    ensures
        final(g)@ == relaxed_at(old(g)@, i as int),
        final(g)@.to_multiset() == old(g)@.to_multiset(),
        negatable(final(g)@),
{
    broadcast use vstd::multiset::group_multiset_axioms;
    broadcast use vstd::seq_lib::group_to_multiset_ensures;

    let n = g.len();
    assert(i + 2 < n);
    let a = g[i];
    let b = g[i + 1];
    let c = g[i + 2];
    let abs_a = if a < 0 {
        -a
    } else {
        a
    };
    let abs_b = if b < 0 {
        -b
    } else {
        b
    };
    if a == c && abs_b > 0 && abs_a == abs_b - 1 {
        let ghost o = g@;
        g.set(i, b);
        g.set(i + 1, a);
        proof {
            let s1 = o.update(i as int, b);
            vstd::seq_lib::to_multiset_update(o, i as int, b);
            vstd::seq_lib::to_multiset_update(s1, i + 1, a);
            assert(s1[i + 1] == b);
            assert(g@.to_multiset() =~= o.to_multiset());
            assert forall|k: int| 0 <= k < g@.len() implies #[trigger] g@[k] > i32::MIN by {
                if k == i || k == i + 1 {
                } else {
                    assert(g@[k] == o[k]);
                }
            }
        }
    }
}

/// Every crossing `i` of `g` is crossing `i` of some base pattern, moved
/// 0, 1 or 2 strands away from zero.
pub open spec fn optimized_word(g: Seq<i32>) -> bool {
    forall|i: int| 0 <= i < g.len() ==> #[trigger] optimized_at(g, i)
}

/// Crossing `i` of `g` is crossing `i` of some base pattern, moved 0, 1 or 2
/// strands away from zero.
pub open spec fn optimized_at(g: Seq<i32>, i: int) -> bool {
    exists|p: int, shift: int| 0 <= p < 4 && 0 <= shift < 3 && g[i] == optimized_crossing(p, i, shift)
}

/// The crossings that may be injected: `±1, ±2, ±3, ±4`.
pub open spec fn injected_crossing(x: i32) -> bool {
    1 <= abs_spec(x as int) <= 4
}

/// `w` is `o` with some `n` injected crossings added, in some order.
pub open spec fn injects(o: Seq<i32>, w: Seq<i32>, n: nat) -> bool {
    exists|ins: Seq<i32>|
        ins.len() == n && (forall|k: int| 0 <= k < ins.len() ==> injected_crossing(#[trigger] ins[k]))
            && w.to_multiset() == o.to_multiset().add(ins.to_multiset())
}

impl BraidWord {
    /// A random word with `nf` crossings on `strands` strands: crossing `i`
    /// follows one of four base patterns, drawn anew for each crossing, and
    /// is moved 0, 1 or 2 strands away from zero, also drawn.
    pub fn new_random_optimized(nf: usize, strands: usize) -> (b: BraidWord)
        ensures
            b.num_strands == strands,
            b.residuo == 0,
            b.particle_type@ == "Desconocida"@,
            b.generators@.len() == nf,
            optimized_word(b.generators@),
    {
        let mut rng = thread_rng();
        let mut generators: Vec<i32> = Vec::with_capacity(nf);
        let ghost mut patterns: Seq<int> = seq![];
        let ghost mut shifts: Seq<int> = seq![];
        let mut i: usize = 0;
        while i < nf
            invariant
                i <= nf,
                generators@.len() == i,
                patterns.len() == i,
                shifts.len() == i,
                forall|j: int|
                    0 <= j < i ==> 0 <= #[trigger] patterns[j] < 4 && 0 <= shifts[j] < 3
                        && generators@[j] == optimized_crossing(patterns[j], j, shifts[j]),
            decreases nf - i,
        {
            let pattern = random_below(&mut rng, 4);
            let shift = random_below(&mut rng, 3);
            let g = optimized_crossing_value(pattern, i, shift);
            let ghost before = generators@;
            generators.push(g);
            proof {
                let p2 = patterns.push(pattern as int);
                let s2 = shifts.push(shift as int);
                assert forall|j: int| 0 <= j < i + 1 implies 0 <= #[trigger] p2[j] < 4 && 0 <= s2[j] < 3
                    && generators@[j] == optimized_crossing(p2[j], j, s2[j]) by {
                    if j < i {
                        assert(p2[j] == patterns[j] && s2[j] == shifts[j]);
                        assert(generators@[j] == before[j]);
                    }
                }
                patterns = p2;
                shifts = s2;
            }
            i = i + 1;
        }
        let b = BraidWord::new(generators, strands, None);
        assert forall|j: int| 0 <= j < b.generators@.len() implies #[trigger] optimized_at(b.generators@, j) by {
            assert(0 <= patterns[j] < 4 && 0 <= shifts[j] < 3);
            assert(b.generators@[j] == optimized_crossing(patterns[j], j, shifts[j]));
        }
        b
    }

    /// Injects `level` random crossings `±1..±4` into `generators`, each at a
    /// random position before the last crossing, and after each injection
    /// relaxes a random triple when the word has more than three crossings.
    pub fn perturb_braid(&self, generators: &mut Vec<i32>, level: usize)
        requires
            level == 0 || old(generators)@.len() > 0,
            negatable(old(generators)@),
            old(generators)@.len() + level <= usize::MAX,
        ensures
            final(generators)@.len() == old(generators)@.len() + level,
            negatable(final(generators)@),
            injects(old(generators)@, final(generators)@, level as nat),
            perturbation_of(old(generators)@, final(generators)@, level as nat),
    {
        broadcast use vstd::multiset::group_multiset_axioms;
        broadcast use vstd::seq_lib::group_to_multiset_ensures;

        let ghost o = generators@;
        let ghost mut ins: Seq<i32> = seq![];
        let ghost mut ps: Seq<int> = seq![];
        let ghost mut cs: Seq<i32> = seq![];
        let ghost mut rs: Seq<int> = seq![];
        proof {
            assert(ins.to_multiset() =~= Multiset::empty());
            assert(o.to_multiset().add(ins.to_multiset()) =~= o.to_multiset());
        }
        let mut rng = thread_rng();
        let mut step: usize = 0;
        while step < level
            invariant
                step <= level,
                o.len() + level <= usize::MAX,
                level == 0 || o.len() > 0,
                generators@.len() == o.len() + step,
                negatable(generators@),
                ins.len() == step,
                forall|k: int| 0 <= k < ins.len() ==> injected_crossing(#[trigger] ins[k]),
                generators@.to_multiset() == o.to_multiset().add(ins.to_multiset()),
                draws_valid(o.len(), ps, cs, rs, step as nat),
                generators@ == perturbed(o, ps, cs, rs),
            decreases level - step,
        {
            let n = generators.len();
            let pos = random_below(&mut rng, n);
            let magnitude = random_between(&mut rng, 1, 4);
            let new_cross = if random_coin(&mut rng) {
                magnitude
            } else {
                -magnitude
            };
            let relax = if n + 1 > 3 {
                random_below(&mut rng, n - 1)
            } else {
                0
            };
            perturb_step(generators, pos, new_cross, relax);
            proof {
                vstd::seq_lib::to_multiset_build(ins, new_cross);
                assert(generators@.to_multiset() =~= o.to_multiset().add(ins.push(new_cross).to_multiset()));
                ins = ins.push(new_cross);
                let ps2 = ps.push(pos as int);
                let cs2 = cs.push(new_cross);
                let rs2 = rs.push(relax as int);
                assert(ps2.drop_last() =~= ps);
                assert(cs2.drop_last() =~= cs);
                assert(rs2.drop_last() =~= rs);
                assert forall|k: int| 0 <= k < step + 1 implies #[trigger] draw_valid(o.len(), ps2, cs2, rs2, k) by {
                    if k < step {
                        assert(draw_valid(o.len(), ps, cs, rs, k));
                    }
                }
                ps = ps2;
                cs = cs2;
                rs = rs2;
            }
            step = step + 1;
        }
    }
}

/// One round of the perturbation: the crossing `c` inserted at `pos`, then,
/// when the word has more than three crossings, the relaxation step at `i`.
pub open spec fn perturb_round(g: Seq<i32>, pos: int, c: i32, i: int) -> Seq<i32> {
    let h = g.insert(pos, c);
    if h.len() > 3 {
        relaxed_at(h, i)
    } else {
        h
    }
}

/// The word `g` after the rounds with the drawn positions `ps`, crossings
/// `cs` and relaxation indices `rs`, in order.
pub open spec fn perturbed(g: Seq<i32>, ps: Seq<int>, cs: Seq<i32>, rs: Seq<int>) -> Seq<i32>
    decreases ps.len(),
{
    if ps.len() == 0 {
        g
    } else {
        perturb_round(perturbed(g, ps.drop_last(), cs.drop_last(), rs.drop_last()), ps.last(), cs.last(), rs.last())
    }
}

/// The draws of round `k` on a word that had `n0` crossings at the start:
/// a position before the last of the `n0 + k` crossings, an injected
/// crossing, and, when the word grows past three crossings, the start of a
/// triple of the `n0 + k + 1` crossings.
pub open spec fn draw_valid(n0: nat, ps: Seq<int>, cs: Seq<i32>, rs: Seq<int>, k: int) -> bool {
    &&& 0 <= ps[k] < n0 + k
    &&& injected_crossing(cs[k])
    &&& (n0 + k + 1 > 3 ==> 0 <= rs[k] && rs[k] + 2 < n0 + k + 1)
}

/// `ps`, `cs` and `rs` are valid draws for `n` rounds.
pub open spec fn draws_valid(n0: nat, ps: Seq<int>, cs: Seq<i32>, rs: Seq<int>, n: nat) -> bool {
    &&& ps.len() == n
    &&& cs.len() == n
    &&& rs.len() == n
    &&& forall|k: int| 0 <= k < n ==> #[trigger] draw_valid(n0, ps, cs, rs, k)
}

/// `w` is what `n` perturbation rounds with some valid draws make of `o`.
pub open spec fn perturbation_of(o: Seq<i32>, w: Seq<i32>, n: nat) -> bool {
    exists|ps: Seq<int>, cs: Seq<i32>, rs: Seq<int>| draws_valid(o.len(), ps, cs, rs, n) && w == perturbed(o, ps, cs, rs)
}

/// One round of the perturbation with its draws given: inserts `cross` at
/// `pos`, then, when the word has more than three crossings, relaxes the
/// triple at `relax`.
pub fn perturb_step(generators: &mut Vec<i32>, pos: usize, cross: i32, relax: usize)
    requires
        pos <= old(generators)@.len(),
        old(generators)@.len() < usize::MAX,
        negatable(old(generators)@),
        cross > i32::MIN,
        old(generators)@.len() + 1 > 3 ==> relax + 2 < old(generators)@.len() + 1,
    ensures
        final(generators)@ == perturb_round(old(generators)@, pos as int, cross, relax as int),
        final(generators)@.to_multiset() == old(generators)@.to_multiset().insert(cross),
        negatable(final(generators)@),
{
    broadcast use vstd::multiset::group_multiset_axioms;
    broadcast use vstd::seq_lib::group_to_multiset_ensures;

    let ghost before = generators@;
    generators.insert(pos, cross);
    proof {
        vstd::seq_lib::to_multiset_insert(before, pos as int, cross);
        assert forall|k: int| 0 <= k < generators@.len() implies #[trigger] generators@[k] > i32::MIN by {
            if k < pos {
                assert(generators@[k] == before[k]);
            } else if k > pos {
                assert(generators@[k] == before[k - 1]);
            }
        }
    }
    if generators.len() > 3 {
        relax_at(generators, relax);
    }
}

} // verus!
