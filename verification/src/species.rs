//! Particle species of braid words: the stable words built from a crossing
//! number, the names given to reduced words, and the fragmentation of
//! unstable words into stable pieces.

use vstd::prelude::*;
use vstd::string::*;
use crate::braid::{
    abs_spec, alternating_at, electron_spec, generar_patron_electron, generar_patron_muon,
    generar_patron_neutron, generar_patron_proton, generar_patron_tau, muon_motif, muon_spec,
    neutron_spec, proton_spec, reduction_of, strand_bounded, tau_spec, BraidWord,
};
use crate::text::{decimal, push_decimal};

verus! {

/// Residues modulo 48 whose crossing numbers get the plain four-strand
/// stable word.
pub open spec fn stable_residue(r: nat) -> bool {
    r == 1 || r == 12 || r == 15 || r == 14 || r == 24 || r == 35
}

/// The word on four strands that cycles `1, 2, 3, 4` for `nf` crossings.
pub open spec fn cycle_four(nf: nat) -> Seq<i32> {
    Seq::new(nf, |i: int| ((i % 4) + 1) as i32)
}

/// Generators of the stable word with `nf` crossings, before reduction.
pub open spec fn stable_generators_spec(nf: nat) -> Seq<i32> {
    if nf == 1 {
        electron_spec()
    } else if nf == 207 {
        muon_spec()
    } else if nf == 3477 {
        tau_spec()
    } else if nf == 1836 {
        proton_spec()
    } else if nf == 1838 {
        neutron_spec()
    } else if stable_residue(nf % 48) {
        cycle_four(nf)
    } else {
        seq![]
    }
}

proof fn lemma_alternating_bounds(s: nat, b: nat, i: nat)
    requires
        1 <= s <= 1000,
        1 <= b,
    ensures
        1 <= abs_spec(alternating_at(s, b, i)) <= s,
{
    vstd::arithmetic::div_mod::lemma_mod_bound(i as int, s as int);
    let m = (i % s) as int + 1;
    if (i / b) % 2 == 0 {
        assert(alternating_at(s, b, i) == m * 1int);
    } else {
        assert(alternating_at(s, b, i) == m * -1int);
    }
}

proof fn lemma_stable_generators_bounded(nf: nat)
    ensures
        strand_bounded(stable_generators_spec(nf)),
{
    let w = stable_generators_spec(nf);
    assert forall|i: int| 0 <= i < w.len() implies -i32::MAX < #[trigger] w[i] < i32::MAX by {
        if nf == 207 {
            let k = i % 15;
            assert(0 <= k < 15);
            assert(w[i] == muon_motif()[k]);
        } else if nf == 3477 {
            lemma_alternating_bounds(5, 3, i as nat);
        } else if nf == 1836 {
            lemma_alternating_bounds(4, 4, i as nat);
        } else if nf == 1838 {
            if i < 1836 {
                lemma_alternating_bounds(4, 4, i as nat);
            }
        } else if nf != 1 && stable_residue(nf % 48) {
            assert(0 <= i % 4 < 4);
        }
    }
}

/// Generators of the stable word with `nf` crossings: the particle pattern
/// for the known crossing numbers, the four-strand cycle for the stable
/// residues, and the empty word otherwise.
pub fn stable_generators(nf: usize) -> (g: Vec<i32>)
    ensures
        g@ == stable_generators_spec(nf as nat),
        strand_bounded(g@),
        !known_length(nf as nat) && (nf % 48 == 1 || nf % 48 == 12 || nf % 48 == 14 || nf % 48 == 15
            || nf % 48 == 24 || nf % 48 == 35) ==> g@.len() == nf && forall|i: int|
            0 <= i < nf ==> #[trigger] g@[i] == (i % 4) + 1,
{
    proof {
        lemma_stable_generators_bounded(nf as nat);
        lemma_stable_generators_shape(nf as nat);
    }
    if nf == 1 {
        generar_patron_electron()
    } else if nf == 207 {
        let g = generar_patron_muon();
        assert(g@ =~= muon_spec());
        g
    } else if nf == 3477 {
        let g = generar_patron_tau();
        assert(g@ =~= tau_spec());
        g
    } else if nf == 1836 {
        let g = generar_patron_proton();
        assert(g@ =~= proton_spec());
        g
    } else if nf == 1838 {
        let g = generar_patron_neutron();
        assert(g@ =~= neutron_spec());
        g
    } else {
        let residuo = nf % 48;
        if residuo == 1 || residuo == 12 || residuo == 15 || residuo == 14 || residuo == 24
            || residuo == 35 {
            let mut g: Vec<i32> = Vec::with_capacity(nf);
            let mut i: usize = 0;
            while i < nf
                invariant
                    i <= nf,
                    g@.len() == i,
                    forall|j: int| 0 <= j < i ==> #[trigger] g@[j] == ((j % 4) + 1) as i32,
                decreases nf - i,
            {
                g.push(((i % 4) + 1) as i32);
                i = i + 1;
            }
            assert(g@ =~= cycle_four(nf as nat));
            g
        } else {
            let g: Vec<i32> = Vec::new();
            assert(g@ =~= seq![]);
            g
        }
    }
}

/// The fields of `w` after `new_stable(nf)`.
pub open spec fn is_stable_word(nf: nat, w: BraidWord) -> bool {
    &&& w.num_strands == 4
    &&& reduction_of(stable_generators_spec(nf), w.generators@)
    &&& w.residuo == w.generators@.len() % 48
    &&& w.particle_type@ == "Desconocida"@
}

impl BraidWord {
    /// The stable word with `nf` crossings on four strands, reduced.
    pub fn new_stable(nf: usize) -> (b: BraidWord)
        ensures
            is_stable_word(nf as nat, b),
    {
        let generators = stable_generators(nf);
        let mut braid = BraidWord::new(generators, 4, None);
        braid.reduce();
        braid
    }
}

/// Crossing numbers that get the low stability threshold: residues 1, 12,
/// 14, 15, 21 and 24 modulo 48, and the five known particle lengths.
pub open spec fn magic_length(nf: nat) -> bool {
    let r = nf % 48;
    r == 1 || r == 12 || r == 15 || r == 14 || r == 21 || r == 24 || nf == 1 || nf == 1836
        || nf == 207 || nf == 3477 || nf == 1838
}

/// Whether `nf` crossings get the low stability threshold.
pub fn is_magic_length(nf: usize) -> (r: bool)
    ensures
        r == magic_length(nf as nat),
{
    let residue = nf % 48;
    residue == 1 || residue == 12 || residue == 15 || residue == 14 || residue == 21 || residue
        == 24 || nf == 1 || nf == 1836 || nf == 207 || nf == 3477 || nf == 1838
}

/// Name of a word with `nf` crossings: unstable words are named by their
/// length; stable ones by the known particle or the residue class modulo 48.
pub open spec fn particle_name(nf: nat, stable: bool) -> Seq<char> {
    if !stable {
        "Inestable (Nf="@ + decimal(nf) + ")"@
    } else if nf == 1 {
        "Electrón"@
    } else if nf == 207 {
        "Muón"@
    } else if nf == 3477 {
        "Tauón"@
    } else if nf == 1836 {
        "Protón"@
    } else if nf == 1838 {
        "Neutrón"@
    } else if nf % 48 == 12 {
        "Configuración tipo protón"@
    } else if nf % 48 == 15 {
        "Configuración tipo muón"@
    } else if nf % 48 == 35 {
        "Configuración tipo tau"@
    } else if nf % 48 == 24 {
        "Configuración tipo axión"@
    } else {
        "Partícula hipotética Nf="@ + decimal(nf)
    }
}

/// The residues modulo 48 that mark a candidate for a new stable particle.
pub open spec fn candidate_residue(r: nat) -> bool {
    r == 1 || r == 12 || r == 14 || r == 15 || r == 21 || r == 24 || r == 36
}

/// Two words with the same fields.
pub open spec fn same_word(a: BraidWord, b: BraidWord) -> bool {
    &&& a.generators@ == b.generators@
    &&& a.num_strands == b.num_strands
    &&& a.particle_type@ == b.particle_type@
    &&& a.residuo == b.residuo
}

impl BraidWord {
    /// Names the word by its length and stability, stores the name as its
    /// particle type and returns it.
    pub fn classify_particle(&mut self, stable: bool) -> (name: String)
        ensures
            name@ == particle_name(old(self).generators@.len(), stable),
            final(self).particle_type@ == name@,
            final(self).generators@ == old(self).generators@,
            final(self).num_strands == old(self).num_strands,
            final(self).residuo == old(self).residuo,
    {
        let nf = self.generators.len();
        let mut name = String::new();
        if !stable {
            proof {
                reveal_strlit("Inestable (Nf=");
                reveal_strlit(")");
            }
            name.append("Inestable (Nf=");
            push_decimal(&mut name, nf as u128);
            name.append(")");
        } else if nf == 1 {
            name.append("Electrón");
        } else if nf == 207 {
            name.append("Muón");
        } else if nf == 3477 {
            name.append("Tauón");
        } else if nf == 1836 {
            name.append("Protón");
        } else if nf == 1838 {
            name.append("Neutrón");
        } else if nf % 48 == 12 {
            name.append("Configuración tipo protón");
        } else if nf % 48 == 15 {
            name.append("Configuración tipo muón");
        } else if nf % 48 == 35 {
            name.append("Configuración tipo tau");
        } else if nf % 48 == 24 {
            name.append("Configuración tipo axión");
        } else {
            name.append("Partícula hipotética Nf=");
            push_decimal(&mut name, nf as u128);
        }
        assert(name@ =~= particle_name(nf as nat, stable));
        self.particle_type = name.clone();
        name
    }

    /// Whether the word is a candidate for a new stable particle, given
    /// whether its symmetry score is above 0.20 (`high_symmetry`) and above
    /// 0.15 (`axion_symmetry`), and whether its Alexander invariant is
    /// topologically complex.
    pub fn is_potential_candidate(
        &self,
        high_symmetry: bool,
        axion_symmetry: bool,
        topologically_complex: bool,
    ) -> (r: bool)
        ensures
            r == (self.generators@.len() > 0 && ((candidate_residue(self.generators@.len() % 48)
                && high_symmetry) || (self.generators@.len() % 48 == 24 && axion_symmetry) || (
            high_symmetry && topologically_complex))),
    {
        let nf = self.generators.len();
        if nf == 0 {
            return false;
        }
        let residuo = nf % 48;
        let magic = residuo == 1 || residuo == 12 || residuo == 14 || residuo == 15 || residuo
            == 21 || residuo == 24 || residuo == 36;
        if magic && high_symmetry {
            return true;
        }
        if residuo == 24 && axion_symmetry {
            return true;
        }
        if high_symmetry && topologically_complex {
            return true;
        }
        false
    }

    /// A copy of the word.
    pub fn duplicate(&self) -> (c: BraidWord)
        ensures
            same_word(c, *self),
    {
        let mut generators: Vec<i32> = Vec::with_capacity(self.generators.len());
        let mut i: usize = 0;
        while i < self.generators.len()
            invariant
                i <= self.generators@.len(),
                generators@ == self.generators@.subrange(0, i as int),
            decreases self.generators@.len() - i,
        {
            generators.push(self.generators[i]);
            i = i + 1;
            assert(generators@ =~= self.generators@.subrange(0, i as int));
        }
        assert(generators@ =~= self.generators@);
        BraidWord {
            generators,
            num_strands: self.num_strands,
            particle_type: self.particle_type.clone(),
            residuo: self.residuo,
        }
    }
}

/// Pieces taken greedily from `rem` crossings: a muon (207) while the rest
/// modulo 207 is below 50, else a proton (1836) while one fits, else an
/// electron (1).
pub open spec fn greedy_pieces(rem: nat) -> Seq<int>
    decreases rem,
{
    if rem == 0 {
        seq![]
    } else if rem >= 207 && rem % 207 < 50 {
        seq![207int] + greedy_pieces((rem - 207) as nat)
    } else if rem >= 1836 {
        seq![1836int] + greedy_pieces((rem - 1836) as nat)
    } else {
        seq![1int] + greedy_pieces((rem - 1) as nat)
    }
}

/// Code of a fragment that is a copy of the word itself.
pub open spec fn whole_piece() -> int {
    -1
}

/// Code of a phonon fragment: the empty word on four strands.
pub open spec fn phonon_piece() -> int {
    -2
}

/// The fragments of a word with `nf` crossings: the word itself when it is
/// stable or short; a proton and then muons or a phonon between 1836 and
/// 3000 crossings; the greedy pieces above 1000 crossings. A positive code
/// `k` is the stable word with `k` crossings.
pub open spec fn fragment_plan(nf: nat, stable: bool) -> Seq<int> {
    if stable {
        seq![whole_piece()]
    } else if 1836 < nf && nf < 3000 {
        let residual = (nf - 1836) as nat;
        if residual % 207 < 10 {
            seq![1836int] + Seq::new(residual / 207, |i: int| 207int)
        } else {
            seq![1836int, phonon_piece()]
        }
    } else if nf > 1000 {
        greedy_pieces(nf)
    } else {
        seq![whole_piece()]
    }
}

/// `f` is the fragment of `w` with the given plan code.
pub open spec fn fragment_fits(w: BraidWord, code: int, f: BraidWord) -> bool {
    if code == whole_piece() {
        same_word(f, w)
    } else if code == phonon_piece() {
        &&& f.generators@ == Seq::<i32>::empty()
        &&& f.num_strands == 4
        &&& f.residuo == 0
        &&& f.particle_type@ == "Desconocida"@
    } else {
        code > 0 && is_stable_word(code as nat, f)
    }
}

/// Sum of the crossing numbers of a list of pieces.
pub open spec fn piece_total(pieces: Seq<int>) -> int
    decreases pieces.len(),
{
    if pieces.len() == 0 {
        0
    } else {
        pieces[0] + piece_total(pieces.drop_first())
    }
}

/// The greedy pieces of `rem` crossings add up to `rem` crossings.
pub proof fn lemma_greedy_total(rem: nat)
    ensures
        piece_total(greedy_pieces(rem)) == rem,
    decreases rem,
{
    if rem > 0 {
        let piece: int = if rem >= 207 && rem % 207 < 50 {
            207
        } else if rem >= 1836 {
            1836
        } else {
            1
        };
        let rest = greedy_pieces((rem - piece) as nat);
        lemma_greedy_total((rem - piece) as nat);
        assert((seq![piece] + rest).drop_first() =~= rest);
        assert(greedy_pieces(rem) == seq![piece] + rest);
    }
}

proof fn lemma_greedy_step(rem: nat)
    requires
        rem > 0,
    ensures
        rem >= 207 && rem % 207 < 50 ==> greedy_pieces(rem) == seq![207int] + greedy_pieces(
            (rem - 207) as nat,
        ),
        !(rem >= 207 && rem % 207 < 50) && rem >= 1836 ==> greedy_pieces(rem) == seq![1836int]
            + greedy_pieces((rem - 1836) as nat),
        !(rem >= 207 && rem % 207 < 50) && rem < 1836 ==> greedy_pieces(rem) == seq![1int]
            + greedy_pieces((rem - 1) as nat),
{
}

impl BraidWord {
    /// Splits the word into stable fragments, given whether it is stable.
    pub fn fragmentate(&self, stable: bool) -> (fragments: Vec<BraidWord>)
        ensures
            fragments@.len() == fragment_plan(self.generators@.len(), stable).len(),
            forall|i: int|
                0 <= i < fragments@.len() ==> fragment_fits(
                    *self,
                    #[trigger] fragment_plan(self.generators@.len(), stable)[i],
                    fragments@[i],
                ),
            !stable && 1836 < self.generators@.len() < 3000 && (self.generators@.len() - 1836) % 207 < 10
                ==> fragments@.len() == 1 + (self.generators@.len() - 1836) / 207 && is_stable_word(
                1836,
                fragments@[0],
            ) && forall|i: int| 1 <= i < fragments@.len() ==> is_stable_word(207, #[trigger] fragments@[i]),
    {
        let nf = self.generators.len();
        let ghost plan = fragment_plan(nf as nat, stable);
        proof {
            if 1836 < nf < 3000 {
                lemma_fragments_proton_and_muons(nf as nat);
            }
        }
        let mut fragments: Vec<BraidWord> = Vec::new();
        if stable {
            fragments.push(self.duplicate());
            return fragments;
        }
        if nf > 1836 && nf < 3000 {
            let proton = BraidWord::new_stable(1836);
            fragments.push(proton);
            let residual_nf = nf - 1836;
            if residual_nf % 207 < 10 {
                let count = residual_nf / 207;
                let mut k: usize = 0;
                while k < count
                    invariant
                        count == residual_nf / 207,
                        residual_nf == nf - 1836,
                        1836 < nf < 3000,
                        residual_nf % 207 < 10,
                        !stable,
                        nf == self.generators@.len(),
                        plan == fragment_plan(nf as nat, stable),
                        k <= count,
                        fragments@.len() == k + 1,
                        forall|i: int|
                            0 <= i < fragments@.len() ==> fragment_fits(
                                *self,
                                #[trigger] plan[i],
                                fragments@[i],
                            ),
                    decreases count - k,
                {
                    let muon = BraidWord::new_stable(207);
                    fragments.push(muon);
                    k = k + 1;
                    assert(plan[k as int] == 207int);
                }
                proof {
                    assert(fragment_fits(*self, plan[0], fragments@[0]));
                    assert forall|i: int| 1 <= i < fragments@.len() implies is_stable_word(207, #[trigger] fragments@[i]) by {
                        assert(plan[i] == 207);
                        assert(fragment_fits(*self, plan[i], fragments@[i]));
                    }
                }
            } else {
                let phonon = BraidWord::new(Vec::new(), 4, Some(String::from_str("phonon")));
                proof {
                    reveal_strlit("phonon");
                    reveal_strlit("electron");
                    reveal_strlit("muon");
                    reveal_strlit("proton");
                    reveal_strlit("neutron");
                    reveal_strlit("tau");
                    assert("phonon"@ != "electron"@ && "phonon"@ != "muon"@ && "phonon"@ != "proton"@
                        && "phonon"@ != "neutron"@ && "phonon"@ != "tau"@) by {
                        assert("phonon"@[0] != "electron"@[0]);
                        assert("phonon"@[0] != "muon"@[0]);
                        assert("phonon"@[1] != "proton"@[1]);
                        assert("phonon"@[0] != "neutron"@[0]);
                        assert("phonon"@[0] != "tau"@[0]);
                    }
                    assert(phonon.generators@ =~= Seq::<i32>::empty());
                }
                fragments.push(phonon);
            }
            return fragments;
        } else if nf > 1000 {
            let mut remaining = nf;
            let ghost mut done: Seq<int> = seq![];
            while remaining > 0
                invariant
                    nf == self.generators@.len(),
                    nf > 1000,
                    !(1836 < nf && nf < 3000),
                    !stable,
                    plan == fragment_plan(nf as nat, stable),
                    plan == done + greedy_pieces(remaining as nat),
                    fragments@.len() == done.len(),
                    forall|i: int|
                        0 <= i < fragments@.len() ==> fragment_fits(
                            *self,
                            #[trigger] plan[i],
                            fragments@[i],
                        ),
                decreases remaining,
            {
                proof {
                    lemma_greedy_step(remaining as nat);
                }
                let piece: usize = if remaining >= 207 && remaining % 207 < 50 {
                    207
                } else if remaining >= 1836 {
                    1836
                } else {
                    1
                };
                let f = BraidWord::new_stable(piece);
                fragments.push(f);
                proof {
                    assert(plan == done.push(piece as int) + greedy_pieces((remaining - piece) as nat)) by {
                        assert(done + (seq![piece as int] + greedy_pieces((remaining - piece) as nat))
                            =~= done.push(piece as int) + greedy_pieces((remaining - piece) as nat));
                    }
                    done = done.push(piece as int);
                    assert(plan[done.len() - 1] == piece as int);
                }
                remaining = remaining - piece;
            }
            proof {
                assert(greedy_pieces(0) =~= seq![]);
                assert(done + seq![] =~= done);
            }
            return fragments;
        } else {
            fragments.push(self.duplicate());
            return fragments;
        }
    }
}

/// Adjacent crossings among the first `n` pairs of `g` with the same sign.
pub open spec fn same_sign_pairs(g: Seq<i32>, n: nat) -> nat
    decreases n,
{
    if n == 0 {
        0
    } else {
        let i = n - 1;
        same_sign_pairs(g, (n - 1) as nat) + if g[i] * g[i + 1] > 0 {
            1nat
        } else {
            0nat
        }
    }
}

/// Adjacent crossings among the first `n` pairs of `g` on the same strand.
pub open spec fn same_strand_pairs(g: Seq<i32>, n: nat) -> nat
    decreases n,
{
    if n == 0 {
        0
    } else {
        let i = n - 1;
        same_strand_pairs(g, (n - 1) as nat) + if abs_spec(g[i] as int) == abs_spec(g[i + 1] as int) {
            1nat
        } else {
            0nat
        }
    }
}

/// Number of adjacent pairs of a word of length `len`.
pub open spec fn pair_total(len: nat) -> nat {
    if len == 0 {
        0
    } else {
        (len - 1) as nat
    }
}

impl BraidWord {
    /// The adjacent pairs of crossings with the same sign, and those on the
    /// same strand, that raise the energy of the word.
    pub fn adjacent_pair_counts(&self) -> (counts: (usize, usize))
        requires
            crate::braid::negatable(self.generators@),
        ensures
            counts.0 == same_sign_pairs(self.generators@, pair_total(self.generators@.len())),
            counts.1 == same_strand_pairs(self.generators@, pair_total(self.generators@.len())),
    {
        let n = self.generators.len();
        let pairs = if n == 0 {
            0
        } else {
            n - 1
        };
        let mut same_sign: usize = 0;
        let mut same_strand: usize = 0;
        let mut i: usize = 0;
        while i < pairs
            invariant
                n == self.generators@.len(),
                pairs == pair_total(n as nat),
                crate::braid::negatable(self.generators@),
                i <= pairs,
                same_sign == same_sign_pairs(self.generators@, i as nat),
                same_strand == same_strand_pairs(self.generators@, i as nat),
                same_sign <= i,
                same_strand <= i,
            decreases pairs - i,
        {
            let a = self.generators[i];
            let b = self.generators[i + 1];
            let positive = (a > 0 && b > 0) || (a < 0 && b < 0);
            proof {
                let x = a as int;
                let y = b as int;
                assert(positive == (x * y > 0)) by (nonlinear_arith)
                    requires
                        positive == ((x > 0 && y > 0) || (x < 0 && y < 0)),
                ;
            }
            if positive {
                same_sign = same_sign + 1;
            }
            let abs_a = if a < 0 {
                -a
            } else {
                a
            };
            let abs_b = if b < 0 {
                -b
            } else {
                b
            };
            if abs_a == abs_b {
                same_strand = same_strand + 1;
            }
            i = i + 1;
        }
        (same_sign, same_strand)
    }
}


/// The crossing numbers of the five known particles.
pub open spec fn known_length(nf: nat) -> bool {
    nf == 1 || nf == 207 || nf == 1836 || nf == 1838 || nf == 3477
}

/// The stable word for `nf` crossings has `nf` crossings when `nf` is a known
/// particle length or has residue 1, 12, 14, 15, 24 or 35 modulo 48, and no
/// crossings otherwise; away from the known lengths it cycles `1, 2, 3, 4`.
pub proof fn lemma_stable_generators_shape(nf: nat)
    ensures
        stable_generators_spec(nf).len() == if known_length(nf) || nf % 48 == 1 || nf % 48 == 12
            || nf % 48 == 14 || nf % 48 == 15 || nf % 48 == 24 || nf % 48 == 35 {
            nf
        } else {
            0
        },
        !known_length(nf) ==> forall|i: int|
            0 <= i < stable_generators_spec(nf).len() ==> #[trigger] stable_generators_spec(nf)[i] == (i
                % 4) + 1,
{
}

/// The names of words: an unstable word is `Inestable (Nf=<nf>)`; a stable
/// word of a known length is that particle; otherwise residue 12, 15, 35
/// and 24 modulo 48 name proton-, muon-, tau- and axion-like
/// configurations, and every other residue (21 among them) a hypothetical
/// particle `Partícula hipotética Nf=<nf>`.
pub proof fn lemma_particle_names(nf: nat)
    ensures
        particle_name(nf, false) == "Inestable (Nf="@ + decimal(nf) + ")"@,
        particle_name(1, true) == "Electrón"@,
        particle_name(207, true) == "Muón"@,
        particle_name(1836, true) == "Protón"@,
        particle_name(1838, true) == "Neutrón"@,
        particle_name(3477, true) == "Tauón"@,
        !known_length(nf) && nf % 48 == 12 ==> particle_name(nf, true) == "Configuración tipo protón"@,
        !known_length(nf) && nf % 48 == 15 ==> particle_name(nf, true) == "Configuración tipo muón"@,
        !known_length(nf) && nf % 48 == 35 ==> particle_name(nf, true) == "Configuración tipo tau"@,
        !known_length(nf) && nf % 48 == 24 ==> particle_name(nf, true) == "Configuración tipo axión"@,
        !known_length(nf) && nf % 48 != 12 && nf % 48 != 15 && nf % 48 != 35 && nf % 48 != 24
            ==> particle_name(nf, true) == "Partícula hipotética Nf="@ + decimal(nf),
{
}

/// An unstable word of `1836 < nf < 3000` crossings whose excess
/// `r = nf - 1836` over a proton is within 10 of a multiple of 207 splits
/// into one proton followed by exactly `r / 207` muons, so the fragments
/// carry `nf - r % 207` crossings; with a larger rest it splits into a
/// proton and a phonon.
pub proof fn lemma_fragments_proton_and_muons(nf: nat)
    requires
        1836 < nf < 3000,
    ensures
        (nf - 1836) % 207 < 10 ==> {
            let plan = fragment_plan(nf, false);
            &&& plan.len() == 1 + (nf - 1836) / 207
            &&& plan[0] == 1836
            &&& forall|i: int| 1 <= i < plan.len() ==> #[trigger] plan[i] == 207
            &&& piece_total(plan) == nf - (nf - 1836) % 207
        },
        (nf - 1836) % 207 >= 10 ==> fragment_plan(nf, false) == seq![1836int, phonon_piece()],
{
    let r = (nf - 1836) as nat;
    if r % 207 < 10 {
        let muons = Seq::new(r / 207, |i: int| 207int);
        lemma_muons_total(r / 207);
        let plan = fragment_plan(nf, false);
        assert(plan == seq![1836int] + muons);
        assert(plan.drop_first() =~= muons);
        assert(r == 207 * (r / 207) + r % 207);
    }
}

proof fn lemma_muons_total(n: nat)
    ensures
        piece_total(Seq::new(n, |i: int| 207int)) == 207 * n,
    decreases n,
{
    if n > 0 {
        lemma_muons_total((n - 1) as nat);
        assert(Seq::new(n, |i: int| 207int).drop_first() =~= Seq::new((n - 1) as nat, |i: int| 207int));
    }
}

/// Every fragmentation of an unstable word of more than 1000 crossings
/// outside `(1836, 3000)` uses all of its crossings; a stable word, or a
/// short one, stays whole.
pub proof fn lemma_fragments_keep_crossings(nf: nat, stable: bool)
    ensures
        stable || nf <= 1000 ==> fragment_plan(nf, stable) == seq![whole_piece()],
        !stable && nf > 1000 && !(1836 < nf < 3000) ==> piece_total(fragment_plan(nf, stable)) == nf,
{
    if !stable && nf > 1000 && !(1836 < nf < 3000) {
        lemma_greedy_total(nf);
    }
}

} // verus!
