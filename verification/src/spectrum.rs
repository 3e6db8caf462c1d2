//! Names and tables of the particle spectrum: the type given to a crossing
//! number, the O_h representation of a residue modulo 48, the known
//! particles by name, and the distance of a residue to the stable ones.

use vstd::prelude::*;
use vstd::string::*;
use crate::braid::{
    str_eq, alternating_at, electron_spec, muon_spec, neutron_spec, proton_spec, tau_spec,
    generar_patron_boson_w, generar_patron_boson_z, generar_patron_electron, generar_patron_higgs,
    generar_patron_muon, generar_patron_neutron, generar_patron_proton, generar_patron_tau,
};
use crate::text::{decimal, push_decimal, push_signed, signed_decimal};

verus! {

/// Burgers numbers of the W, Z and Higgs bosons, and the offset observed
/// between found and expected crossing numbers.
pub const NF_W: i32 = 15743000;
pub const NF_Z: i32 = 20176000;
pub const NF_HIGGS: i32 = 37625000;
pub const BOSON_NF_OFFSET: i32 = 180000;

/// `|nf + offset - target| < 1000`.
pub open spec fn near_boson(nf: int, target: int) -> bool {
    let d = nf + BOSON_NF_OFFSET - target;
    -1000 < d < 1000
}

/// Type of a configuration with `nf` crossings, given whether it shows O_h
/// symmetry (the empty configuration always does).
pub open spec fn vcv48_type(nf: int, has_symmetry: bool) -> Seq<char> {
    let residuo = if nf > 0 {
        nf % 48
    } else {
        0
    };
    if nf == 0 && has_symmetry {
        "GRAVITON (Vacio Topologico)"@
    } else if near_boson(nf, NF_W as int) {
        "BOSON_W (candidato, Nf="@ + signed_decimal(nf) + ")"@
    } else if near_boson(nf, NF_Z as int) {
        "BOSON_Z (candidato, Nf="@ + signed_decimal(nf) + ")"@
    } else if near_boson(nf, NF_HIGGS as int) {
        "BOSON_HIGGS (candidato, Nf="@ + signed_decimal(nf) + ")"@
    } else if nf == 1 && has_symmetry {
        "ELECTRON"@
    } else if nf == 207 && has_symmetry {
        "MUON"@
    } else if nf == 1836 && has_symmetry {
        "PROTON"@
    } else if nf == 1838 && has_symmetry {
        "NEUTRON (Inestable)"@
    } else if residuo == 24 && nf > 1000 {
        "MATERIA_OSCURA"@
    } else if has_symmetry {
        "SIMETRICO_48 (residuo="@ + decimal(residuo as nat) + ")"@
    } else {
        "GENERICO"@
    }
}

/// Type of a configuration with `nf` crossings, given whether it shows O_h
/// symmetry.
pub fn vcv48_particle_type(nf: i32, has_symmetry: bool) -> (t: String)
    requires
        nf + BOSON_NF_OFFSET <= i32::MAX,
        nf + BOSON_NF_OFFSET - NF_HIGGS > i32::MIN,
    ensures
        t@ == vcv48_type(nf as int, has_symmetry),
{
    let residuo: i32 = if nf > 0 {
        nf % 48
    } else {
        0
    };
    let shifted = nf + BOSON_NF_OFFSET;
    let dw = shifted - NF_W;
    let dz = shifted - NF_Z;
    let dh = shifted - NF_HIGGS;
    let mut t = String::new();
    if nf == 0 && has_symmetry {
        t.append("GRAVITON (Vacio Topologico)");
    } else if -1000 < dw && dw < 1000 {
        t.append("BOSON_W (candidato, Nf=");
        push_signed(&mut t, nf as i128);
        t.append(")");
    } else if -1000 < dz && dz < 1000 {
        t.append("BOSON_Z (candidato, Nf=");
        push_signed(&mut t, nf as i128);
        t.append(")");
    } else if -1000 < dh && dh < 1000 {
        t.append("BOSON_HIGGS (candidato, Nf=");
        push_signed(&mut t, nf as i128);
        t.append(")");
    } else if nf == 1 && has_symmetry {
        t.append("ELECTRON");
    } else if nf == 207 && has_symmetry {
        t.append("MUON");
    } else if nf == 1836 && has_symmetry {
        t.append("PROTON");
    } else if nf == 1838 && has_symmetry {
        t.append("NEUTRON (Inestable)");
    } else if residuo == 24 && nf > 1000 {
        t.append("MATERIA_OSCURA");
    } else if has_symmetry {
        t.append("SIMETRICO_48 (residuo=");
        push_decimal(&mut t, residuo as u128);
        t.append(")");
    } else {
        t.append("GENERICO");
    }
    assert(t@ =~= vcv48_type(nf as int, has_symmetry));
    t
}

/// Remainder of `nf` by 48 with the sign of `nf`, as Rust's `%` computes it.
pub open spec fn rem48(nf: int) -> int {
    if nf >= 0 {
        nf % 48
    } else {
        -((-nf) % 48)
    }
}

fn rem48_i32(nf: i32) -> (r: i32)
    ensures
        r == rem48(nf as int),
        -48 < r < 48,
{
    let n = nf as i64;
    if n >= 0 {
        (n % 48) as i32
    } else {
        (-((-n) % 48)) as i32
    }
}

/// O_h representation associated with a residue modulo 48.
pub open spec fn representation(residuo: int) -> Seq<char> {
    if residuo == 0 {
        "E_g (gravitón)"@
    } else if residuo == 1 {
        "A₁g (electrón/fotón)"@
    } else if residuo == 2 {
        "T₁u (π⁻/π⁰)"@
    } else if residuo == 8 {
        "E_g (W/Higgs)"@
    } else if residuo == 12 {
        "T₁u (protón)"@
    } else if residuo == 13 {
        "? (ν_μ)"@
    } else if residuo == 14 {
        "T₂g (neutrón)"@
    } else if residuo == 15 {
        "G_g (muón)"@
    } else if residuo == 16 {
        "T₁u⊕A₁g (Z)"@
    } else if residuo == 19 {
        "? (ν_τ)"@
    } else if residuo == 21 {
        "G_g (tau)"@
    } else if residuo == 24 {
        "H_u (axión/DM)"@
    } else if residuo == 28 {
        "T₁u (π⁺)"@
    } else if residuo == 29 {
        "? (ν̄_τ)"@
    } else if residuo == 35 {
        "? (ν̄_μ)"@
    } else {
        "Representación desconocida (residuo "@ + signed_decimal(residuo) + ")"@
    }
}

/// O_h representation associated with a residue modulo 48.
pub fn representacion_por_residuo(residuo: i32) -> (s: String)
    ensures
        s@ == representation(residuo as int),
{
    let mut s = String::new();
    if residuo == 0 {
        s.append("E_g (gravitón)");
    } else if residuo == 1 {
        s.append("A₁g (electrón/fotón)");
    } else if residuo == 2 {
        s.append("T₁u (π⁻/π⁰)");
    } else if residuo == 8 {
        s.append("E_g (W/Higgs)");
    } else if residuo == 12 {
        s.append("T₁u (protón)");
    } else if residuo == 13 {
        s.append("? (ν_μ)");
    } else if residuo == 14 {
        s.append("T₂g (neutrón)");
    } else if residuo == 15 {
        s.append("G_g (muón)");
    } else if residuo == 16 {
        s.append("T₁u⊕A₁g (Z)");
    } else if residuo == 19 {
        s.append("? (ν_τ)");
    } else if residuo == 21 {
        s.append("G_g (tau)");
    } else if residuo == 24 {
        s.append("H_u (axión/DM)");
    } else if residuo == 28 {
        s.append("T₁u (π⁺)");
    } else if residuo == 29 {
        s.append("? (ν̄_τ)");
    } else if residuo == 35 {
        s.append("? (ν̄_μ)");
    } else {
        s.append("Representación desconocida (residuo ");
        push_signed(&mut s, residuo as i128);
        s.append(")");
    }
    assert(s@ =~= representation(residuo as int));
    s
}

/// Type of a configuration with `nf` crossings in the optimised engine,
/// given whether its points are symmetric.
pub open spec fn optimized_type(nf: int, symmetric: bool) -> Seq<char> {
    let r = rem48(nf);
    if nf == 1 {
        "Electrón"@
    } else if nf == 207 {
        "Muón"@
    } else if nf == 3477 {
        "Tau"@
    } else if nf == 1836 {
        "Protón"@
    } else if nf == 1838 {
        "Neutrón"@
    } else if nf == 15_563_000 {
        "Bosón W"@
    } else if nf == 19_996_000 {
        "Bosón Z"@
    } else if nf == 37_445_000 {
        "Bosón Higgs"@
    } else if symmetric && r == 1 {
        "Candidato electrón-like"@
    } else if symmetric && r == 15 {
        "Candidato muón-like"@
    } else if symmetric && r == 12 {
        "Candidato protón-like"@
    } else if symmetric && r == 24 {
        "Candidato axión/DM"@
    } else {
        "Partícula genérica Nf="@ + signed_decimal(nf)
    }
}

/// Type of a configuration with `nf` crossings in the optimised engine,
/// and its residue modulo 48 (with the sign of `nf`).
pub fn optimized_particle_type(nf: i32, symmetric: bool) -> (res: (String, i32))
    ensures
        res.0@ == optimized_type(nf as int, symmetric),
        res.1 == rem48(nf as int),
{
    let residuo = rem48_i32(nf);
    let mut t = String::new();
    if nf == 1 {
        t.append("Electrón");
    } else if nf == 207 {
        t.append("Muón");
    } else if nf == 3477 {
        t.append("Tau");
    } else if nf == 1836 {
        t.append("Protón");
    } else if nf == 1838 {
        t.append("Neutrón");
    } else if nf == 15_563_000 {
        t.append("Bosón W");
    } else if nf == 19_996_000 {
        t.append("Bosón Z");
    } else if nf == 37_445_000 {
        t.append("Bosón Higgs");
    } else if symmetric && residuo == 1 {
        t.append("Candidato electrón-like");
    } else if symmetric && residuo == 15 {
        t.append("Candidato muón-like");
    } else if symmetric && residuo == 12 {
        t.append("Candidato protón-like");
    } else if symmetric && residuo == 24 {
        t.append("Candidato axión/DM");
    } else {
        t.append("Partícula genérica Nf=");
        push_signed(&mut t, nf as i128);
    }
    assert(t@ =~= optimized_type(nf as int, symmetric));
    (t, residuo)
}

/// Crossing number and strands of the particle with the given name.
pub open spec fn particle_entry(name: Seq<char>) -> Option<(i32, i32)> {
    if name == "electron"@ {
        Some((1i32, 4i32))
    } else if name == "muon"@ {
        Some((207i32, 4i32))
    } else if name == "tau"@ {
        Some((3477i32, 5i32))
    } else if name == "proton"@ {
        Some((1836i32, 4i32))
    } else if name == "neutron"@ {
        Some((1838i32, 4i32))
    } else if name == "w"@ {
        Some((15_563_000i32, 10i32))
    } else if name == "z"@ {
        Some((19_996_000i32, 8i32))
    } else if name == "higgs"@ {
        Some((37_445_000i32, 12i32))
    } else {
        None
    }
}

/// Crossing number and strands of the particle with the given name, or
/// `None` for an unknown name.
pub fn particle_by_name(name: &str) -> (r: Option<(i32, i32)>)
    ensures
        r == particle_entry(name@),
{
    if str_eq(name, "electron") {
        Some((1, 4))
    } else if str_eq(name, "muon") {
        Some((207, 4))
    } else if str_eq(name, "tau") {
        Some((3477, 5))
    } else if str_eq(name, "proton") {
        Some((1836, 4))
    } else if str_eq(name, "neutron") {
        Some((1838, 4))
    } else if str_eq(name, "w") {
        Some((15_563_000, 10))
    } else if str_eq(name, "z") {
        Some((19_996_000, 8))
    } else if str_eq(name, "higgs") {
        Some((37_445_000, 12))
    } else {
        None
    }
}

/// The residues that decide the lifetime of a configuration.
pub open spec fn lifetime_residue(k: int) -> int {
    let t: Seq<int> = seq![1, 12, 14, 15, 24, 35, 36, 48];
    t[k]
}

/// `|r - m|`.
pub open spec fn gap(r: int, m: int) -> int {
    if r >= m {
        r - m
    } else {
        m - r
    }
}

/// Distance from the residue `r` to the nearest of 1, 12, 14, 15, 24, 35,
/// 36 and 48.
pub fn nearest_lifetime_residue_distance(residuo: usize) -> (d: usize)
    requires
        residuo < 48,
    ensures
        exists|k: int| 0 <= k < 8 && d == gap(residuo as int, lifetime_residue(k)),
        forall|k: int| 0 <= k < 8 ==> d <= gap(residuo as int, #[trigger] lifetime_residue(k)),
{
    let t: [usize; 8] = [1, 12, 14, 15, 24, 35, 36, 48];
    assert(t@ =~= seq![1usize, 12, 14, 15, 24, 35, 36, 48]);
    let mut best: usize = if residuo >= 1 {
        residuo - 1
    } else {
        1 - residuo
    };
    let mut k: usize = 1;
    assert(lifetime_residue(0) == 1);
    while k < 8
        invariant
            1 <= k <= 8,
            residuo < 48,
            t@ == seq![1usize, 12, 14, 15, 24, 35, 36, 48],
            exists|j: int| 0 <= j < k && best == gap(residuo as int, lifetime_residue(j)),
            forall|j: int| 0 <= j < k ==> best <= gap(residuo as int, #[trigger] lifetime_residue(j)),
        decreases 8 - k,
    {
        let m = t[k];
        assert(m == lifetime_residue(k as int));
        let d = if residuo >= m {
            residuo - m
        } else {
            m - residuo
        };
        if d < best {
            best = d;
        }
        k = k + 1;
    }
    best
}

/// The generators of a pattern that cycles through `strands` strands and
/// flips sign every `block` crossings, for `n` crossings.
pub open spec fn alternating_spec(n: nat, strands: nat, block: nat) -> Seq<i32> {
    Seq::new(n, |i: int| alternating_at(strands, block, i as nat) as i32)
}

/// The pattern of the named particle, for the names the optimised engine
/// knows.
pub open spec fn named_pattern(name: Seq<char>) -> Option<Seq<i32>> {
    if name == "electron"@ {
        Some(electron_spec())
    } else if name == "muon"@ {
        Some(muon_spec())
    } else if name == "proton"@ {
        Some(proton_spec())
    } else if name == "neutron"@ {
        Some(neutron_spec())
    } else if name == "tau"@ {
        Some(tau_spec())
    } else if name == "w"@ {
        Some(alternating_spec(15_563_000, 10, 5))
    } else if name == "z"@ {
        Some(alternating_spec(19_996_000, 8, 4))
    } else if name == "higgs"@ {
        Some(alternating_spec(37_445_000, 12, 6))
    } else {
        None
    }
}

/// Generators of the named particle's pattern, for the names the optimised
/// engine knows; `None` otherwise.
pub fn pattern_by_name(name: &str) -> (p: Option<Vec<i32>>)
    ensures
        match p {
            Some(v) => named_pattern(name@) == Some(v@),
            None => named_pattern(name@) is None,
        },
{
    if str_eq(name, "electron") {
        Some(generar_patron_electron())
    } else if str_eq(name, "muon") {
        let v = generar_patron_muon();
        assert(v@ =~= muon_spec());
        Some(v)
    } else if str_eq(name, "proton") {
        let v = generar_patron_proton();
        assert(v@ =~= proton_spec());
        Some(v)
    } else if str_eq(name, "neutron") {
        let v = generar_patron_neutron();
        assert(v@ =~= neutron_spec());
        Some(v)
    } else if str_eq(name, "tau") {
        let v = generar_patron_tau();
        assert(v@ =~= tau_spec());
        Some(v)
    } else if str_eq(name, "w") {
        let v = generar_patron_boson_w();
        assert(v@ =~= alternating_spec(15_563_000, 10, 5));
        Some(v)
    } else if str_eq(name, "z") {
        let v = generar_patron_boson_z();
        assert(v@ =~= alternating_spec(19_996_000, 8, 4));
        Some(v)
    } else if str_eq(name, "higgs") {
        let v = generar_patron_higgs();
        assert(v@ =~= alternating_spec(37_445_000, 12, 6));
        Some(v)
    } else {
        None
    }
}

/// The crossing numbers in `lo..=hi` whose remainder by 48 (with the sign
/// of the number) is `target`, in increasing order.
pub open spec fn residue_class(lo: int, hi: int, target: int) -> Seq<i32>
    decreases hi - lo + 1,
{
    if lo > hi {
        seq![]
    } else {
        let rest = residue_class(lo + 1, hi, target);
        if rem48(lo) == target {
            seq![lo as i32] + rest
        } else {
            rest
        }
    }
}

proof fn lemma_residue_class_step(lo: int, hi: int, target: int)
    requires
        lo <= hi,
    ensures
        residue_class(lo, hi, target) == if rem48(lo) == target {
            seq![lo as i32] + residue_class(lo + 1, hi, target)
        } else {
            residue_class(lo + 1, hi, target)
        },
{
}

/// The crossing numbers from `inicio` to `fin` inclusive in the residue
/// class `target` modulo 48: the numbers the ultra-fine scan evaluates.
pub fn residue_class_in_range(inicio: i32, fin: i32, target: i32) -> (v: Vec<i32>)
    ensures
        v@ == residue_class(inicio as int, fin as int, target as int),
{
    let mut v: Vec<i32> = Vec::new();
    if inicio > fin {
        return v;
    }
    let mut nf: i32 = inicio;
    loop
        invariant
            inicio <= nf <= fin,
            v@ + residue_class(nf as int, fin as int, target as int) == residue_class(
                inicio as int,
                fin as int,
                target as int,
            ),
        decreases fin - nf,
    {
        let r = rem48_i32(nf);
        let ghost before = v@;
        proof {
            lemma_residue_class_step(nf as int, fin as int, target as int);
        }
        if r == target {
            v.push(nf);
            assert(before + (seq![nf] + residue_class(nf + 1, fin as int, target as int)) =~= v@
                + residue_class(nf + 1, fin as int, target as int));
        }
        if nf == fin {
            proof {
                assert(residue_class(nf + 1, fin as int, target as int) =~= seq![]);
                assert(v@ + seq![] =~= v@);
            }
            return v;
        }
        nf = nf + 1;
    }
}

/// The residues `r < 48` that make `partial + r` a multiple of 48, in
/// increasing order.
pub open spec fn closing_residues(partial: int, n: nat) -> Seq<i32>
    decreases n,
{
    if n == 0 {
        seq![]
    } else {
        let r = n - 1;
        closing_residues(partial, (n - 1) as nat) + if (partial + r) % 48 == 0 {
            seq![r as i32]
        } else {
            seq![]
        }
    }
}

/// The sums of the lepton and quark residues, their total, and the residues
/// of the top quark that close the total to a multiple of 48.
pub struct TopologicalClosure {
    pub suma_leptones: i32,
    pub suma_quarks: i32,
    pub suma_parcial: i32,
    pub posibles_residuos: Vec<i32>,
}

/// The residue of the top quark that closes the sum of the known residues
/// to a multiple of 48.
pub fn verificar_cierre_topologico() -> (c: TopologicalClosure)
    ensures
        c.suma_leptones == 37,
        c.suma_quarks == 109,
        c.suma_parcial == 146,
        c.posibles_residuos@ == closing_residues(146, 48),
        c.posibles_residuos@ == seq![46i32],
{
    let leptones: [i32; 3] = [1, 15, 21];
    let quarks: [i32; 5] = [4, 9, 39, 37, 20];
    let suma_leptones = leptones[0] + leptones[1] + leptones[2];
    let suma_quarks = quarks[0] + quarks[1] + quarks[2] + quarks[3] + quarks[4];
    let suma_parcial = suma_leptones + suma_quarks;
    let mut posibles: Vec<i32> = Vec::new();
    let mut r: i32 = 0;
    while r < 48
        invariant
            0 <= r <= 48,
            suma_parcial == 146,
            posibles@ == closing_residues(146, r as nat),
            r <= 46 ==> posibles@ == Seq::<i32>::empty(),
            r > 46 ==> posibles@ == seq![46i32],
        decreases 48 - r,
    {
        if (suma_parcial + r) % 48 == 0 {
            posibles.push(r);
        }
        proof {
            assert(posibles@ =~= closing_residues(146, (r + 1) as nat));
        }
        r = r + 1;
    }
    TopologicalClosure { suma_leptones, suma_quarks, suma_parcial, posibles_residuos: posibles }
}


/// Only a configuration of more than 1000 crossings with residue 24 modulo
/// 48 is typed as dark matter, and every such one is, unless it lies near a
/// boson; a symmetric configuration of at most 1000 crossings with residue
/// 24 is typed `SIMETRICO_48 (residuo=24)`. Below 1000 crossings, apart from
/// the electron and the muon, a symmetric configuration is named by its
/// residue and any other one is generic.
pub proof fn lemma_vcv48_dark_matter(nf: int, has_symmetry: bool)
    ensures
        vcv48_type(nf, has_symmetry) == "MATERIA_OSCURA"@ ==> nf > 1000 && nf % 48 == 24,
        nf > 1000 && nf % 48 == 24 && !near_boson(nf, NF_W as int) && !near_boson(nf, NF_Z as int)
            && !near_boson(nf, NF_HIGGS as int) ==> vcv48_type(nf, has_symmetry) == "MATERIA_OSCURA"@,
        has_symmetry && 0 < nf <= 1000 && nf % 48 == 24 ==> vcv48_type(nf, has_symmetry)
            == "SIMETRICO_48 (residuo=24)"@,
        has_symmetry && 1 < nf <= 1000 && nf != 207 ==> vcv48_type(nf, has_symmetry)
            == "SIMETRICO_48 (residuo="@ + decimal((nf % 48) as nat) + ")"@,
        !has_symmetry && 0 <= nf <= 1000 ==> vcv48_type(nf, has_symmetry) == "GENERICO"@,
{
    reveal_strlit("MATERIA_OSCURA");
    reveal_strlit("GRAVITON (Vacio Topologico)");
    reveal_strlit("BOSON_W (candidato, Nf=");
    reveal_strlit("BOSON_Z (candidato, Nf=");
    reveal_strlit("BOSON_HIGGS (candidato, Nf=");
    reveal_strlit(")");
    reveal_strlit("ELECTRON");
    reveal_strlit("MUON");
    reveal_strlit("PROTON");
    reveal_strlit("NEUTRON (Inestable)");
    reveal_strlit("SIMETRICO_48 (residuo=");
    reveal_strlit("SIMETRICO_48 (residuo=24)");
    reveal_strlit("GENERICO");
    let t = vcv48_type(nf, has_symmetry);
    let dark = "MATERIA_OSCURA"@;
    if t == dark && !(nf > 1000 && nf % 48 == 24) {
        let residuo = if nf > 0 {
            nf % 48
        } else {
            0
        };
        if near_boson(nf, NF_W as int) {
            assert(t[0] == 'B');
        } else if near_boson(nf, NF_Z as int) {
            assert(t[0] == 'B');
        } else if near_boson(nf, NF_HIGGS as int) {
            assert(t[0] == 'B');
        } else if nf == 0 && has_symmetry {
            assert(t[0] == 'G');
        } else if nf == 1 && has_symmetry {
            assert(t[0] == 'E');
        } else if nf == 207 && has_symmetry {
            assert(t.len() == 4);
        } else if nf == 1836 && has_symmetry {
            assert(t[0] == 'P');
        } else if nf == 1838 && has_symmetry {
            assert(t[0] == 'N');
        } else if residuo == 24 && nf > 1000 {
        } else if has_symmetry {
            assert(t[0] == 'S');
        } else {
            assert(t[0] == 'G');
        }
        assert(dark[0] == 'M' && dark.len() == 14);
    }
    if has_symmetry && 0 < nf <= 1000 && nf % 48 == 24 {
        assert(decimal(24) =~= seq!['2', '4']) by {
            reveal_with_fuel(decimal, 2);
        }
        assert(t =~= "SIMETRICO_48 (residuo=24)"@);
    }
}

/// A symmetric configuration whose crossing number is not one of the named
/// particles is typed by its residue modulo 48: residue 15 as muon-like and
/// residue 14 as a generic particle `Partícula genérica Nf=<nf>`; likewise
/// residues 1, 12 and 24 as electron-, proton- and axion/DM-like.
pub proof fn lemma_optimized_residue_types(nf: int)
    ensures
        !optimized_named(nf) && rem48(nf) == 15 ==> optimized_type(nf, true) == "Candidato muón-like"@,
        !optimized_named(nf) && rem48(nf) == 14 ==> optimized_type(nf, true) == "Partícula genérica Nf="@
            + signed_decimal(nf),
        !optimized_named(nf) && rem48(nf) == 1 ==> optimized_type(nf, true) == "Candidato electrón-like"@,
        !optimized_named(nf) && rem48(nf) == 12 ==> optimized_type(nf, true) == "Candidato protón-like"@,
        !optimized_named(nf) && rem48(nf) == 24 ==> optimized_type(nf, true) == "Candidato axión/DM"@,
        !optimized_named(nf) ==> optimized_type(nf, false) == "Partícula genérica Nf="@ + signed_decimal(nf),
{
}

/// The crossing numbers the optimised engine names after a particle.
pub open spec fn optimized_named(nf: int) -> bool {
    nf == 1 || nf == 207 || nf == 3477 || nf == 1836 || nf == 1838 || nf == 15_563_000 || nf
        == 19_996_000 || nf == 37_445_000
}

} // verus!
