//! Audit of the 48^k structure (the signature of the group O_h, of order
//! 48 = 2^4 · 3) in the catalog of denominators: the ladder of powers of 48,
//! the fixed catalog, and the split of each entry.

use vstd::prelude::*;
use crate::smooth::{factorize_2_3, is_split, pow_u128, power, saturate, saturating_mul_u128, val_48};

verus! {

/// The ladder `48^k` for `k = 0, 1, ...` while the power fits in `u128`
/// (at most 41 rungs).
pub fn ladder_rungs() -> (rungs: Vec<(u32, u128)>)
    ensures
        1 <= rungs@.len() <= 41,
        forall|j: int| 0 <= j < rungs@.len() ==> #[trigger] rungs@[j] == (j as u32, power(48, j as nat) as u128),
        rungs@.len() == 41 || power(48, rungs@.len() as nat) > u128::MAX,
{
    let mut rungs: Vec<(u32, u128)> = Vec::with_capacity(24);
    let mut q: u128 = 1;
    let mut k: u32 = 0;
    assert(power(48, 0) == 1);
    while k <= 40
        invariant_except_break
            rungs@.len() == k,
            q as nat == power(48, k as nat),
            forall|j: int| 0 <= j < k ==> #[trigger] rungs@[j] == (j as u32, power(48, j as nat) as u128),
        invariant
            k <= 41,
        ensures
            1 <= rungs@.len() <= 41,
            forall|j: int| 0 <= j < rungs@.len() ==> #[trigger] rungs@[j] == (j as u32, power(48, j as nat) as u128),
            rungs@.len() == 41 || power(48, rungs@.len() as nat) > u128::MAX,
        decreases 41 - k,
    {
        rungs.push((k, q));
        if q > u128::MAX / 48 {
            proof {
                assert(power(48, (k + 1) as nat) == q * 48);
            }
            break;
        }
        proof {
            assert(power(48, (k + 1) as nat) == q * 48);
        }
        q = q * 48;
        k = k + 1;
    }
    rungs
}

/// An entry of the catalog: its name, its denominator `q`, what the annex
/// claims of it and its class.
pub struct CatalogEntry {
    pub name: &'static str,
    pub q: u128,
    pub anexo: &'static str,
    pub class: &'static str,
}

/// Exponents `(a, b)` of the five ultralight-axion states `2^a · 3^b`.
pub open spec fn ula_exponents(i: int) -> (nat, nat) {
    if i == 0 {
        (69, 14)
    } else if i == 1 {
        (50, 26)
    } else if i == 2 {
        (4, 55)
    } else if i == 3 {
        (88, 2)
    } else {
        (31, 38)
    }
}

/// Denominator of catalog entry `i < 12`.
pub open spec fn catalog_q(i: int) -> nat {
    if i == 0 {
        12_230_590_464
    } else if i == 1 {
        80_621_568
    } else if i == 2 {
        49_430_988
    } else if i == 3 {
        10_223_244
    } else if i == 4 {
        64
    } else if i == 5 {
        128
    } else if i == 6 {
        91
    } else {
        let (a, b) = ula_exponents(i - 7);
        saturate(saturate(power(2, a)) as nat * saturate(power(3, b)) as nat) as nat
    }
}

/// Name of catalog entry `i < 12`.
pub open spec fn catalog_name(i: int) -> Seq<char> {
    if i == 0 {
        "QCD Axion"@
    } else if i == 1 {
        "nu1 light"@
    } else if i == 2 {
        "nu2 solar"@
    } else if i == 3 {
        "nu3 atm"@
    } else if i == 4 {
        "W boson"@
    } else if i == 5 {
        "Z boson"@
    } else if i == 6 {
        "Higgs"@
    } else if i == 7 {
        "ULA S1"@
    } else if i == 8 {
        "ULA S2"@
    } else if i == 9 {
        "ULA S3"@
    } else if i == 10 {
        "ULA S4"@
    } else {
        "ULA S5"@
    }
}

/// The catalog: the QCD axion, the three neutrinos, the W, Z and Higgs
/// bosons, and the five ultralight-axion states.
pub fn build_catalog() -> (v: Vec<CatalogEntry>)
    ensures
        v@.len() == 12,
        forall|i: int| 0 <= i < 12 ==> #[trigger] v@[i].q == catalog_q(i) && v@[i].name@ == catalog_name(i),
{
    let mut v: Vec<CatalogEntry> = Vec::new();
    v.push(CatalogEntry { name: "QCD Axion", q: 12_230_590_464, anexo: "2^24 · 3^6", class: "Pure boson" });
    v.push(
        CatalogEntry {
            name: "nu1 light",
            q: 80_621_568,
            anexo: "Annex: 2^12·3^9 = 48^3·729 (3-smooth, not 48-exact)",
            class: "Mixed fermion (Annex)",
        },
    );
    v.push(CatalogEntry { name: "nu2 solar", q: 49_430_988, anexo: "Annex: 2^2·3·4119249", class: "Mixed fermion" });
    v.push(CatalogEntry { name: "nu3 atm", q: 10_223_244, anexo: "Annex: 2^2·3·851937", class: "Mixed fermion" });
    v.push(CatalogEntry { name: "W boson", q: 64, anexo: "q = 2^6", class: "Pure boson" });
    v.push(CatalogEntry { name: "Z boson", q: 128, anexo: "q = 2^7", class: "Pure boson" });
    v.push(CatalogEntry { name: "Higgs", q: 91, anexo: "q = 7·13", class: "Mixed boson" });
    let names: [&'static str; 5] = ["ULA S1", "ULA S2", "ULA S3", "ULA S4", "ULA S5"];
    let exps: [(u32, u32); 5] = [(69, 14), (50, 26), (4, 55), (88, 2), (31, 38)];
    let mut i: usize = 0;
    while i < 5
        invariant
            i <= 5,
            v@.len() == 7 + i,
            names@ == seq!["ULA S1", "ULA S2", "ULA S3", "ULA S4", "ULA S5"],
            exps@ == seq![(69u32, 14u32), (50u32, 26u32), (4u32, 55u32), (88u32, 2u32), (31u32, 38u32)],
            forall|j: int| 0 <= j < 7 + i ==> #[trigger] v@[j].q == catalog_q(j) && v@[j].name@ == catalog_name(j),
        decreases 5 - i,
    {
        let (a, b) = exps[i];
        let q = saturating_mul_u128(pow_u128(2, a), pow_u128(3, b));
        v.push(CatalogEntry { name: names[i], q, anexo: "q = 2^a·3^b (ULA)", class: "Pure boson (ULA)" });
        proof {
            let j = 7 + i as int;
            assert(ula_exponents(i as int) == (a as nat, b as nat)) by {
                if i == 0 {
                } else if i == 1 {
                } else if i == 2 {
                } else if i == 3 {
                } else {
                }
            }
            assert(v@[j].name@ == catalog_name(j)) by {
                if i == 0 {
                } else if i == 1 {
                } else if i == 2 {
                } else if i == 3 {
                } else {
                }
            }
        }
        i = i + 1;
    }
    v
}

/// The split of a denominator: its exponents of 2 and 3, the rest prime to
/// 6, its 48-adic valuation and the rest after it, whether it is an exact
/// power `48^k` with `k > 0`, and whether it is 3-smooth.
#[derive(Clone, Copy)]
pub struct QAudit {
    pub a: u32,
    pub b: u32,
    pub rest23: u128,
    pub k: u32,
    pub rest: u128,
    pub is_exact: bool,
    pub is_3smooth: bool,
}

/// `r` is the audit of the positive denominator `q`.
pub open spec fn audit_of(q: nat, r: QAudit) -> bool {
    &&& is_split(q, r.a as nat, r.b as nat, r.rest23 as nat)
    &&& q == power(48, r.k as nat) * r.rest
    &&& r.rest % 48 != 0
    &&& r.is_exact == (r.rest == 1 && r.k > 0)
    &&& r.is_3smooth == (r.rest23 == 1)
}

/// Audits a positive denominator.
pub fn audit_q(q: u128) -> (r: QAudit)
    requires
        q > 0,
    ensures
        audit_of(q as nat, r),
{
    let (a, b, rest23) = factorize_2_3(q);
    let (k, rest) = val_48(q);
    QAudit { a, b, rest23, k, rest, is_exact: rest == 1 && k > 0, is_3smooth: rest23 == 1 }
}

/// The names of the exact powers of 48 among the first `n` entries, in order.
pub open spec fn exact_names(cat: Seq<CatalogEntry>, audits: Seq<QAudit>, n: nat) -> Seq<&'static str>
    decreases n,
{
    if n == 0 {
        seq![]
    } else if audits[n - 1].is_exact {
        exact_names(cat, audits, (n - 1) as nat).push(cat[n - 1].name)
    } else {
        exact_names(cat, audits, (n - 1) as nat)
    }
}

/// The audit of every entry of a catalog of positive denominators, the
/// number of exact powers of 48, and their names.
pub struct CatalogReport {
    pub audits: Vec<QAudit>,
    pub exact_count: usize,
    pub exact_names: Vec<&'static str>,
}

/// Audits every entry of the catalog and lists the exact powers of 48.
pub fn analyze_catalog(catalog: &Vec<CatalogEntry>) -> (report: CatalogReport)
    requires
        forall|i: int| 0 <= i < catalog@.len() ==> #[trigger] catalog@[i].q > 0,
    ensures
        report.audits@.len() == catalog@.len(),
        forall|i: int| 0 <= i < catalog@.len() ==> audit_of(#[trigger] catalog@[i].q as nat, report.audits@[i]),
        report.exact_names@ == exact_names(catalog@, report.audits@, catalog@.len()),
        report.exact_count == report.exact_names@.len(),
{
    let mut audits: Vec<QAudit> = Vec::new();
    let mut names: Vec<&'static str> = Vec::new();
    let mut count: usize = 0;
    let mut i: usize = 0;
    while i < catalog.len()
        invariant
            i <= catalog@.len(),
            forall|j: int| 0 <= j < catalog@.len() ==> #[trigger] catalog@[j].q > 0,
            audits@.len() == i,
            forall|j: int| 0 <= j < i ==> audit_of(#[trigger] catalog@[j].q as nat, audits@[j]),
            names@ == exact_names(catalog@, audits@, i as nat),
            count == names@.len(),
            count <= i,
        decreases catalog@.len() - i,
    {
        let e = &catalog[i];
        let r = audit_q(e.q);
        let ghost old_audits = audits@;
        audits.push(r);
        proof {
            lemma_exact_names_prefix(catalog@, old_audits, audits@, i as nat);
        }
        if r.is_exact {
            count = count + 1;
            names.push(e.name);
        }
        proof {
            assert(audits@[i as int] == r);
            assert(names@ =~= exact_names(catalog@, audits@, (i + 1) as nat));
        }
        i = i + 1;
    }
    CatalogReport { audits, exact_count: count, exact_names: names }
}

proof fn lemma_exact_names_prefix(cat: Seq<CatalogEntry>, a1: Seq<QAudit>, a2: Seq<QAudit>, n: nat)
    requires
        n <= a1.len(),
        n <= a2.len(),
        forall|j: int| 0 <= j < n ==> a1[j] == a2[j],
    ensures
        exact_names(cat, a1, n) == exact_names(cat, a2, n),
    decreases n,
{
    if n > 0 {
        lemma_exact_names_prefix(cat, a1, a2, (n - 1) as nat);
    }
}

} // verus!
