use vcv48::audit::{analyze_catalog, audit_q, build_catalog, ladder_rungs};
use vcv48::axion::{compute_charge, format_factorization, scan_ula_states};
use vcv48::band::scan_band_core;
use vcv48::fraction::{calculate_charge, convergents_from_quotients, oh_purity_factors, FractionalNf};
use vcv48::rng::{Lcg, Rng};
use vcv48::smooth::{
    ceil_log2, factorize_2_3, factorize_smooth, floor_log2, is_3_smooth, pow_u128, saturating_mul_u128,
    val_48,
};
use vcv48::text::decimal_string;

#[test]
fn rng_seed_42_first_outputs() {
    let mut rng = Rng::new(42);
    assert_eq!(rng.next(), 16928297377235138008);
    assert_eq!(rng.next(), 15446514046540754221);
}

#[test]
fn rng_seed_0_first_output() {
    let mut rng = Rng::new(0);
    assert_eq!(rng.next(), 13146096136617330531);
}

#[test]
fn rng_same_seed_same_stream() {
    let mut a = Rng::new(7);
    let mut b = Rng::new(7);
    for _ in 0..20 {
        assert_eq!(a.next(), b.next());
    }
}

#[test]
fn lcg_steps() {
    let mut g = Lcg::new(1);
    assert_eq!(g.next_u64(), 7806831264735756412);
    assert_eq!(g.next_u64(), 9396908728118811419);
    assert_eq!(g.state, 9396908728118811419);
}

#[test]
fn powers_saturate() {
    assert_eq!(pow_u128(3, 5), 243);
    assert_eq!(pow_u128(48, 0), 1);
    assert_eq!(pow_u128(2, 127), 1u128 << 127);
    assert_eq!(pow_u128(2, 128), u128::MAX);
    assert_eq!(pow_u128(3, 200), u128::MAX);
    assert_eq!(saturating_mul_u128(u128::MAX, 2), u128::MAX);
    assert_eq!(saturating_mul_u128(6, 7), 42);
}

#[test]
fn logarithms() {
    assert_eq!(floor_log2(0), 0);
    assert_eq!(floor_log2(1), 0);
    assert_eq!(floor_log2(1000), 9);
    assert_eq!(floor_log2(u128::MAX), 127);
    assert_eq!(ceil_log2(1), 0);
    assert_eq!(ceil_log2(1000), 10);
    assert_eq!(ceil_log2(1024), 10);
    assert_eq!(ceil_log2(1025), 11);
}

#[test]
fn splits() {
    let q = 48u128.pow(3) * 5;
    assert_eq!(factorize_2_3(q), (12, 3, 5));
    assert_eq!(factorize_smooth(q), (12, 3, 5));
    assert_eq!(factorize_2_3(0), (0, 0, 0));
    assert_eq!(factorize_2_3(1), (0, 0, 1));
    assert_eq!(factorize_smooth(91), (0, 0, 91));
    assert!(is_3_smooth(12_230_590_464));
    assert!(!is_3_smooth(91));
    assert!(is_3_smooth(1));
}

#[test]
fn valuation_48() {
    assert_eq!(val_48(48u128.pow(3) * 5), (3, 5));
    assert_eq!(val_48(12_230_590_464), (6, 1));
    assert_eq!(val_48(80_621_568), (3, 729));
    assert_eq!(val_48(64), (0, 64));
    assert_eq!(val_48(0), (0, 0));
}

#[test]
fn factorization_labels() {
    assert_eq!(format_factorization(12_230_590_464), "2^24 · 3^6");
    assert_eq!(format_factorization(64), "2^6");
    assert_eq!(format_factorization(729), "3^6");
    assert_eq!(format_factorization(1), "1");
    assert_eq!(format_factorization(91), "2^0 · 3^0 · 91");
    assert_eq!(format_factorization(12 * 35), "2^2 · 3^1 · 35");
}

#[test]
fn charges() {
    assert_eq!(compute_charge(1, 64), 2);
    assert_eq!(compute_charge(1, 91), 1);
    assert_eq!(compute_charge(1, 5), 6);
    assert_eq!(compute_charge(1, 10), 6);
}

#[test]
fn decimal_rendering() {
    assert_eq!(decimal_string(0), "0");
    assert_eq!(decimal_string(1234567890), "1234567890");
    assert_eq!(decimal_string(u128::MAX), u128::MAX.to_string());
}

#[test]
fn band_scan_small() {
    assert_eq!(scan_band_core(1, 2304), (50, vec![(1, 48), (2, 2304)]));
    assert_eq!(scan_band_core(1000, 100000), (61, vec![(2, 2304)]));
    assert_eq!(scan_band_core(0, 100), (0, vec![]));
}

#[test]
fn ula_scan_small_band() {
    let (states, tried) = scan_ula_states(100, 1000);
    assert_eq!(tried, 25);
    assert_eq!(
        states,
        vec![
            (128, 7, 0),
            (256, 8, 0),
            (192, 6, 1),
            (384, 7, 1),
            (144, 4, 2),
            (288, 5, 2),
            (108, 2, 3),
            (216, 3, 3),
            (162, 1, 4),
            (324, 2, 4),
            (243, 0, 5),
            (486, 1, 5),
            (972, 2, 5),
            (729, 0, 6)
        ]
    );
}

#[test]
fn ula_scan_default_band_finds_five_states() {
    let lo: u128 = 2756197120280474747345567744;
    let hi: u128 = 2926683540091638366150328320;
    let (states, tried) = scan_ula_states(lo, hi);
    assert_eq!(tried, 231);
    assert_eq!(
        states,
        vec![
            (2785365088392105618523029504, 88, 2),
            (2823366561775568012263292928, 69, 14),
            (2861886499322070388803895296, 50, 26),
            (2900931974575463122360860672, 31, 38),
            (2791187376145922865138728112, 4, 55)
        ]
    );
}

#[test]
fn ula_scan_empty_band() {
    let (states, tried) = scan_ula_states(2838883, 2925000);
    assert!(states.is_empty());
    assert_eq!(tried, 55);
}

#[test]
fn ladder_of_48() {
    let rungs = ladder_rungs();
    assert_eq!(rungs.len(), 23);
    assert_eq!(rungs[0], (0, 1));
    assert_eq!(rungs[1], (1, 48));
    assert_eq!(rungs[22], (22, 9711967541295580042210555933809967104));
}

#[test]
fn catalog_entries() {
    let cat = build_catalog();
    assert_eq!(cat.len(), 12);
    assert_eq!(cat[0].name, "QCD Axion");
    assert_eq!(cat[0].q, 12_230_590_464);
    assert_eq!(cat[6].q, 91);
    assert_eq!(cat[7].name, "ULA S1");
    assert_eq!(cat[7].q, 2823366561775568012263292928);
    assert_eq!(cat[9].q, 2791187376145922865138728112);
}

#[test]
fn catalog_audit_finds_one_exact_power() {
    let cat = build_catalog();
    let report = analyze_catalog(&cat);
    assert_eq!(report.audits.len(), 12);
    assert_eq!(report.exact_count, 1);
    assert_eq!(report.exact_names, vec!["QCD Axion"]);
    let qcd = report.audits[0];
    assert_eq!((qcd.a, qcd.b, qcd.rest23, qcd.k, qcd.rest), (24, 6, 1, 6, 1));
    assert!(qcd.is_exact && qcd.is_3smooth);
    let nu1 = report.audits[1];
    assert_eq!((nu1.a, nu1.b, nu1.k, nu1.rest), (12, 9, 3, 729));
    assert!(!nu1.is_exact && nu1.is_3smooth);
    let higgs = audit_q(91);
    assert!(!higgs.is_3smooth && !higgs.is_exact);
    assert_eq!(higgs.rest23, 91);
}

#[test]
fn fraction_lowest_terms() {
    let f = FractionalNf::new(6, 8);
    assert_eq!((f.numerator, f.denominator), (3, 4));
    let g = FractionalNf::new(0, 5);
    assert_eq!((g.numerator, g.denominator), (0, 1));
    assert_eq!(FractionalNf::gcd(12, 18), 6);
    assert_eq!(FractionalNf::gcd(7, 0), 7);
}

#[test]
fn fraction_charges() {
    assert_eq!(calculate_charge(FractionalNf::new(1, 48)), 1);
    assert_eq!(calculate_charge(FractionalNf::new(5, 96)), 2);
    assert_eq!(calculate_charge(FractionalNf::new(4, 7)), -1);
    assert_eq!(calculate_charge(FractionalNf::new(3, 7)), 0);
}

#[test]
fn convergents_of_pi() {
    let quotients: Vec<i128> = vec![3, 7, 15, 1, 292, 1];
    let c = convergents_from_quotients(&quotients, 1000);
    let pairs: Vec<(u64, u64)> = c.iter().map(|f| (f.numerator, f.denominator)).collect();
    assert_eq!(pairs, vec![(3, 1), (22, 7), (333, 106), (355, 113)]);
    for w in pairs.windows(2) {
        let det = w[1].0 as i128 * w[0].1 as i128 - w[0].0 as i128 * w[1].1 as i128;
        assert!(det == 1 || det == -1);
    }
}

#[test]
fn purity_factors() {
    assert_eq!(oh_purity_factors(48), (4, 1, 1));
    assert_eq!(oh_purity_factors(0), (0, 0, 0));
    assert_eq!(oh_purity_factors(70), (1, 0, 35));
}

#[test]
fn ula_scan_narrow_band_lists_every_smooth_state_once() {
    let (states, _) = scan_ula_states(100, 300);
    let mut found: Vec<u128> = states.iter().map(|s| s.0).collect();
    found.sort();
    assert_eq!(found, vec![108, 128, 144, 162, 192, 216, 243, 256, 288]);
    for (q, a, b) in &states {
        assert_eq!(*q, 2u128.pow(*a) * 3u128.pow(*b));
    }
}
