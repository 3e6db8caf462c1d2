use vcv48::braid::{
    generar_patron_boson_w, generar_patron_electron, generar_patron_generico, generar_patron_muon,
    generar_patron_neutron, generar_patron_proton, generar_patron_tau, BraidWord,
};
use vcv48::lattice::{is_equivalent_configuration, OhOp};
use vcv48::perturb::{optimized_crossing_value, perturb_step, relax_at};
use vcv48::species::{is_magic_length, stable_generators};

fn word(g: Vec<i32>) -> BraidWord {
    BraidWord::new(g, 4, None)
}

#[test]
fn patterns() {
    assert_eq!(generar_patron_electron(), vec![1]);
    let muon = generar_patron_muon();
    assert_eq!(muon.len(), 207);
    assert_eq!(&muon[..15], &[1, 2, -1, 2, 3, -2, 1, -3, 2, 1, -2, 3, 4, -3, 4]);
    assert_eq!(muon[15], 1);
    let proton = generar_patron_proton();
    assert_eq!(proton.len(), 1836);
    assert_eq!(&proton[..9], &[1, 2, 3, 4, -1, -2, -3, -4, 1]);
    let neutron = generar_patron_neutron();
    assert_eq!(neutron.len(), 1838);
    assert_eq!(&neutron[1836..], &[2, -3]);
    let tau = generar_patron_tau();
    assert_eq!(tau.len(), 3477);
    assert_eq!(&tau[..6], &[1, 2, 3, -4, -5, -1]);
    assert_eq!(generar_patron_generico(7, 3), vec![1, -2, 3, -1, 2, -3, 1]);
}

#[test]
fn boson_w_pattern() {
    let w = generar_patron_boson_w();
    assert_eq!(w.len(), 15_563_000);
    assert_eq!(&w[..11], &[1, 2, 3, 4, 5, -6, -7, -8, -9, -10, 1]);
}

#[test]
fn new_with_hint() {
    let b = BraidWord::new(vec![5, 5], 3, Some("muon".to_string()));
    assert_eq!(b.generators.len(), 207);
    assert_eq!(b.num_strands, 3);
    assert_eq!(b.particle_type, "Desconocida");
    assert_eq!(b.get_residuo_value(), 0);
    let c = BraidWord::new(vec![5, 5], 3, Some("phonon".to_string()));
    assert_eq!(c.generators, vec![5, 5]);
}

#[test]
fn second_move_removes_inverse_pairs() {
    let mut b = word(vec![1, -1, 2, 3, -3, -2, 4]);
    assert!(b.apply_r2());
    assert_eq!(b.generators, vec![4]);
    let mut c = word(vec![1, 2, 3]);
    assert!(!c.apply_r2());
    assert_eq!(c.generators, vec![1, 2, 3]);
}

#[test]
fn first_move_removes_equal_pairs() {
    let mut b = word(vec![1, 1, 2]);
    assert!(b.apply_r1());
    assert_eq!(b.generators, vec![2]);
    let mut c = word(vec![3, 3, 1, 2, 2]);
    assert!(c.apply_r1());
    assert_eq!(c.generators, vec![1]);
}

#[test]
fn same_strand_pairs() {
    let b = word(vec![2, -3, 5]);
    assert!(b.is_same_strand_pair(0, 1));
    assert!(!b.is_same_strand_pair(1, 2));
    assert!(!b.is_same_strand_pair(0, 7));
    let m = word(vec![i32::MAX, -i32::MAX, 7]);
    assert!(m.is_same_strand_pair(0, 1));
}

#[test]
fn reduction_at_the_strand_limit() {
    let mut b = word(vec![i32::MAX, i32::MAX, 5, -i32::MAX]);
    assert!(b.apply_r1());
    assert_eq!(b.generators, vec![5, -i32::MAX]);
    let mut c = word(vec![-i32::MAX, -i32::MAX, 3]);
    c.reduce();
    assert_eq!(c.generators, vec![3]);
    assert_eq!(c.residuo, 1);
}

#[test]
fn braid_relation() {
    let mut b = word(vec![1, 2, 1]);
    assert!(b.apply_r3_search());
    assert_eq!(b.generators, vec![2, 1, 2]);
    let mut c = word(vec![1, 3, 1]);
    assert!(!c.apply_r3_search());
    assert_eq!(c.generators, vec![1, 3, 1]);
}

#[test]
fn reduce_to_normal_form() {
    let mut b = word(vec![1, -1, 2, 2, 3]);
    b.reduce();
    assert_eq!(b.generators, vec![3]);
    assert_eq!(b.get_residuo_value(), 1);
}

#[test]
fn reduce_leaves_particle_patterns() {
    let mut p = word(generar_patron_proton());
    p.reduce();
    assert_eq!(p.generators.len(), 1836);
    assert_eq!(p.residuo, 12);
    let mut t = word(generar_patron_tau());
    t.reduce();
    assert_eq!(t.generators.len(), 3477);
    assert_eq!(t.residuo, 21);
}

#[test]
fn stable_words() {
    assert_eq!(stable_generators(1), vec![1]);
    assert_eq!(stable_generators(49).len(), 49);
    assert_eq!(&stable_generators(49)[..5], &[1, 2, 3, 4, 1]);
    assert!(stable_generators(2).is_empty());
    let muon = BraidWord::new_stable(207);
    assert_eq!(muon.generators.len(), 207);
    assert_eq!(muon.residuo, 15);
    assert_eq!(muon.num_strands, 4);
    let neutron = BraidWord::new_stable(1838);
    assert_eq!(neutron.residuo, 14);
    let empty = BraidWord::new_stable(2);
    assert!(empty.generators.is_empty());
}

#[test]
fn magic_lengths() {
    assert!(is_magic_length(1));
    assert!(is_magic_length(21));
    assert!(is_magic_length(3477));
    assert!(is_magic_length(48 + 24));
    assert!(!is_magic_length(2));
    assert!(!is_magic_length(35));
}

#[test]
fn particle_names() {
    let mut e = word(vec![1]);
    assert_eq!(e.classify_particle(true), "Electrón");
    assert_eq!(e.particle_type, "Electrón");
    let mut u = word(vec![1, 2, 3, 4, 5]);
    assert_eq!(u.classify_particle(false), "Inestable (Nf=5)");
    let mut h = word(vec![1; 50]);
    assert_eq!(h.classify_particle(true), "Partícula hipotética Nf=50");
    let mut a = word(vec![1; 72]);
    assert_eq!(a.classify_particle(true), "Configuración tipo axión");
    let mut p = word(vec![1; 60]);
    assert_eq!(p.classify_particle(true), "Configuración tipo protón");
}

#[test]
fn candidates() {
    let b = word(vec![1; 72]);
    assert!(b.is_potential_candidate(true, false, false));
    assert!(b.is_potential_candidate(false, true, false));
    assert!(!b.is_potential_candidate(false, false, true));
    let c = word(vec![1; 50]);
    assert!(!c.is_potential_candidate(true, true, false));
    assert!(c.is_potential_candidate(true, false, true));
    let e = word(vec![]);
    assert!(!e.is_potential_candidate(true, true, true));
}

#[test]
fn fragments_of_stable_word() {
    let b = word(vec![1, 2, 3]);
    let f = b.fragmentate(true);
    assert_eq!(f.len(), 1);
    assert_eq!(f[0].generators, vec![1, 2, 3]);
}

#[test]
fn fragments_proton_and_muon() {
    let b = word(vec![1; 1836 + 207]);
    let f = b.fragmentate(false);
    assert_eq!(f.len(), 2);
    assert_eq!(f[0].generators.len(), 1836);
    assert_eq!(f[1].generators.len(), 207);
}

#[test]
fn fragments_proton_and_phonon() {
    let b = word(vec![1; 1836 + 100]);
    let f = b.fragmentate(false);
    assert_eq!(f.len(), 2);
    assert_eq!(f[0].generators.len(), 1836);
    assert!(f[1].generators.is_empty());
    assert_eq!(f[1].num_strands, 4);
}

#[test]
fn fragments_greedy() {
    let b = word(vec![1; 5000]);
    let f = b.fragmentate(false);
    assert_eq!(f.len(), 56);
    assert_eq!(f.iter().filter(|w| w.generators.len() == 207).count(), 24);
    assert_eq!(f.iter().filter(|w| w.generators == vec![1]).count(), 32);
    assert_eq!(f.iter().map(|w| w.generators.len()).sum::<usize>(), 5000);
}

fn in_normal_form(g: &[i32]) -> bool {
    let pairs_free = g.windows(2).all(|w| w[0] != w[1] && w[0] != -w[1]);
    let no_site = g.windows(3).all(|w| !(w[0] == w[2] && w[0].abs() == w[1].abs() - 1));
    pairs_free && no_site
}

#[test]
fn reduced_random_words_are_in_normal_form() {
    for nf in [10usize, 57, 200, 480] {
        let mut b = BraidWord::new_random_optimized(nf, 4);
        b.reduce();
        assert!(in_normal_form(&b.generators));
        assert_eq!(b.residuo, b.generators.len() % 48);
        assert!(b.generators.len() <= nf);
        assert_eq!(b.generators.len() % 2, nf % 2);
    }
    let mut c = word(vec![2, 3, 2, -2, 5, 5, 1, 2, 1]);
    c.reduce();
    assert!(in_normal_form(&c.generators));
}

#[test]
fn fragments_short_unstable_word() {
    let b = word(vec![2; 10]);
    let f = b.fragmentate(false);
    assert_eq!(f.len(), 1);
    assert_eq!(f[0].generators, vec![2; 10]);
}

#[test]
fn adjacent_pairs() {
    let b = word(vec![1, 2, -2, -3, 3]);
    assert_eq!(b.adjacent_pair_counts(), (2, 2));
    assert_eq!(word(vec![]).adjacent_pair_counts(), (0, 0));
}

#[test]
fn octahedral_operations() {
    let ops = OhOp::generate_all();
    assert_eq!(ops.len(), 48);
    assert_eq!(ops[0].matrix, [[1, 0, 0], [0, 1, 0], [0, 0, 1]]);
    assert_eq!(ops[7].matrix, [[-1, 0, 0], [0, -1, 0], [0, 0, -1]]);
    assert_eq!(ops[9].matrix, [[1, 0, 0], [0, 0, 1], [0, -1, 0]]);
    assert_eq!(ops[18].matrix, [[0, 1, 0], [-1, 0, 0], [0, 0, 1]]);
    assert_eq!(ops[47].matrix, [[0, 0, -1], [0, -1, 0], [-1, 0, 0]]);
    assert_eq!(ops[1].apply((1, 2, 3)), (1, 2, -3));
    assert_eq!(ops[8].apply((1, 2, 3)), (1, 3, 2));
    for a in 0..48 {
        for b in (a + 1)..48 {
            assert_ne!(ops[a].matrix, ops[b].matrix);
        }
    }
}

#[test]
fn symmetry_counts() {
    assert_eq!(word(vec![1]).symmetric_op_count(), 4);
    assert_eq!(word(vec![1, -1]).symmetric_op_count(), 1);
    assert_eq!(word(vec![1, 2, 3]).symmetric_op_count(), 1);
    assert_eq!(word(vec![4, -2]).symmetric_op_count(), 1);
    assert_eq!(word(vec![]).symmetric_op_count(), 0);
    let ops = OhOp::generate_all();
    assert!(word(vec![4, -2]).check_oh_invariance(&ops[0]));
}

#[test]
fn equivalent_configurations() {
    assert!(is_equivalent_configuration(&vec![(1, 2, 3), (4, 5, 6)], &vec![(4, 5, 6), (1, 2, 3)]));
    assert!(!is_equivalent_configuration(&vec![(1, 2, 3), (1, 2, 3)], &vec![(1, 2, 3), (4, 5, 6)]));
    assert!(!is_equivalent_configuration(&vec![(1, 2, 3)], &vec![(1, 2, 3), (1, 2, 3)]));
    assert!(!is_equivalent_configuration(&vec![], &vec![]));
}

#[test]
fn random_optimized_words() {
    let b = BraidWord::new_random_optimized(100, 4);
    assert_eq!(b.generators.len(), 100);
    assert_eq!(b.num_strands, 4);
    assert!(b.generators.iter().all(|g| g.abs() >= 1 && g.abs() <= 5));
    assert_eq!(optimized_crossing_value(0, 2, 0), -1);
    assert_eq!(optimized_crossing_value(0, 2, 2), -3);
    assert_eq!(optimized_crossing_value(3, 6, 1), 4);
}

#[test]
fn perturbation_injects_crossings() {
    let b = word(vec![1, 2, 3]);
    let mut g = vec![1, 2, 3];
    b.perturb_braid(&mut g, 5);
    assert_eq!(g.len(), 8);
    assert!(g.contains(&1) && g.contains(&2) && g.contains(&3));
    assert!(g.iter().all(|x| x.abs() >= 1 && x.abs() <= 4));
    let mut h: Vec<i32> = vec![];
    b.perturb_braid(&mut h, 0);
    assert!(h.is_empty());
}

#[test]
fn relaxation_step() {
    let mut g = vec![1, 2, 1, 5];
    relax_at(&mut g, 0);
    assert_eq!(g, vec![2, 1, 1, 5]);
    let mut h = vec![1, 3, 1];
    relax_at(&mut h, 0);
    assert_eq!(h, vec![1, 3, 1]);
}

#[test]
fn perturbation_step_inserts_then_relaxes() {
    let mut g = vec![1, 1, 5];
    perturb_step(&mut g, 1, 2, 0);
    assert_eq!(g, vec![2, 1, 1, 5]);
    let mut h = vec![1, 2, 3];
    perturb_step(&mut h, 1, 2, 0);
    assert_eq!(h, vec![1, 2, 2, 3]);
    let mut k = vec![1, 1];
    perturb_step(&mut k, 1, 2, 0);
    assert_eq!(k, vec![1, 2, 1]);
}
