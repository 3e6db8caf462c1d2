use vcv48::octahedral::{generate_oh_group, mat_det, mat_identity, mat_mul, oh_order, oh_verify, verify_group};
use vcv48::spectrum::{
    nearest_lifetime_residue_distance, optimized_particle_type, particle_by_name, pattern_by_name,
    representacion_por_residuo, vcv48_particle_type,
};

#[test]
fn vcv48_types() {
    assert_eq!(vcv48_particle_type(0, true), "GRAVITON (Vacio Topologico)");
    assert_eq!(vcv48_particle_type(15_563_000, false), "BOSON_W (candidato, Nf=15563000)");
    assert_eq!(vcv48_particle_type(19_996_500, true), "BOSON_Z (candidato, Nf=19996500)");
    assert_eq!(vcv48_particle_type(37_445_000, true), "BOSON_HIGGS (candidato, Nf=37445000)");
    assert_eq!(vcv48_particle_type(1, true), "ELECTRON");
    assert_eq!(vcv48_particle_type(207, true), "MUON");
    assert_eq!(vcv48_particle_type(1836, true), "PROTON");
    assert_eq!(vcv48_particle_type(1838, true), "NEUTRON (Inestable)");
    assert_eq!(vcv48_particle_type(1032, false), "MATERIA_OSCURA");
    assert_eq!(vcv48_particle_type(50, true), "SIMETRICO_48 (residuo=2)");
    assert_eq!(vcv48_particle_type(50, false), "GENERICO");
    assert_eq!(vcv48_particle_type(207, false), "GENERICO");
    assert_eq!(vcv48_particle_type(-5, true), "SIMETRICO_48 (residuo=0)");
}

#[test]
fn representations() {
    assert_eq!(representacion_por_residuo(0), "E_g (gravitón)");
    assert_eq!(representacion_por_residuo(24), "H_u (axión/DM)");
    assert_eq!(representacion_por_residuo(16), "T₁u⊕A₁g (Z)");
    assert_eq!(representacion_por_residuo(5), "Representación desconocida (residuo 5)");
    assert_eq!(representacion_por_residuo(-3), "Representación desconocida (residuo -3)");
}

#[test]
fn optimized_types() {
    assert_eq!(optimized_particle_type(3477, false), ("Tau".to_string(), 21));
    assert_eq!(optimized_particle_type(15_563_000, false).0, "Bosón W");
    assert_eq!(optimized_particle_type(49, true), ("Candidato electrón-like".to_string(), 1));
    assert_eq!(optimized_particle_type(49, false), ("Partícula genérica Nf=49".to_string(), 1));
    assert_eq!(optimized_particle_type(-47, true), ("Partícula genérica Nf=-47".to_string(), -47));
    assert_eq!(optimized_particle_type(72, true).0, "Candidato axión/DM");
}

#[test]
fn particles_by_name() {
    assert_eq!(particle_by_name("tau"), Some((3477, 5)));
    assert_eq!(particle_by_name("w"), Some((15_563_000, 10)));
    assert_eq!(particle_by_name("higgs"), Some((37_445_000, 12)));
    assert_eq!(particle_by_name("gluon"), None);
}

#[test]
fn patterns_by_name() {
    assert_eq!(pattern_by_name("electron"), Some(vec![1]));
    assert_eq!(pattern_by_name("neutron").map(|p| p.len()), Some(1838));
    assert_eq!(pattern_by_name("z").map(|p| p.len()), Some(19_996_000));
    assert_eq!(pattern_by_name("photon"), None);
}

#[test]
fn lifetime_distances() {
    assert_eq!(nearest_lifetime_residue_distance(30), 5);
    assert_eq!(nearest_lifetime_residue_distance(0), 1);
    assert_eq!(nearest_lifetime_residue_distance(14), 0);
    assert_eq!(nearest_lifetime_residue_distance(42), 6);
    assert_eq!(nearest_lifetime_residue_distance(47), 1);
}

#[test]
fn oh_group_is_verified() {
    let ops = generate_oh_group();
    assert_eq!(ops.len(), 48);
    assert_eq!(oh_order(), 48);
    let (ok, msg) = oh_verify();
    assert!(ok);
    assert_eq!(msg, "Group O_h verified: 48 elements, orthogonal, closed, det = ±1");
    let proper = ops.iter().filter(|m| mat_det(m) == 1).count();
    assert_eq!(proper, 24);
}

#[test]
fn group_verification_failures() {
    let mut ops = generate_oh_group();
    let id = mat_identity();
    let pos = ops.iter().position(|m| *m == id).unwrap();
    ops[pos] = [2, 0, 0, 0, 1, 0, 0, 0, 1];
    let (ok, msg) = verify_group(&ops);
    assert!(!ok);
    assert_eq!(msg, "Identity not found");
    let mut ops2 = generate_oh_group();
    ops2[5] = [1, 1, 0, 0, 1, 0, 0, 0, 1];
    let (ok2, msg2) = verify_group(&ops2);
    assert!(!ok2);
    assert_eq!(msg2, "Matrix 5 is not orthogonal");
}

#[test]
fn matrix_product() {
    let a = [0, 1, 0, 1, 0, 0, 0, 0, 1];
    assert_eq!(mat_mul(&a, &a), mat_identity());
    assert_eq!(mat_det(&a), -1);
}
