use vcv48::catalog::{group_into_patches, shuffle_catalog};
use vcv48::spectrum::{residue_class_in_range, verificar_cierre_topologico};

#[test]
fn test_shuffle_preserves_size() {
    let ra = vec![10.0, 20.0, 30.0, 40.0, 50.0];
    let dec = vec![5.0, 15.0, 25.0, 35.0, 45.0];
    let z = vec![0.05, 0.06, 0.07, 0.08, 0.09];
    let (ra_s, dec_s, z_s) = shuffle_catalog(&ra, &dec, &z);
    assert_eq!(ra_s.len(), 5);
    assert_eq!(dec_s.len(), 5);
    assert_eq!(z_s.len(), 5);
}

#[test]
fn shuffle_keeps_values() {
    let ra = vec![3u32, 1, 2, 2];
    let (mut a, b, c) = shuffle_catalog(&ra, &ra, &[7u32]);
    a.sort();
    assert_eq!(a, vec![1, 2, 2, 3]);
    assert_eq!(b.len(), 4);
    assert_eq!(c, vec![7]);
}

#[test]
fn patches_group_objects() {
    // Four objects in a 2 x 2 x 1 grid: bins (ra, dec, z).
    let bins = vec![(0, 1, 0), (1, 1, 0), (0, 2, 0), (1, 0, 0)];
    let patches = group_into_patches(&bins, 2, 2, 1);
    assert_eq!(patches, vec![vec![3], vec![0, 2], vec![1]]);
    assert!(patches.iter().all(|p| !p.is_empty()));
    let mut all: Vec<usize> = patches.concat();
    all.sort();
    assert_eq!(all, vec![0, 1, 2, 3]);
}

#[test]
fn patches_clamp_out_of_range_bins() {
    let bins = vec![(9, 9, 9), (0, 0, 5)];
    let patches = group_into_patches(&bins, 2, 3, 2);
    assert_eq!(patches, vec![vec![1], vec![0]]);
}

#[test]
fn test_partition_catalog() {
    let ra = vec![0.0, 180.0, 0.0, 180.0];
    let dec = vec![0.0, 0.0, 45.0, -45.0];
    let z = vec![0.05, 0.05, 0.05, 0.05];
    let (n_ra, n_dec, n_z) = (2usize, 2usize, 1usize);
    let z_min = z.iter().cloned().fold(f64::INFINITY, f64::min);
    let z_max = z.iter().cloned().fold(f64::NEG_INFINITY, f64::max);
    let z_range = if z_max > z_min { z_max - z_min } else { 1.0 };
    let bins: Vec<(usize, usize, usize)> = (0..ra.len())
        .map(|i| {
            (
                ((ra[i] / 360.0) * n_ra as f64).floor() as usize,
                (((dec[i] + 90.0) / 180.0) * n_dec as f64).floor() as usize,
                (((z[i] - z_min) / z_range) * n_z as f64).floor() as usize,
            )
        })
        .collect();
    assert_eq!(bins, vec![(0, 1, 0), (1, 1, 0), (0, 1, 0), (1, 0, 0)]);
    let patches = group_into_patches(&bins, n_ra, n_dec, n_z);
    assert!(!patches.is_empty());
    assert_eq!(patches, vec![vec![3], vec![0, 2], vec![1]]);
}

#[test]
fn empty_catalog_ignores_grid() {
    assert!(group_into_patches(&vec![], 0, 0, 0).is_empty());
}

#[test]
fn empty_catalog_has_no_patches() {
    let patches = group_into_patches(&vec![], 2, 2, 2);
    assert!(patches.is_empty());
}

#[test]
fn residue_class_scan() {
    assert_eq!(residue_class_in_range(24500, 24700, 27), vec![24507, 24555, 24603, 24651, 24699]);
    assert_eq!(residue_class_in_range(-100, -40, -46), vec![-94, -46]);
    assert!(residue_class_in_range(10, 5, 3).is_empty());
}

#[test]
fn top_quark_closure() {
    let c = verificar_cierre_topologico();
    assert_eq!(c.suma_leptones, 37);
    assert_eq!(c.suma_quarks, 109);
    assert_eq!(c.suma_parcial, 146);
    assert_eq!(c.posibles_residuos, vec![46]);
}
