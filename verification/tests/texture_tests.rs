use rtow::perlin::{lattice_coord, PerlinLattice};
use rtow::rand_i8_r;

fn is_permutation(table: &[usize; 256]) -> bool {
    let mut seen = [false; 256];
    for &v in table.iter() {
        if v >= 256 || seen[v] {
            return false;
        }
        seen[v] = true;
    }
    true
}

#[test]
fn generated_tables_are_permutations() {
    for _ in 0..20 {
        assert!(is_permutation(&PerlinLattice::perlin_gen_permutation()));
    }
    let lattice = PerlinLattice::new();
    assert!(is_permutation(&lattice.x_ind));
    assert!(is_permutation(&lattice.y_ind));
    assert!(is_permutation(&lattice.z_ind));
}

#[test]
fn generated_tables_are_shuffled() {
    let identity: [usize; 256] = std::array::from_fn(|i| i);
    let tables: Vec<[usize; 256]> = (0..4).map(|_| PerlinLattice::perlin_gen_permutation()).collect();
    assert!(tables.iter().any(|t| *t != identity));
}

#[test]
fn permute_with_swaps_in_order() {
    let mut vals: [usize; 256] = std::array::from_fn(|i| i);
    let mut targets = [0usize; 256];
    targets[0] = 3;
    targets[1] = 0;
    for k in 2..256 {
        targets[k] = k;
    }
    PerlinLattice::permute_with(&mut vals, &targets);
    // step 0 swaps entries 0 and 3: [3, 1, 2, 0, ...]; step 1 swaps 1 and 0.
    assert_eq!(&vals[..5], &[1, 3, 2, 0, 4]);
    assert!(is_permutation(&vals));

    let mut vals: [usize; 256] = std::array::from_fn(|i| 255 - i);
    PerlinLattice::permute_with(&mut vals, &[255; 256]);
    // position 255 receives each earlier entry in turn and ends with 0's old entry last moved.
    assert!(is_permutation(&vals));
    assert_eq!(vals[0], 0);
    assert_eq!(vals[255], 1);
}

#[test]
fn permute_keeps_entries() {
    let mut vals: [usize; 256] = std::array::from_fn(|i| (i * 7) % 256);
    PerlinLattice::permute(&mut vals);
    assert!(is_permutation(&vals));
}

#[test]
fn lattice_coordinates_wrap() {
    assert_eq!(lattice_coord(0), 0);
    assert_eq!(lattice_coord(255), 255);
    assert_eq!(lattice_coord(256), 0);
    assert_eq!(lattice_coord(300), 44);
    assert_eq!(lattice_coord(-1), 255);
    assert_eq!(lattice_coord(-256), 0);
    assert_eq!(lattice_coord(-300), 212);
    assert_eq!(lattice_coord(i32::MIN), 0);
}

#[test]
fn noise_indices() {
    let lattice = PerlinLattice::new();
    for (i, j, k) in [(0, 0, 0), (1, 2, 3), (255, 255, 255), (17, 200, 99)] {
        let idx = lattice.noise_index(i, j, k);
        assert_eq!(idx, lattice.x_ind[i] ^ lattice.y_ind[j] ^ lattice.z_ind[k]);
        assert!(idx < 256);
    }
    assert_eq!(PerlinLattice::tile_noise_index(1, 2, 4), 7);
    assert_eq!(PerlinLattice::tile_noise_index(255, 255, 0), 0);
    assert_eq!(PerlinLattice::tile_noise_index(128, 64, 1), 193);
}

#[test]
fn random_i8_stays_in_range() {
    let draws: Vec<i8> = (0..300).map(|_| rand_i8_r(-100, 100)).collect();
    assert!(draws.iter().all(|&d| (-100..100).contains(&d)));
    assert!(draws.iter().any(|&d| d != draws[0]));
    assert_eq!(rand_i8_r(0, 1), 0);
    assert_eq!(rand_i8_r(i8::MAX - 1, i8::MAX), i8::MAX - 1);
}
