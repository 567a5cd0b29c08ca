use rand::rngs::StdRng;
use rand::SeedableRng;
use rtc::perlin::{generate_perm, permute, permute_with, Lattice, POINT_COUNT};

#[test]
fn permute_with_writes_drawn_indices() {
    let mut p = vec![0, 1, 2];
    permute_with(&mut p, &vec![0, 0, 0]);
    assert_eq!(p, vec![1, 0, 0]);
}

#[test]
fn permute_with_self_draws_keeps_identity() {
    let mut p = vec![0, 1, 2, 3];
    permute_with(&mut p, &vec![0, 1, 2, 3]);
    assert_eq!(p, vec![0, 1, 2, 3]);
}

#[test]
fn permute_with_single_swap_at_top() {
    let mut p = vec![0, 1, 2, 3];
    permute_with(&mut p, &vec![0, 1, 2, 1]);
    assert_eq!(p, vec![0, 3, 2, 1]);
}

#[test]
fn permute_keeps_entries_in_range() {
    let mut rng = StdRng::seed_from_u64(4);
    let mut p: Vec<i32> = (0..10).collect();
    permute(&mut p, &mut rng);
    assert_eq!(p.len(), 10);
    assert!(p.iter().all(|&x| (0..10).contains(&x)));
}

#[test]
fn generated_tables_index_the_gradients() {
    let mut rng = StdRng::seed_from_u64(8);
    let p = generate_perm(&mut rng);
    assert_eq!(p.len(), POINT_COUNT);
    assert!(p.iter().all(|&x| (0..256).contains(&x)));
    let identity: Vec<i32> = (0..256).collect();
    assert_ne!(p, identity);
}

#[test]
fn same_seed_gives_same_tables() {
    let a = generate_perm(&mut StdRng::seed_from_u64(21));
    let b = generate_perm(&mut StdRng::seed_from_u64(21));
    assert_eq!(a, b);
}

#[test]
fn lattice_corner_wraps_and_combines() {
    let perm_x: Vec<i32> = (0..256).collect();
    let perm_y: Vec<i32> = (0..256).map(|i| 255 - i).collect();
    let perm_z: Vec<i32> = (0..256).map(|i| (i * 7) % 256).collect();
    let lattice = Lattice { perm_x, perm_y, perm_z };
    // x = -1 wraps to 255, y = 0 selects 255, z = 257 wraps to 1 (entry 7).
    assert_eq!(lattice.corner(-1, 0, 257), (255 ^ 255 ^ 7) as usize);
    assert_eq!(lattice.corner(3, 4, 5), (3 ^ 251 ^ 35) as usize);
    assert_eq!(lattice.corner(-256, -257, 512), (0 ^ 0 ^ 0) as usize);
}

#[test]
fn drawn_lattice_corners_are_in_range() {
    let lattice = Lattice::new(&mut StdRng::seed_from_u64(13));
    for i in -3..3 {
        assert!(lattice.corner(i, 2 * i, -i) < POINT_COUNT);
    }
}
