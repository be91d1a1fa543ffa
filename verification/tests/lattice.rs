use raytracer::perlin::{check_permutation, perlin_generate_perm, permute, swap_entries, wrap, Perlin, POINT_COUNT};

fn identity() -> Vec<usize> {
    (0..POINT_COUNT).collect()
}

fn table(reverse: bool) -> [usize; 256] {
    let mut t = [0usize; 256];
    for i in 0..256 {
        t[i] = if reverse { 255 - i } else { i };
    }
    t
}

#[test]
fn generated_table_is_a_permutation() {
    let perm = perlin_generate_perm();
    assert_eq!(perm.len(), 256);
    assert!(check_permutation(&perm));
    let mut sorted = perm.to_vec();
    sorted.sort();
    assert_eq!(sorted, identity());
}

#[test]
fn generated_table_is_shuffled() {
    let perm = perlin_generate_perm();
    assert_ne!(perm.to_vec(), identity());
    assert_eq!(perm[255], 255);
}

#[test]
fn permute_moves_every_entry_it_visits() {
    let mut perm = identity();
    permute(&mut perm, POINT_COUNT);
    for i in 1..255usize {
        assert_ne!(perm[i], i);
    }
}

#[test]
fn permute_leaves_short_tables_alone() {
    let mut perm = vec![4usize, 9];
    permute(&mut perm, 2);
    assert_eq!(perm, vec![4, 9]);
    let mut three = vec![4usize, 9, 1];
    permute(&mut three, 3);
    assert_eq!(three, vec![9, 4, 1]);
}

#[test]
fn swap_entries_exchanges_two_places() {
    let mut perm = vec![10usize, 11, 12, 13];
    swap_entries(&mut perm, 3, 1);
    assert_eq!(perm, vec![10, 13, 12, 11]);
    swap_entries(&mut perm, 2, 2);
    assert_eq!(perm, vec![10, 13, 12, 11]);
}

#[test]
fn check_permutation_rejects_bad_tables() {
    assert!(check_permutation(&identity()));
    let mut dup = identity();
    dup[7] = 8;
    assert!(!check_permutation(&dup));
    let mut big = identity();
    big[0] = 256;
    assert!(!check_permutation(&big));
    assert!(!check_permutation(&vec![0usize, 1, 2]));
}

#[test]
fn wrap_is_periodic() {
    assert_eq!(wrap(0), 0);
    assert_eq!(wrap(255), 255);
    assert_eq!(wrap(256), 0);
    assert_eq!(wrap(-1), 255);
    assert_eq!(wrap(-256), 0);
    assert_eq!(wrap(i32::MIN), 0);
    assert_eq!(wrap(i32::MAX), 255);
}

#[test]
fn lattice_index_combines_three_tables() {
    let lattice = Perlin::from_tables(table(false), table(true), table(false)).unwrap();
    assert_eq!(lattice.lattice_index(3, 0, 5), 3 ^ 255 ^ 5);
    assert_eq!(lattice.lattice_index(-1, 256, 0), 255 ^ 255 ^ 0);
    for i in -300..300 {
        assert!(lattice.lattice_index(i, i * 7, -i) < 256);
    }
}

#[test]
fn from_tables_wants_permutations() {
    let mut twice = table(false);
    twice[9] = 8;
    let mut beyond = table(false);
    beyond[0] = 256;
    assert!(Perlin::from_tables(table(false), table(false), twice).is_none());
    assert!(Perlin::from_tables(beyond, table(false), table(false)).is_none());
    assert!(Perlin::from_tables(table(false), table(true), table(false)).is_some());
}

#[test]
fn new_lattice_yields_valid_slots() {
    let lattice = Perlin::new();
    for i in -40..40 {
        assert!(lattice.lattice_index(i, 2 * i, 3 * i) < 256);
    }
}

#[test]
fn permute_with_follows_its_draws() {
    let mut perm = vec![10usize, 11, 12, 13, 14];
    raytracer::perlin::permute_with(&mut perm, 5, &vec![0, 0, 1, 2]);
    assert_eq!(perm, vec![13, 10, 11, 12, 14]);
    let mut short = vec![1usize, 2];
    raytracer::perlin::permute_with(&mut short, 2, &vec![0]);
    assert_eq!(short, vec![1, 2]);
}

#[test]
fn corner_slots_follow_the_lattice() {
    let lattice = Perlin::from_tables(table(false), table(true), table(false)).unwrap();
    let slots = lattice.corner_slots(255, -1, 7);
    assert_eq!(slots.len(), 8);
    for di in 0..2usize {
        for dj in 0..2usize {
            for dk in 0..2usize {
                assert_eq!(
                    slots[4 * di + 2 * dj + dk],
                    lattice.lattice_index(255 + di as i32, -1 + dj as i32, 7 + dk as i32)
                );
            }
        }
    }
    assert_eq!(slots[0], 255 ^ 0 ^ 7);
    assert_eq!(slots[7], 0 ^ 255 ^ 8);
}
