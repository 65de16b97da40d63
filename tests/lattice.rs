use raytrace::perlin::{generate_perm, permute, shuffle_with, Lattice, TABLE_LEN};

fn is_perm_of_range(v: &[usize], n: usize) -> bool {
    let mut s = v.to_vec();
    s.sort();
    s == (0..n).collect::<Vec<usize>>()
}

#[test]
fn generate_perm_is_a_permutation() {
    for _ in 0..10 {
        let p = generate_perm();
        assert_eq!(p.len(), TABLE_LEN);
        assert!(is_perm_of_range(&p, 256));
    }
}

#[test]
fn permute_keeps_the_values() {
    let mut p = vec![5, 5, 1, 9, 0, 3];
    permute(&mut p);
    p.sort();
    assert_eq!(p, vec![0, 1, 3, 5, 5, 9]);
    let mut empty: Vec<usize> = Vec::new();
    permute(&mut empty);
    assert!(empty.is_empty());
}

#[test]
fn shuffle_with_swaps_from_the_back() {
    let mut p = vec![10, 11, 12, 13];
    // position 3 with 0, then 2 with 2, then 1 with 0
    shuffle_with(&mut p, &vec![0, 0, 2, 0]);
    assert_eq!(p, vec![11, 13, 12, 10]);
}

#[test]
fn shuffle_with_identity_targets_leaves_order() {
    let mut p = vec![4, 3, 2, 1];
    shuffle_with(&mut p, &vec![0, 1, 2, 3]);
    assert_eq!(p, vec![4, 3, 2, 1]);
}

#[test]
fn lattice_corner_is_xor_of_wrapped_entries() {
    let l = Lattice::new();
    for &(i, j, k) in &[(0, 0, 0), (1, 2, 3), (255, 256, -1), (-300, 1000, 7)] {
        let r = l.corner(i, j, k);
        let expect = l.perm_x[(i & 255) as usize] ^ l.perm_y[(j & 255) as usize] ^ l.perm_z[(k & 255) as usize];
        assert_eq!(r, expect);
        assert!(r < TABLE_LEN);
    }
    assert_eq!(l.corner(-1, 0, 0), l.corner(255, 256, 512));
}
