use lau_geometric_deep_learning::permutation::{Aggregation, Permutation};

#[test]
fn test_permutation_identity() {
    let p = Permutation::identity(4);
    assert_eq!(p.perm, vec![0, 1, 2, 3]);
}

#[test]
fn test_permutation_inverse() {
    let p = Permutation::new(vec![2, 0, 1]);
    let inv = p.inverse();
    assert_eq!(inv.perm, vec![1, 2, 0]); // inverse of [2,0,1] is [1,2,0]
}

#[test]
fn test_permutation_compose() {
    let p1 = Permutation::new(vec![1, 2, 0]);
    let p2 = Permutation::new(vec![2, 0, 1]);
    let comp = p1.compose(&p2);
    // p1(p2(x)): p2=[2,0,1], then p1 applied
    assert_eq!(comp.perm.len(), 3);
}

#[test]
fn test_permutation_apply() {
    let p = Permutation::new(vec![2, 0, 1]);
    let items = vec![10, 20, 30];
    let result = p.apply(&items);
    assert_eq!(result, vec![30, 10, 20]);
}

#[test]
fn test_permutation_from_seed() {
    let p1 = Permutation::from_seed(5, 42);
    let p2 = Permutation::from_seed(5, 42);
    assert_eq!(p1, p2);
    // Check it's a valid permutation
    let mut sorted = p1.perm.clone();
    sorted.sort();
    assert_eq!(sorted, vec![0, 1, 2, 3, 4]);
}

#[test]
fn compose_reads_through_both() {
    let p1 = Permutation::new(vec![1, 2, 0]);
    let p2 = Permutation::new(vec![2, 0, 1]);
    assert_eq!(p1.compose(&p2).perm, vec![0, 1, 2]);
    assert_eq!(p2.compose(&p1).perm, vec![0, 1, 2]);
    let p3 = Permutation::new(vec![1, 0, 2]);
    assert_eq!(p1.compose(&p3).perm, vec![2, 1, 0]);
}

#[test]
fn inverse_undoes_permutation() {
    for seed in 0..20u64 {
        let p = Permutation::from_seed(7, seed);
        let inv = p.inverse();
        assert_eq!(inv.compose(&p).perm, Permutation::identity(7).perm);
        assert_eq!(p.compose(&inv).perm, Permutation::identity(7).perm);
        let items: Vec<i32> = (0..7).map(|k| 100 + k).collect();
        let there = p.apply(&items);
        let back = inv.apply(&there);
        assert_eq!(back, items);
        assert_eq!(inv.inverse(), p);
    }
}

#[test]
fn inverse_of_non_bijection_keeps_last_occurrence() {
    let p = Permutation::new(vec![1, 1, 0]);
    assert_eq!(p.inverse().perm, vec![2, 1, 0]);
    let q = Permutation::new(vec![0, 0, 0]);
    assert_eq!(q.inverse().perm, vec![2, 0, 0]);
}

#[test]
fn compose_is_associative_and_identity_is_neutral() {
    let a = Permutation::from_seed(6, 1);
    let b = Permutation::from_seed(6, 2);
    let c = Permutation::from_seed(6, 3);
    assert_eq!(a.compose(&b.compose(&c)).perm, a.compose(&b).compose(&c).perm);
    let id = Permutation::identity(6);
    assert_eq!(id.compose(&a).perm, a.perm);
    assert_eq!(a.compose(&id).perm, a.perm);
}

#[test]
fn from_seed_exact_values() {
    // Swaps at positions 2 and 1 with the generator started at 42.
    let mut s: u64 = 42;
    let mut expected: Vec<usize> = (0..3).collect();
    for i in (1..3usize).rev() {
        s = s.wrapping_mul(6364136223846793005).wrapping_add(1);
        let j = (s >> 33) as usize % (i + 1);
        expected.swap(i, j);
    }
    assert_eq!(Permutation::from_seed(3, 42).perm, expected);
    assert_eq!(Permutation::from_seed(0, 9).perm, Vec::<usize>::new());
    assert_eq!(Permutation::from_seed(1, 9).perm, vec![0]);
    for n in 0..12 {
        let mut sorted = Permutation::from_seed(n, 1234).perm;
        sorted.sort();
        assert_eq!(sorted, (0..n).collect::<Vec<usize>>());
    }
}

#[test]
fn permute_agent_rows() {
    let p = Permutation::new(vec![1, 0]);
    let rows = vec![vec![1.0, 2.0], vec![3.0, 4.0]];
    let result = p.apply(&rows);
    assert!((result[0][0] - 3.0f64).abs() < 1e-10);
    assert!((result[1][0] - 1.0f64).abs() < 1e-10);
}

#[test]
fn length_and_emptiness() {
    assert_eq!(Permutation::identity(4).len(), 4);
    assert!(Permutation::identity(0).is_empty());
    assert!(!Permutation::new(vec![0]).is_empty());
    assert_ne!(Aggregation::Sum, Aggregation::Max);
}
