use lau_geometric_deep_learning::group_conv::FiniteGroup;

#[test]
fn test_cyclic_group() {
    let z4 = FiniteGroup::cyclic(4);
    assert_eq!(z4.order, 4);
    assert_eq!(z4.multiply(1, 2), 3);
    assert_eq!(z4.multiply(3, 1), 0); // wrap
    assert_eq!(z4.inverse(1), 3);
}

#[test]
fn test_cyclic_identity() {
    let z5 = FiniteGroup::cyclic(5);
    assert_eq!(z5.identity(), 0);
    for i in 0..5 {
        assert_eq!(z5.multiply(0, i), i);
        assert_eq!(z5.multiply(i, 0), i);
    }
}

#[test]
fn test_dihedral_group() {
    let d3 = FiniteGroup::dihedral(3);
    assert_eq!(d3.order, 6);
    // r0 * r1 = r1
    assert_eq!(d3.multiply(0, 1), 1);
    // Identity
    assert_eq!(d3.identity(), 0);
}

#[test]
fn test_symmetric_group() {
    let s3 = FiniteGroup::symmetric(3);
    assert_eq!(s3.order, 6);
    assert_eq!(s3.identity(), 0);
}

#[test]
fn test_symmetric_inverse() {
    let s3 = FiniteGroup::symmetric(3);
    for i in 0..6 {
        let inv = s3.inverse(i);
        assert_eq!(s3.multiply(i, inv), 0);
    }
}

#[test]
fn test_cyclic_associativity() {
    let z5 = FiniteGroup::cyclic(5);
    for a in 0..5 {
        for b in 0..5 {
            for c in 0..5 {
                let ab_c = z5.multiply(z5.multiply(a, b), c);
                let a_bc = z5.multiply(a, z5.multiply(b, c));
                assert_eq!(ab_c, a_bc);
            }
        }
    }
}

fn check_group_axioms(g: &FiniteGroup) {
    let n = g.order;
    assert_eq!(g.table.len(), n);
    assert_eq!(g.inv.len(), n);
    for a in 0..n {
        assert_eq!(g.multiply(0, a), a);
        assert_eq!(g.multiply(a, 0), a);
        assert_eq!(g.multiply(a, g.inverse(a)), 0);
        assert_eq!(g.multiply(g.inverse(a), a), 0);
        for b in 0..n {
            assert!(g.multiply(a, b) < n);
            for c in 0..n {
                assert_eq!(g.multiply(g.multiply(a, b), c), g.multiply(a, g.multiply(b, c)));
            }
        }
    }
}

#[test]
fn cyclic_tables_form_groups() {
    for n in 1..8 {
        check_group_axioms(&FiniteGroup::cyclic(n));
    }
    let z6 = FiniteGroup::cyclic(6);
    assert_eq!(z6.table[4][5], 3);
    assert_eq!(z6.inv[0], 0);
    assert_eq!(z6.inv[2], 4);
}

#[test]
fn cyclic_of_zero_is_empty() {
    let z0 = FiniteGroup::cyclic(0);
    assert_eq!(z0.order, 0);
    assert!(z0.table.is_empty());
    assert!(z0.inv.is_empty());
}

#[test]
fn symmetric_tables_form_groups() {
    for n in 0..6 {
        let g = FiniteGroup::symmetric(n);
        let expected_order = [1, 1, 2, 6, 24, 120][n];
        assert_eq!(g.order, expected_order);
        check_group_axioms(&g);
    }
}

#[test]
fn symmetric_three_products() {
    // Lexicographic order of S_3: 012, 021, 102, 120, 201, 210.
    let s3 = FiniteGroup::symmetric(3);
    // i·j is k ↦ σ_j(σ_i(k)); σ_1 = 021, σ_2 = 102: σ_2(σ_1(k)) = [1, 2, 0] = σ_3.
    assert_eq!(s3.multiply(1, 2), 3);
    // σ_3 = 120 has inverse 201 = σ_4.
    assert_eq!(s3.inverse(3), 4);
    // Transpositions are their own inverses.
    assert_eq!(s3.inverse(1), 1);
    assert_eq!(s3.inverse(5), 5);
}

#[test]
fn dihedral_tables_form_groups() {
    for n in 1..8 {
        let g = FiniteGroup::dihedral(n);
        assert_eq!(g.order, 2 * n);
        check_group_axioms(&g);
    }
}

#[test]
fn dihedral_triangle_products() {
    // Rotations r_k = k, reflections s_k = 3 + k, with s_k = r_k s.
    let d3 = FiniteGroup::dihedral(3);
    for a in 0..6 {
        assert_eq!(d3.multiply(a, 0), a);
        assert_eq!(d3.multiply(0, a), a);
    }
    assert_eq!(d3.multiply(4, 0), 4);
    assert_eq!(d3.multiply(5, 0), 5);
    assert_eq!(d3.multiply(4, 1), 3); // s_1 r_1 = s_0
    assert_eq!(d3.multiply(1, 4), 5); // r_1 s_1 = s_2
    assert_eq!(d3.multiply(4, 5), 2); // s_1 s_2 = r_{-1} = r_2
    assert_eq!(d3.multiply(d3.multiply(3, 1), 1), d3.multiply(3, d3.multiply(1, 1)));
    assert_eq!(d3.inverse(1), 2);
    assert_eq!(d3.inverse(4), 4);
}
