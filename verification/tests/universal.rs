use lau_geometric_deep_learning::universal::{
    approximator_layer_dims, checked_permutation_equiv_parameter_count, deep_sets_hidden_width,
    permutation_equiv_parameter_count, steerable_weight_shapes, IrrepType,
};

#[test]
fn test_irrep_scalar() {
    let t = IrrepType::Scalar;
    assert_eq!(t.dimension(), 1);
}

#[test]
fn test_irrep_vector() {
    let t = IrrepType::Vector { dim: 3 };
    assert_eq!(t.dimension(), 3);
}

#[test]
fn test_irrep_regular() {
    let t = IrrepType::Regular { group_order: 6 };
    assert_eq!(t.dimension(), 6);
}

#[test]
fn test_irrep_direct_sum() {
    let t = IrrepType::DirectSum {
        types: vec![IrrepType::Scalar, IrrepType::Vector { dim: 3 }],
    };
    assert_eq!(t.dimension(), 4);
}

#[test]
fn nested_direct_sum_dimension() {
    let t = IrrepType::DirectSum {
        types: vec![
            IrrepType::Regular { group_order: 6 },
            IrrepType::DirectSum { types: vec![IrrepType::Scalar, IrrepType::Scalar] },
            IrrepType::DirectSum { types: vec![] },
        ],
    };
    assert_eq!(t.dimension(), 8);
}

#[test]
fn approximator_layers_by_depth() {
    assert_eq!(approximator_layer_dims(4, 8, 3, 3), vec![(4, 8), (8, 8), (8, 3)]);
    assert_eq!(approximator_layer_dims(4, 8, 3, 2), vec![(4, 8), (8, 3)]);
    assert_eq!(approximator_layer_dims(3, 8, 2, 1), vec![(3, 8)]);
    assert_eq!(approximator_layer_dims(3, 8, 2, 0), vec![(3, 8)]);
    assert_eq!(approximator_layer_dims(4, 16, 2, 5).len(), 5);
}

#[test]
fn parameter_count_exact() {
    assert_eq!(deep_sets_hidden_width(4, 3), 4);
    // hidden 4: 4*4 + 4 + 3*4 + 3 = 35 per layer, three layers.
    assert_eq!(permutation_equiv_parameter_count(4, 3, 3), 105);
    assert_eq!(permutation_equiv_parameter_count(4, 3, 0), 0);
}

#[test]
fn steerable_shapes() {
    let shapes = steerable_weight_shapes(&IrrepType::Vector { dim: 4 }, &IrrepType::Vector { dim: 2 }, &vec![8, 6]);
    assert_eq!(shapes, vec![(8, 4), (6, 8), (2, 6)]);
    let direct = steerable_weight_shapes(&IrrepType::Scalar, &IrrepType::Scalar, &vec![]);
    assert_eq!(direct, vec![(1, 1)]);
}

#[test]
fn checked_dimension_fits_and_overflows() {
    let t = IrrepType::DirectSum {
        types: vec![IrrepType::Scalar, IrrepType::Vector { dim: 3 }, IrrepType::Regular { group_order: 4 }],
    };
    assert_eq!(t.checked_dimension(), Some(8));
    assert_eq!(IrrepType::DirectSum { types: vec![] }.checked_dimension(), Some(0));
    let big = IrrepType::DirectSum {
        types: vec![IrrepType::Vector { dim: usize::MAX }, IrrepType::Scalar],
    };
    assert_eq!(big.checked_dimension(), None);
    let nested = IrrepType::DirectSum { types: vec![IrrepType::Scalar, big] };
    assert_eq!(nested.checked_dimension(), None);
    assert_eq!(IrrepType::Vector { dim: usize::MAX }.checked_dimension(), Some(usize::MAX));
}

#[test]
fn checked_parameter_count_matches_and_overflows() {
    // hidden = (2 + 3) / 2 + 1 = 3; per layer 3*2 + 3 + 3*3 + 3 = 21.
    assert_eq!(checked_permutation_equiv_parameter_count(2, 3, 2), Some(42));
    assert_eq!(checked_permutation_equiv_parameter_count(2, 3, 2), Some(permutation_equiv_parameter_count(2, 3, 2)));
    assert_eq!(checked_permutation_equiv_parameter_count(2, 3, 0), Some(0));
    assert_eq!(checked_permutation_equiv_parameter_count(usize::MAX, 1, 1), None);
    assert_eq!(checked_permutation_equiv_parameter_count(1 << 40, 1 << 40, 1), None);
    assert_eq!(checked_permutation_equiv_parameter_count(2, 3, usize::MAX), None);
}

#[test]
fn irrep_clone_and_equality() {
    let t = IrrepType::DirectSum {
        types: vec![IrrepType::Scalar, IrrepType::DirectSum { types: vec![IrrepType::Vector { dim: 2 }] }],
    };
    let c = t.clone();
    assert!(c == t);
    assert!(IrrepType::Vector { dim: 2 } != IrrepType::Vector { dim: 3 });
    assert!(IrrepType::Vector { dim: 2 } != IrrepType::Regular { group_order: 2 });
    assert!(IrrepType::DirectSum { types: vec![IrrepType::Scalar] } != IrrepType::DirectSum { types: vec![] });
    assert!(IrrepType::DirectSum { types: vec![IrrepType::Scalar] } != IrrepType::DirectSum { types: vec![IrrepType::Vector { dim: 1 }] });
}
