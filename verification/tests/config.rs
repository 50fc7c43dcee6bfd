use lau_geometric_deep_learning::agent::{EquivariantModelBuilder, LayerKind};
use lau_geometric_deep_learning::config::{has_symmetry, GeometricModelConfig, SymmetryType};
use lau_geometric_deep_learning::gauge::TransportMode;
use lau_geometric_deep_learning::rotation::RotationInvariantFeatures;
use lau_geometric_deep_learning::spatial::{layer_dim_pairs, MessageAggregation};
use lau_geometric_deep_learning::spectral::GraphFourier;

#[test]
fn test_model_config_default() {
    let config = GeometricModelConfig::default();
    assert_eq!(config.input_dim, 16);
    assert_eq!(config.num_layers, 3);
    assert_eq!(config.symmetries.len(), 1);
}

#[test]
fn test_builder() {
    let config = EquivariantModelBuilder::new()
        .input_dim(8)
        .hidden_dim(16)
        .output_dim(4)
        .num_layers(2)
        .num_agents(5)
        .add_symmetry(SymmetryType::Permutation)
        .add_symmetry(SymmetryType::Scale)
        .use_spatial(true)
        .into_config();
    assert_eq!(config.input_dim, 8);
    assert_eq!(config.hidden_dim, 16);
}

#[test]
fn builder_sets_fields() {
    let config = EquivariantModelBuilder::new()
        .input_dim(8)
        .hidden_dim(16)
        .output_dim(4)
        .num_layers(2)
        .num_agents(5)
        .add_symmetry(SymmetryType::Permutation)
        .add_symmetry(SymmetryType::Scale)
        .use_spatial(true)
        .use_spectral(true)
        .into_config();
    assert_eq!(config.input_dim, 8);
    assert_eq!(config.hidden_dim, 16);
    assert_eq!(config.output_dim, 4);
    assert_eq!(config.num_layers, 2);
    assert_eq!(config.num_agents, 5);
    assert_eq!(config.symmetries, vec![SymmetryType::Permutation, SymmetryType::Scale]);
    assert!(config.use_spatial && config.use_spectral);
}

#[test]
fn plan_default_model() {
    let plan = GeometricModelConfig::default().plan();
    assert_eq!(plan.layer_kind, Some(LayerKind::DeepSets));
    assert_eq!(plan.layers, vec![(16, 32), (32, 32), (32, 32)]);
    assert_eq!(plan.spectral_filters, 0);
    assert_eq!(plan.scale_layer, None);
    assert!(!plan.rotation_features);
    assert_eq!(plan.gauge_layer, None);
}

#[test]
fn plan_with_other_symmetries() {
    let mut config = GeometricModelConfig::default();
    config.symmetries = vec![SymmetryType::Scale, SymmetryType::Rotation { dim: 2 }, SymmetryType::Gauge { fiber_dim: 2 }];
    config.num_layers = 2;
    config.use_spectral = true;
    let plan = config.plan();
    assert_eq!(plan.layer_kind, Some(LayerKind::MessagePassing));
    assert_eq!(plan.layers, vec![(16, 32), (32, 32)]);
    assert_eq!(plan.spectral_filters, 2);
    assert_eq!(plan.scale_layer, Some((32, 8)));
    assert!(plan.rotation_features);
    assert_eq!(plan.gauge_layer, Some((2, 8)));

    config.use_spatial = false;
    config.symmetries = vec![SymmetryType::Scale, SymmetryType::Rotation { dim: 3 }];
    let plan = config.plan();
    assert_eq!(plan.layer_kind, None);
    assert!(plan.layers.is_empty());
    assert_eq!(plan.scale_layer, Some((16, 8)));
    assert!(!plan.rotation_features);
}

#[test]
fn symmetry_membership() {
    let syms = vec![SymmetryType::Translation { dim: 3 }, SymmetryType::Time];
    assert!(has_symmetry(&syms, SymmetryType::Translation { dim: 3 }));
    assert!(!has_symmetry(&syms, SymmetryType::Translation { dim: 2 }));
    assert!(has_symmetry(&syms, SymmetryType::Time));
}

#[test]
fn small_types() {
    let r = RotationInvariantFeatures::default();
    assert!(r.include_distances && r.include_angles && !r.include_areas);
    assert_ne!(TransportMode::Trivial, TransportMode::Interpolated);
    assert_eq!(MessageAggregation::Mean, MessageAggregation::Mean);
    assert_eq!(GraphFourier, GraphFourier);
    assert_eq!(layer_dim_pairs(&[4, 8, 2]), vec![(4, 8), (8, 2)]);
    assert!(layer_dim_pairs(&[4]).is_empty());
    assert!(layer_dim_pairs(&[]).is_empty());
}
