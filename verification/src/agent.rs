//! Building model configurations, and planning the layers of an equivariant
//! agent model from its configuration.
use vstd::prelude::*;
use crate::config::{GeometricModelConfig, SymmetryType, has_symmetry, is_default_config};

verus! {

/// Builder for equivariant model configurations.
#[derive(Clone, Debug)]
pub struct EquivariantModelBuilder {
    config: GeometricModelConfig,
}

impl EquivariantModelBuilder {
    /// The configuration built so far.
    pub closed spec fn spec_config(self) -> GeometricModelConfig {
        self.config
    }

    /// Starts from the default configuration.
    pub fn new() -> (b: Self)
        ensures
            is_default_config(b.spec_config()),
    {
        EquivariantModelBuilder { config: GeometricModelConfig::default() }
    }

    pub fn input_dim(self, dim: usize) -> (b: Self)
        ensures
            b.spec_config() == (GeometricModelConfig { input_dim: dim, ..self.spec_config() }),
    {
        let mut b = self;
        b.config.input_dim = dim;
        b
    }

    pub fn hidden_dim(self, dim: usize) -> (b: Self)
        ensures
            b.spec_config() == (GeometricModelConfig { hidden_dim: dim, ..self.spec_config() }),
    {
        let mut b = self;
        b.config.hidden_dim = dim;
        b
    }

    pub fn output_dim(self, dim: usize) -> (b: Self)
        ensures
            b.spec_config() == (GeometricModelConfig { output_dim: dim, ..self.spec_config() }),
    {
        let mut b = self;
        b.config.output_dim = dim;
        b
    }

    pub fn num_layers(self, n: usize) -> (b: Self)
        ensures
            b.spec_config() == (GeometricModelConfig { num_layers: n, ..self.spec_config() }),
    {
        let mut b = self;
        b.config.num_layers = n;
        b
    }

    pub fn num_agents(self, n: usize) -> (b: Self)
        ensures
            b.spec_config() == (GeometricModelConfig { num_agents: n, ..self.spec_config() }),
    {
        let mut b = self;
        b.config.num_agents = n;
        b
    }

    /// Adds a symmetry unless it is already configured.
    pub fn add_symmetry(self, sym: SymmetryType) -> (b: Self)
        ensures
            b.spec_config().symmetries@ == if self.spec_config().symmetries@.contains(sym) {
                self.spec_config().symmetries@
            } else {
                self.spec_config().symmetries@.push(sym)
            },
            b.spec_config() == (GeometricModelConfig {
                symmetries: b.spec_config().symmetries,
                ..self.spec_config()
            }),
    {
        let mut b = self;
        if !has_symmetry(&b.config.symmetries, sym) {
            b.config.symmetries.push(sym);
        }
        b
    }

    pub fn use_spectral(self, v: bool) -> (b: Self)
        ensures
            b.spec_config() == (GeometricModelConfig { use_spectral: v, ..self.spec_config() }),
    {
        let mut b = self;
        b.config.use_spectral = v;
        b
    }

    pub fn use_spatial(self, v: bool) -> (b: Self)
        ensures
            b.spec_config() == (GeometricModelConfig { use_spatial: v, ..self.spec_config() }),
    {
        let mut b = self;
        b.config.use_spatial = v;
        b
    }

    /// The finished configuration, from which a model is built.
    pub fn into_config(self) -> (c: GeometricModelConfig)
        ensures
            c == self.spec_config(),
    {
        self.config
    }
}

/// The kind of block in each layer of an equivariant agent model.
#[derive(Clone, Copy, Debug, PartialEq, Eq, Structural)]
pub enum LayerKind {
    /// A Deep Sets (permutation-equivariant) layer.
    DeepSets,
    /// A message-passing layer over the agent graph.
    MessagePassing,
}

/// What an equivariant agent model is made of, decided from its configuration;
/// shapes are `(input_dim, output_dim)`.
#[derive(Clone, Debug)]
pub struct ModelPlan {
    /// The block used in every layer, if any.
    pub layer_kind: Option<LayerKind>,
    /// Shapes of the layer blocks, in order.
    pub layers: Vec<(usize, usize)>,
    /// Number of spectral filters (one per layer when spectral filtering is on).
    pub spectral_filters: usize,
    /// Shape of the scale-normalising layer, if scale symmetry is configured.
    pub scale_layer: Option<(usize, usize)>,
    /// Whether rotation-invariant features are computed.
    pub rotation_features: bool,
    /// Shape of the gauge-equivariant layer, if gauge symmetry is configured.
    pub gauge_layer: Option<(usize, usize)>,
}

/// Permutation layers when permutation symmetry is configured (preferred when
/// spatial filtering is also on), otherwise message passing when spatial
/// filtering is on, otherwise none.
pub open spec fn planned_kind(c: GeometricModelConfig) -> Option<LayerKind> {
    let perm = c.symmetries@.contains(SymmetryType::Permutation);
    if perm && c.use_spatial {
        Some(LayerKind::DeepSets)
    } else if c.use_spatial {
        Some(LayerKind::MessagePassing)
    } else if perm {
        Some(LayerKind::DeepSets)
    } else {
        None
    }
}

/// Shape of layer `k`: the first layer reads the input dimension, every layer
/// writes the hidden dimension.
pub open spec fn planned_layer(c: GeometricModelConfig, k: int) -> (usize, usize) {
    (if k == 0 { c.input_dim } else { c.hidden_dim }, c.hidden_dim)
}

/// Feature dimension after the layer blocks.
pub open spec fn planned_final_dim(c: GeometricModelConfig) -> usize {
    if planned_kind(c) is Some && c.num_layers > 0 {
        c.hidden_dim
    } else {
        c.input_dim
    }
}

impl GeometricModelConfig {
    /// Decides the layers of an equivariant agent model with this configuration.
    pub fn plan(&self) -> (p: ModelPlan)
        ensures
            p.layer_kind == planned_kind(*self),
            p.layers@.len() == if planned_kind(*self) is Some { self.num_layers as nat } else { 0 },
            forall|k: int| 0 <= k < p.layers@.len() ==> #[trigger] p.layers@[k] == planned_layer(*self, k),
            p.spectral_filters == if self.use_spectral { self.num_layers } else { 0 },
            p.scale_layer == if self.symmetries@.contains(SymmetryType::Scale) {
                Some((planned_final_dim(*self), self.output_dim))
            } else {
                None::<(usize, usize)>
            },
            p.rotation_features == self.symmetries@.contains(SymmetryType::Rotation { dim: 2 }),
            p.gauge_layer == if self.symmetries@.contains(SymmetryType::Gauge { fiber_dim: 2 }) {
                Some((2usize, self.output_dim))
            } else {
                None::<(usize, usize)>
            },
            self.symmetries@.contains(SymmetryType::Permutation) ==> p.layer_kind == Some(LayerKind::DeepSets),
            !self.symmetries@.contains(SymmetryType::Permutation) && self.use_spatial ==> p.layer_kind == Some(
                LayerKind::MessagePassing,
            ),
            !self.symmetries@.contains(SymmetryType::Permutation) && !self.use_spatial ==> p.layer_kind is None,
            self.symmetries@.contains(SymmetryType::Permutation) || self.use_spatial ==> p.layers@.len()
                == self.num_layers,
            !self.symmetries@.contains(SymmetryType::Permutation) && !self.use_spatial ==> p.layers@.len() == 0,
            p.layers@.len() > 0 ==> p.layers@[0].0 == self.input_dim,
            forall|k: int| 0 < k < p.layers@.len() ==> (#[trigger] p.layers@[k]).0 == p.layers@[k - 1].1,
            forall|k: int| 0 <= k < p.layers@.len() ==> (#[trigger] p.layers@[k]).1 == self.hidden_dim,
    {
        let perm = has_symmetry(&self.symmetries, SymmetryType::Permutation);
        let kind = if perm && self.use_spatial {
            Some(LayerKind::DeepSets)
        } else if self.use_spatial {
            Some(LayerKind::MessagePassing)
        } else if perm {
            Some(LayerKind::DeepSets)
        } else {
            None
        };
        let mut layers: Vec<(usize, usize)> = Vec::new();
        let mut spectral_filters: usize = 0;
        let mut current_dim = self.input_dim;
        let mut layer_idx: usize = 0;
        while layer_idx < self.num_layers
            invariant
                kind == planned_kind(*self),
                layer_idx <= self.num_layers,
                layers@.len() == if kind is Some { layer_idx as nat } else { 0 },
                forall|k: int| 0 <= k < layers@.len() ==> #[trigger] layers@[k] == planned_layer(*self, k),
                current_dim == if kind is Some && layer_idx > 0 { self.hidden_dim } else { self.input_dim },
                spectral_filters == if self.use_spectral { layer_idx } else { 0 },
            decreases self.num_layers - layer_idx,
        {
            let next_dim = self.hidden_dim;
            if kind.is_some() {
                layers.push((current_dim, next_dim));
                current_dim = next_dim;
            }
            if self.use_spectral {
                spectral_filters = spectral_filters + 1;
            }
            layer_idx = layer_idx + 1;
        }
        let scale_layer = if has_symmetry(&self.symmetries, SymmetryType::Scale) {
            Some((current_dim, self.output_dim))
        } else {
            None
        };
        let rotation_features = has_symmetry(&self.symmetries, SymmetryType::Rotation { dim: 2 });
        let gauge_layer = if has_symmetry(&self.symmetries, SymmetryType::Gauge { fiber_dim: 2 }) {
            Some((2, self.output_dim))
        } else {
            None
        };
        proof {
            lemma_plan_layers(*self);
        }
        ModelPlan { layer_kind: kind, layers, spectral_filters, scale_layer, rotation_features, gauge_layer }
    }
}

/// Law: permutation symmetry always gives Deep Sets layers, whether or not
/// spatial filtering is on; without it, spatial filtering gives message
/// passing and otherwise there are no layer blocks. With either, there is one
/// block per configured layer; they chain from the input dimension through
/// the hidden dimension.
pub proof fn lemma_plan_layers(c: GeometricModelConfig)
    ensures
        c.symmetries@.contains(SymmetryType::Permutation) ==> planned_kind(c) == Some(LayerKind::DeepSets),
        !c.symmetries@.contains(SymmetryType::Permutation) && c.use_spatial ==> planned_kind(c) == Some(
            LayerKind::MessagePassing,
        ),
        !c.symmetries@.contains(SymmetryType::Permutation) && !c.use_spatial ==> planned_kind(c) is None,
        planned_layer(c, 0).0 == c.input_dim,
        forall|k: int| k > 0 ==> (#[trigger] planned_layer(c, k)).0 == planned_layer(c, k - 1).1,
        forall|k: int| (#[trigger] planned_layer(c, k)).1 == c.hidden_dim,
        planned_final_dim(c) == if (c.symmetries@.contains(SymmetryType::Permutation) || c.use_spatial)
            && c.num_layers > 0 {
            c.hidden_dim
        } else {
            c.input_dim
        },
{
}

} // verus!
