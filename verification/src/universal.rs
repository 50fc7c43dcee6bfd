//! Representation types for steerable networks and layer planning for
//! universal approximators.
use vstd::prelude::*;

verus! {

/// Irreducible representation type.
#[derive(Debug)]
pub enum IrrepType {
    /// Scalar (trivial representation).
    Scalar,
    /// Vector (standard representation).
    Vector { dim: usize },
    /// Regular representation of a group.
    Regular { group_order: usize },
    /// Direct sum of irreps.
    DirectSum { types: Vec<IrrepType> },
}

impl IrrepType {
    /// Dimension of the representation space: 1 for a scalar, `dim` for a
    /// vector, the group order for a regular representation, and the sum of
    /// the parts for a direct sum.
    pub open spec fn spec_dimension(self) -> nat
        decreases self,
    {
        match self {
            IrrepType::Scalar => 1,
            IrrepType::Vector { dim } => dim as nat,
            IrrepType::Regular { group_order } => group_order as nat,
            IrrepType::DirectSum { types } => sum_dimensions(types@),
        }
    }

    pub fn dimension(&self) -> (r: usize)
        requires
            self.spec_dimension() <= usize::MAX,
        ensures
            r == self.spec_dimension(),
        decreases self,
    {
        match self {
            IrrepType::Scalar => 1,
            IrrepType::Vector { dim } => *dim,
            IrrepType::Regular { group_order } => *group_order,
            IrrepType::DirectSum { types } => {
                let mut total: usize = 0;
                let mut k: usize = 0;
                while k < types.len()
                    invariant
                        self is DirectSum,
                        self->types == *types,
                        k <= types@.len(),
                        sum_dimensions(types@) <= usize::MAX,
                        total == sum_dimensions(types@.subrange(0, k as int)),
                    decreases types@.len() - k,
                {
                    proof {
                        lemma_prefix_sum_step(types@, k as int);
                        lemma_prefix_sum_bounded(types@, k as int + 1);
                        assert(*types == self->types);
                        assert(decreases_to!(*self => self->types));
                        assert(decreases_to!(self->types => (self->types)@));
                        assert(decreases_to!(types@ => types@[k as int]));
                        assert(decreases_to!(*self => types@[k as int]));
                    }
                    let d = types[k].dimension();
                    total = total + d;
                    k = k + 1;
                }
                assert(types@.subrange(0, types@.len() as int) =~= types@);
                total
            }
        }
    }

    /// The dimension, or `None` when it does not fit in `usize`.
    pub fn checked_dimension(&self) -> (r: Option<usize>)
        ensures
            r == (if self.spec_dimension() <= usize::MAX {
                Some(self.spec_dimension() as usize)
            } else {
                None
            }),
        decreases self,
    {
        match self {
            IrrepType::Scalar => Some(1),
            IrrepType::Vector { dim } => Some(*dim),
            IrrepType::Regular { group_order } => Some(*group_order),
            IrrepType::DirectSum { types } => {
                let mut total: usize = 0;
                let mut k: usize = 0;
                while k < types.len()
                    invariant
                        self is DirectSum,
                        self->types == *types,
                        k <= types@.len(),
                        total == sum_dimensions(types@.subrange(0, k as int)),
                    decreases types@.len() - k,
                {
                    proof {
                        lemma_prefix_sum_step(types@, k as int);
                        lemma_prefix_sum_bounded(types@, k as int + 1);
                        assert(*types == self->types);
                        assert(decreases_to!(*self => self->types));
                        assert(decreases_to!(self->types => (self->types)@));
                        assert(decreases_to!(types@ => types@[k as int]));
                        assert(decreases_to!(*self => types@[k as int]));
                    }
                    let d = match types[k].checked_dimension() {
                        Some(d) => d,
                        None => {
                            return None;
                        },
                    };
                    total = match total.checked_add(d) {
                        Some(t) => t,
                        None => {
                            return None;
                        },
                    };
                    k = k + 1;
                }
                assert(types@.subrange(0, types@.len() as int) =~= types@);
                Some(total)
            }
        }
    }
}

/// Two representation types have the same structure: the same variant with
/// the same size, or direct sums of the same length whose parts are pairwise
/// the same.
pub open spec fn same_irrep(a: IrrepType, b: IrrepType) -> bool
    decreases a,
{
    match a {
        IrrepType::Scalar => b is Scalar,
        IrrepType::Vector { dim } => b is Vector && b->Vector_dim == dim,
        IrrepType::Regular { group_order } => b is Regular && b->Regular_group_order == group_order,
        IrrepType::DirectSum { types } => b is DirectSum && same_irreps(types@, b->DirectSum_types@),
    }
}

/// Two lists of representation types of equal length that agree pairwise.
pub open spec fn same_irreps(s: Seq<IrrepType>, t: Seq<IrrepType>) -> bool
    decreases s,
{
    &&& s.len() == t.len()
    &&& forall|i: int| 0 <= i < s.len() ==> same_irrep(#[trigger] s[i], t[i])
}

/// A structural copy of a representation type.
fn clone_irrep(t: &IrrepType) -> (r: IrrepType)
    ensures
        same_irrep(r, *t),
    decreases t,
{
    match t {
        IrrepType::Scalar => IrrepType::Scalar,
        IrrepType::Vector { dim } => IrrepType::Vector { dim: *dim },
        IrrepType::Regular { group_order } => IrrepType::Regular { group_order: *group_order },
        IrrepType::DirectSum { types } => {
            let mut out: Vec<IrrepType> = Vec::new();
            let mut k: usize = 0;
            while k < types.len()
                invariant
                    *t is DirectSum,
                    t->DirectSum_types == *types,
                    k <= types@.len(),
                    out@.len() == k,
                    forall|i: int| 0 <= i < k ==> same_irrep(#[trigger] out@[i], types@[i]),
                decreases types@.len() - k,
            {
                proof {
                    assert(decreases_to!(*t => t->DirectSum_types));
                    assert(decreases_to!(t->DirectSum_types => (t->DirectSum_types)@));
                    assert(decreases_to!(types@ => types@[k as int]));
                    assert(decreases_to!(*t => types@[k as int]));
                }
                let c = clone_irrep(&types[k]);
                out.push(c);
                k = k + 1;
            }
            IrrepType::DirectSum { types: out }
        },
    }
}

/// Whether two representation types have the same structure.
fn eq_irrep(a: &IrrepType, b: &IrrepType) -> (r: bool)
    ensures
        r == same_irrep(*a, *b),
        r ==> a.spec_dimension() == b.spec_dimension(),
    decreases a,
{
    proof {
        if same_irrep(*a, *b) {
            lemma_same_irrep_dimension(*a, *b);
        }
    }
    match a {
        IrrepType::Scalar => match b {
            IrrepType::Scalar => true,
            _ => false,
        },
        IrrepType::Vector { dim } => match b {
            IrrepType::Vector { dim: d } => *dim == *d,
            _ => false,
        },
        IrrepType::Regular { group_order } => match b {
            IrrepType::Regular { group_order: g } => *group_order == *g,
            _ => false,
        },
        IrrepType::DirectSum { types } => match b {
            IrrepType::DirectSum { types: others } => {
                if types.len() != others.len() {
                    return false;
                }
                let mut k: usize = 0;
                while k < types.len()
                    invariant
                        *a is DirectSum,
                        a->DirectSum_types == *types,
                        *b is DirectSum,
                        b->DirectSum_types == *others,
                        types@.len() == others@.len(),
                        k <= types@.len(),
                        forall|i: int| 0 <= i < k ==> same_irrep(#[trigger] types@[i], others@[i]),
                    decreases types@.len() - k,
                {
                    proof {
                        assert(decreases_to!(*a => a->DirectSum_types));
                        assert(decreases_to!(a->DirectSum_types => (a->DirectSum_types)@));
                        assert(decreases_to!(types@ => types@[k as int]));
                        assert(decreases_to!(*a => types@[k as int]));
                    }
                    if !eq_irrep(&types[k], &others[k]) {
                        assert(!same_irrep(types@[k as int], others@[k as int]));
                        return false;
                    }
                    k = k + 1;
                }
                true
            },
            _ => false,
        },
    }
}

impl Clone for IrrepType {
    fn clone(&self) -> (r: Self)
        ensures
            same_irrep(r, *self),
            r.spec_dimension() == self.spec_dimension(),
    {
        let r = clone_irrep(self);
        proof {
            lemma_same_irrep_dimension(r, *self);
        }
        r
    }
}

/// Law: representation types with the same structure have the same dimension.
pub proof fn lemma_same_irrep_dimension(a: IrrepType, b: IrrepType)
    requires
        same_irrep(a, b),
    ensures
        a.spec_dimension() == b.spec_dimension(),
    decreases a,
{
    if let IrrepType::DirectSum { types } = a {
        assert(decreases_to!(a => types));
        lemma_same_irreps_dimension(types@, b->DirectSum_types@);
    }
}

/// Lists of pairwise structurally equal types have equal total dimension.
proof fn lemma_same_irreps_dimension(s: Seq<IrrepType>, t: Seq<IrrepType>)
    requires
        same_irreps(s, t),
    ensures
        sum_dimensions(s) == sum_dimensions(t),
    decreases s,
{
    if s.len() > 0 {
        let k = s.len() - 1;
        let s0 = s.subrange(0, k);
        let t0 = t.subrange(0, k);
        assert(same_irrep(s[k], t[k]));
        assert forall|i: int| 0 <= i < s0.len() implies same_irrep(#[trigger] s0[i], t0[i]) by {
            assert(same_irrep(s[i], t[i]));
        }
        lemma_same_irreps_dimension(s0, t0);
        lemma_same_irrep_dimension(s[k], t[k]);
    }
}

/// Law: every representation type has the same structure as itself, and the
/// relation is symmetric.
pub proof fn lemma_same_irrep_reflexive_symmetric(a: IrrepType, b: IrrepType)
    ensures
        same_irrep(a, a),
        same_irrep(a, b) == same_irrep(b, a),
    decreases a,
{
    if let IrrepType::DirectSum { types } = a {
        assert(decreases_to!(a => types));
        assert forall|i: int| 0 <= i < types@.len() implies same_irrep(#[trigger] types@[i], types@[i]) by {
            lemma_same_irrep_reflexive_symmetric(types@[i], types@[i]);
        }
        if let IrrepType::DirectSum { types: others } = b {
            if types@.len() == others@.len() {
                assert forall|i: int| 0 <= i < types@.len() implies same_irrep(#[trigger] types@[i], others@[i])
                    == same_irrep(others@[i], types@[i]) by {
                    lemma_same_irrep_reflexive_symmetric(types@[i], others@[i]);
                }
            }
        }
    }
}

/// Law: two regular representations are structurally equal exactly when their
/// group orders are equal, and likewise two vector representations and their
/// dimensions; representation types of different variants are never equal.
pub proof fn lemma_same_irrep_sizes(a: IrrepType, b: IrrepType)
    ensures
        (a is Regular && b is Regular) ==> (same_irrep(a, b) <==> a->Regular_group_order == b->Regular_group_order),
        (a is Vector && b is Vector) ==> (same_irrep(a, b) <==> a->Vector_dim == b->Vector_dim),
        same_irrep(a, b) ==> a.spec_dimension() == b.spec_dimension(),
        (a is Scalar) != (b is Scalar) ==> !same_irrep(a, b),
        (a is Vector) != (b is Vector) ==> !same_irrep(a, b),
        (a is Regular) != (b is Regular) ==> !same_irrep(a, b),
        (a is DirectSum) != (b is DirectSum) ==> !same_irrep(a, b),
{
    if same_irrep(a, b) {
        lemma_same_irrep_dimension(a, b);
    }
}

impl PartialEq for IrrepType {
    fn eq(&self, other: &Self) -> (r: bool) {
        eq_irrep(self, other)
    }
}

impl vstd::std_specs::cmp::PartialEqSpecImpl for IrrepType {
    open spec fn obeys_eq_spec() -> bool {
        true
    }

    open spec fn eq_spec(&self, other: &IrrepType) -> bool {
        same_irrep(*self, *other)
    }
}

/// Sum of the dimensions of a list of representation types.
pub open spec fn sum_dimensions(ts: Seq<IrrepType>) -> nat
    decreases ts,
{
    if ts.len() == 0 {
        0
    } else {
        sum_dimensions(ts.subrange(0, ts.len() - 1)) + ts[ts.len() - 1].spec_dimension()
    }
}

proof fn lemma_prefix_sum_step(ts: Seq<IrrepType>, k: int)
    requires
        0 <= k < ts.len(),
    ensures
        sum_dimensions(ts.subrange(0, k + 1)) == sum_dimensions(ts.subrange(0, k)) + ts[k].spec_dimension(),
{
    let s = ts.subrange(0, k + 1);
    assert(s.subrange(0, s.len() - 1) =~= ts.subrange(0, k));
}

proof fn lemma_prefix_sum_bounded(ts: Seq<IrrepType>, k: int)
    requires
        0 <= k <= ts.len(),
    ensures
        sum_dimensions(ts.subrange(0, k)) <= sum_dimensions(ts),
    decreases ts.len() - k,
{
    if k < ts.len() {
        lemma_prefix_sum_step(ts, k);
        lemma_prefix_sum_bounded(ts, k + 1);
    } else {
        assert(ts.subrange(0, k) =~= ts);
    }
}

/// Shapes `(input_dim, output_dim)` of the Deep Sets layers of a universal
/// approximator: one layer `input → hidden`, then `depth - 2` layers
/// `hidden → hidden`, then `hidden → output` when `depth > 1`.
pub open spec fn approximator_layer_shape(
    input_dim: usize,
    hidden_dim: usize,
    output_dim: usize,
    depth: usize,
    k: int,
) -> (usize, usize) {
    if k == 0 {
        (input_dim, hidden_dim)
    } else if k == approximator_layer_count(depth) - 1 {
        (hidden_dim, output_dim)
    } else {
        (hidden_dim, hidden_dim)
    }
}

/// Number of layers of a universal approximator of the given depth: `depth`,
/// but at least one.
pub open spec fn approximator_layer_count(depth: usize) -> nat {
    if depth <= 1 {
        1
    } else {
        depth as nat
    }
}

/// The layer shapes of a universal approximator (Deep Sets stack with sum
/// aggregation) of the given depth.
pub fn approximator_layer_dims(input_dim: usize, hidden_dim: usize, output_dim: usize, depth: usize) -> (r: Vec<(usize, usize)>)
    ensures
        r@.len() == approximator_layer_count(depth),
        forall|k: int| 0 <= k < r@.len() ==> #[trigger] r@[k] == approximator_layer_shape(input_dim, hidden_dim, output_dim, depth, k),
        r@.len() == if depth <= 1 { 1 } else { depth as int },
        r@[0].0 == input_dim,
        forall|k: int| 0 < k < r@.len() ==> (#[trigger] r@[k]).0 == r@[k - 1].1,
        forall|k: int| 0 <= k < r@.len() - 1 ==> (#[trigger] r@[k]).1 == hidden_dim,
        r@[r@.len() - 1].1 == if depth > 1 { output_dim } else { hidden_dim },
{
    let mut layers: Vec<(usize, usize)> = Vec::new();
    layers.push((input_dim, hidden_dim));
    let middle: usize = if depth >= 1 { depth - 1 } else { 0 };
    let mut k: usize = 1;
    while k < middle
        invariant
            1 <= k,
            middle == if depth >= 1 { depth - 1 } else { 0 },
            k <= middle || k == 1,
            layers@.len() == k,
            forall|t: int| 0 <= t < k ==> #[trigger] layers@[t] == approximator_layer_shape(input_dim, hidden_dim, output_dim, depth, t),
        decreases middle - k,
    {
        layers.push((hidden_dim, hidden_dim));
        k = k + 1;
    }
    if depth > 1 {
        layers.push((hidden_dim, output_dim));
    }
    proof {
        lemma_approximator_layers_chain(input_dim, hidden_dim, output_dim, depth);
    }
    layers
}

/// Law: a universal approximator of depth `d` has `max(d, 1)` layers that
/// chain from the input dimension through the hidden dimension, ending at the
/// output dimension when `d > 1` (a single layer ends at the hidden one).
pub proof fn lemma_approximator_layers_chain(input_dim: usize, hidden_dim: usize, output_dim: usize, depth: usize)
    ensures
        approximator_layer_count(depth) == if depth <= 1 { 1 } else { depth as int },
        approximator_layer_shape(input_dim, hidden_dim, output_dim, depth, 0).0 == input_dim,
        forall|k: int| 0 < k < approximator_layer_count(depth) ==> (#[trigger] approximator_layer_shape(input_dim, hidden_dim, output_dim, depth, k)).0
            == approximator_layer_shape(input_dim, hidden_dim, output_dim, depth, k - 1).1,
        forall|k: int| 0 <= k < approximator_layer_count(depth) - 1 ==> (#[trigger] approximator_layer_shape(input_dim, hidden_dim, output_dim, depth, k)).1
            == hidden_dim,
        approximator_layer_shape(input_dim, hidden_dim, output_dim, depth, approximator_layer_count(depth) - 1).1
            == if depth > 1 { output_dim } else { hidden_dim },
{
}

/// Width of the hidden (φ) layer of a Deep Sets layer: `(input + output) / 2 + 1`.
pub open spec fn spec_deep_sets_hidden_width(input_dim: usize, output_dim: usize) -> nat {
    ((input_dim + output_dim) / 2 + 1) as nat
}

/// Width of the hidden (φ) layer of a Deep Sets layer.
pub fn deep_sets_hidden_width(input_dim: usize, output_dim: usize) -> (r: usize)
    requires
        input_dim + output_dim <= usize::MAX,
    ensures
        r == spec_deep_sets_hidden_width(input_dim, output_dim),
        r == (input_dim + output_dim) / 2 + 1,
        2 * r - 2 <= input_dim + output_dim < 2 * r,
{
    (input_dim + output_dim) / 2 + 1
}

/// Parameters of one Deep Sets layer `input → output`: the φ weights and bias
/// (`hidden × input + hidden`) plus the ρ weights and bias
/// (`output × hidden + output`).
pub open spec fn spec_layer_parameters(input_dim: usize, output_dim: usize) -> int {
    let h = spec_deep_sets_hidden_width(input_dim, output_dim) as int;
    h * input_dim + h + output_dim * h + output_dim
}

/// Parameters of `depth` Deep Sets layers `input → output`.
pub open spec fn spec_parameter_count(input_dim: usize, output_dim: usize, depth: usize) -> int {
    spec_layer_parameters(input_dim, output_dim) * depth
}

/// The sum of the dimensions, the parameters of one layer and the total all
/// fit in `usize`.
pub open spec fn parameter_count_fits(input_dim: usize, output_dim: usize, depth: usize) -> bool {
    &&& input_dim + output_dim <= usize::MAX
    &&& spec_layer_parameters(input_dim, output_dim) <= usize::MAX
    &&& spec_parameter_count(input_dim, output_dim, depth) <= usize::MAX
}

/// Parameter count of a permutation-equivariant universal approximator.
pub fn permutation_equiv_parameter_count(input_dim: usize, output_dim: usize, depth: usize) -> (r: usize)
    requires
        parameter_count_fits(input_dim, output_dim, depth),
    ensures
        r == spec_parameter_count(input_dim, output_dim, depth),
        ({
            let h = (input_dim + output_dim) / 2 + 1;
            r == (h * (input_dim + output_dim + 1) + output_dim) * depth
        }),
{
    let hidden = deep_sets_hidden_width(input_dim, output_dim);
    proof {
        let h = hidden as int;
        assert(0 <= h * input_dim <= usize::MAX) by (nonlinear_arith)
            requires
                h * input_dim + h + output_dim * h + output_dim <= usize::MAX,
                h >= 0,
                input_dim >= 0,
                output_dim >= 0,
        ;
        assert(0 <= output_dim * h <= usize::MAX) by (nonlinear_arith)
            requires
                h * input_dim + h + output_dim * h + output_dim <= usize::MAX,
                h >= 0,
                input_dim >= 0,
                output_dim >= 0,
        ;
    }
    let per_layer = hidden * input_dim + hidden + output_dim * hidden + output_dim;
    proof {
        let p = per_layer as int;
        assert(0 <= p * depth <= usize::MAX) by (nonlinear_arith)
            requires
                p * depth == spec_parameter_count(input_dim, output_dim, depth),
                spec_parameter_count(input_dim, output_dim, depth) <= usize::MAX,
                p >= 0,
                depth >= 0,
        ;
    }
    proof {
        lemma_parameter_count_formula(input_dim, output_dim, depth);
    }
    per_layer * depth
}

/// Law: the Deep Sets hidden width is `(input + output) / 2 + 1`, the least
/// width above the mean of the two dimensions, and the parameters of `depth`
/// layers number `(h · (input + output + 1) + output) · depth` for that width `h`.
pub proof fn lemma_parameter_count_formula(input_dim: usize, output_dim: usize, depth: usize)
    ensures
        spec_deep_sets_hidden_width(input_dim, output_dim) == (input_dim + output_dim) / 2 + 1,
        2 * spec_deep_sets_hidden_width(input_dim, output_dim) - 2 <= input_dim + output_dim,
        input_dim + output_dim < 2 * spec_deep_sets_hidden_width(input_dim, output_dim),
        ({
            let h = (input_dim + output_dim) / 2 + 1;
            spec_parameter_count(input_dim, output_dim, depth) == (h * (input_dim + output_dim + 1) + output_dim) * depth
        }),
{
    let h = (input_dim + output_dim) / 2 + 1;
    assert(h * input_dim + h + output_dim * h + output_dim == h * (input_dim + output_dim + 1) + output_dim) by (nonlinear_arith);
}

/// Parameter count of a permutation-equivariant universal approximator, or
/// `None` when a width or count on the way does not fit in `usize`.
pub fn checked_permutation_equiv_parameter_count(input_dim: usize, output_dim: usize, depth: usize) -> (r: Option<usize>)
    ensures
        r == (if parameter_count_fits(input_dim, output_dim, depth) {
            Some(spec_parameter_count(input_dim, output_dim, depth) as usize)
        } else {
            None
        }),
        r matches Some(c) ==> ({
            let h = (input_dim + output_dim) / 2 + 1;
            c == (h * (input_dim + output_dim + 1) + output_dim) * depth
        }),
{
    proof {
        lemma_parameter_count_formula(input_dim, output_dim, depth);
    }
    let sum = match input_dim.checked_add(output_dim) {
        Some(s) => s,
        None => {
            return None;
        },
    };
    let hidden = sum / 2 + 1;
    proof {
        let h = hidden as int;
        assert(h * input_dim >= 0 && output_dim * h >= 0) by (nonlinear_arith)
            requires
                h >= 0,
                input_dim >= 0,
                output_dim >= 0,
        ;
    }
    let a = match hidden.checked_mul(input_dim) {
        Some(v) => v,
        None => {
            return None;
        },
    };
    let b = match a.checked_add(hidden) {
        Some(v) => v,
        None => {
            return None;
        },
    };
    let c = match output_dim.checked_mul(hidden) {
        Some(v) => v,
        None => {
            return None;
        },
    };
    let e = match b.checked_add(c) {
        Some(v) => v,
        None => {
            return None;
        },
    };
    let per_layer = match e.checked_add(output_dim) {
        Some(v) => v,
        None => {
            return None;
        },
    };
    per_layer.checked_mul(depth)
}

/// Weight shapes `(rows, cols)` of a steerable network: a `m × previous`
/// matrix for each hidden multiplicity `m`, starting from the input
/// dimension, then `output × previous`.
pub open spec fn steerable_shape(input_dim: usize, output_dim: usize, mults: Seq<usize>, k: int) -> (usize, usize) {
    let prev = if k == 0 { input_dim } else { mults[k - 1] };
    if k < mults.len() {
        (mults[k], prev)
    } else {
        (output_dim, prev)
    }
}

/// Weight shapes of a steerable network between the given representation types.
pub fn steerable_weight_shapes(input_type: &IrrepType, output_type: &IrrepType, hidden_multiplicities: &Vec<usize>) -> (r: Vec<(usize, usize)>)
    requires
        input_type.spec_dimension() <= usize::MAX,
        output_type.spec_dimension() <= usize::MAX,
    ensures
        r@.len() == hidden_multiplicities@.len() + 1,
        forall|k: int| 0 <= k < r@.len() ==> #[trigger] r@[k] == steerable_shape(
            input_type.spec_dimension() as usize,
            output_type.spec_dimension() as usize,
            hidden_multiplicities@,
            k,
        ),
        r@[0].1 == input_type.spec_dimension(),
        forall|k: int| 0 < k < r@.len() ==> (#[trigger] r@[k]).1 == r@[k - 1].0,
        forall|k: int| 0 <= k < hidden_multiplicities@.len() ==> (#[trigger] r@[k]).0 == hidden_multiplicities@[k],
        r@[r@.len() - 1].0 == output_type.spec_dimension(),
{
    let input_dim = input_type.dimension();
    let output_dim = output_type.dimension();
    let mut shapes: Vec<(usize, usize)> = Vec::new();
    let mut prev = input_dim;
    let mut k: usize = 0;
    while k < hidden_multiplicities.len()
        invariant
            k <= hidden_multiplicities@.len(),
            shapes@.len() == k,
            prev == if k == 0 { input_dim } else { hidden_multiplicities@[k - 1] },
            forall|t: int| 0 <= t < k ==> #[trigger] shapes@[t] == steerable_shape(input_dim, output_dim, hidden_multiplicities@, t),
        decreases hidden_multiplicities@.len() - k,
    {
        let m = hidden_multiplicities[k];
        shapes.push((m, prev));
        prev = m;
        k = k + 1;
    }
    shapes.push((output_dim, prev));
    proof {
        lemma_steerable_shapes_chain(input_dim, output_dim, hidden_multiplicities@);
    }
    shapes
}

/// Law: the weight shapes of a steerable network chain: the first reads the
/// input dimension, each later one reads what the one before writes, the
/// hidden ones write the hidden multiplicities in order, and the last writes
/// the output dimension.
pub proof fn lemma_steerable_shapes_chain(input_dim: usize, output_dim: usize, mults: Seq<usize>)
    ensures
        steerable_shape(input_dim, output_dim, mults, 0).1 == input_dim,
        forall|k: int| 0 < k <= mults.len() ==> (#[trigger] steerable_shape(input_dim, output_dim, mults, k)).1
            == steerable_shape(input_dim, output_dim, mults, k - 1).0,
        forall|k: int| 0 <= k < mults.len() ==> (#[trigger] steerable_shape(input_dim, output_dim, mults, k)).0
            == mults[k],
        steerable_shape(input_dim, output_dim, mults, mults.len() as int).0 == output_dim,
{
}

} // verus!
