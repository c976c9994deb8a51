//! Capacity arithmetic of the one-hidden-layer MLP baseline, so that a
//! capacity-matched comparison can be checked numerically.

use vstd::prelude::*;

verus! {

/// Learnable parameters of a dense layer from `inputs` to `outputs`:
/// one weight per input-output pair plus one bias per output.
pub open spec fn dense_params(inputs: int, outputs: int) -> int {
    inputs * outputs + outputs
}

/// Total learnable parameter count (weights and biases of both layers) of
/// an MLP from `feature_dim` features through `hidden_dim` hidden units to
/// `num_classes` outputs. The count must fit in a `usize`.
pub fn param_count(feature_dim: usize, hidden_dim: usize, num_classes: usize) -> (n: usize)
    requires
        dense_params(feature_dim as int, hidden_dim as int) + dense_params(
            hidden_dim as int,
            num_classes as int,
        ) <= usize::MAX,
    ensures
        n == dense_params(feature_dim as int, hidden_dim as int) + dense_params(
            hidden_dim as int,
            num_classes as int,
        ),
{
    assert(0 <= feature_dim * hidden_dim && 0 <= hidden_dim * num_classes) by (nonlinear_arith);
    let hidden_params = feature_dim * hidden_dim + hidden_dim;
    let classifier_params = hidden_dim * num_classes + num_classes;
    hidden_params + classifier_params
}

} // verus!
