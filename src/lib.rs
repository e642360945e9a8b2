use vstd::prelude::*;

pub mod example;
pub mod windows;
pub mod decoder;
pub mod aggregate;
pub mod pipeline;

verus! {

/// Activation function used in the attention layer and masked language model head.
#[allow(non_camel_case_types)]
#[derive(Clone, Copy, Debug, PartialEq, Eq, Structural)]
pub enum Activation {
    /// Gaussian Error Linear Unit
    gelu,
    /// Rectified Linear Unit
    relu,
    /// Swish
    swish,
    /// Mish
    mish,
    /// Gaussian Error Linear Unit, tanh approximation
    gelu_new,
    /// Hyperbolic tangent
    tanh,
}

} // verus!
