//! A small feed-forward neural-network engine on fixed-point arithmetic.
//!
//! Values are `i64` numbers scaled by [`fixed::SCALE`]: the stored number `n`
//! stands for the real number `n / SCALE`.  Every operation of the engine —
//! activation functions, mean-squared-error loss, gradient-descent updates,
//! and the forward/backward walk of a network — is specified exactly over
//! mathematical integers and proved against that specification.

use vstd::prelude::*;

pub mod activation_functions;
pub mod fixed;
pub mod layers;
pub mod loss_functions;
pub mod network;
pub mod optimizers;
pub mod rng;

verus! {

/// The errors the engine reports.
#[derive(Clone, Copy, Debug, PartialEq, Eq, Structural)]
pub enum NetworkError {
    /// A network was built in an invalid shape, or a component was given an
    /// invalid parameter (a zero-size layer, a non-positive learning rate).
    ConfigurationError,
    /// Two vectors that must have equal lengths do not.
    DimensionMismatch,
    /// An operation that needs a finalized network was called before
    /// `finalize` succeeded.
    NotInitialized,
    /// A value left the engine's working range (its magnitude passed
    /// [`fixed::MAXV`]).
    NumericalError,
}

} // verus!
