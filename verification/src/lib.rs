//! The core of a Connes-distance engine for finite Markov chains.
//!
//! The Connes distance between two states of a chain is the largest
//! difference a function can show between them while its commutator with
//! the Dirac operator of the chain stays within the unit ball. An engine
//! that estimates it decomposes matrices and multiplies them, and between
//! those steps it does a good deal more: it decides which matrices it
//! accepts, takes a singular vector for the stationary distribution and
//! brings it to sum to one, weighs the eigenvalues, and keeps the books of
//! an ascent that is rescaled, restarted and given up. This crate is
//! everything but the decompositions and the products of matrices and
//! vectors, which it takes from whoever embeds it.
//!
//! It holds every number by its binary64 encoding. What it says of a
//! number is stated over the number that the encoding stands for, and
//! proved; where it adds, multiplies or divides, the result is the exact
//! one, rounded as IEEE 754 rounds it.

pub mod arithmetic;
pub mod binary64;
pub mod error;
pub mod extremes;
pub mod matrix;
pub mod nullspace;
pub mod rounding;
pub mod search;
pub mod spectrum;
pub mod triple;
pub mod validation;
pub mod value;

pub use crate::binary64::Binary64;
pub use crate::error::ConnesError;
pub use crate::matrix::Matrix;
pub use crate::search::{Request, Search};
pub use crate::spectrum::Conditioning;
pub use crate::nullspace::Decomposition;
pub use crate::triple::SpectralTriple;
