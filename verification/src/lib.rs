//! Conversions between a homomorphic-encryption backend's internal
//! polynomial encodings (residue-number-system words and fixed-limb
//! multiprecision words) and ring-typed polynomials, together with the
//! BFV scaling parameter `delta = floor(q / t)` and the lattice problem
//! descriptor those polynomials populate.

pub mod convert;
pub mod decode;
pub mod delta;
pub mod error;
pub mod mp;
pub mod problem;
pub mod ring;
pub mod trim;

pub use convert::convert_to_polynomial;
pub use convert::convert_to_polynomial_by_small_coeffs;
pub use decode::convert_to_small_coeffs;
pub use decode::convert_to_smallint;
pub use decode::EncodedPolyArray;
pub use delta::bfv_delta;
pub use error::Error;
pub use mp::FixedUint;
pub use problem::{Bounds, LatticeProblem, Matrix};
pub use ring::{Polynomial, ZqElem};
pub use trim::strip_trailing_value;
