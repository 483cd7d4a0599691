//! A naive, quadratic-time low-degree extension engine.
//!
//! Given the evaluations of a batch of polynomials over a small domain,
//! the extenders here reconstruct the unique interpolating polynomials
//! in barycentric Lagrange form and evaluate them over a strictly larger
//! domain.  Three domain flavours are provided: the canonical integer
//! embedding `{0, 1, 2, ...}`, a two-adic multiplicative subgroup, and a
//! coset of such a subgroup shifted by the field's generator.
//!
//! The implementation is intentionally quadratic and exists to be
//! simple and exactly specified, so that faster (FFT-based) extenders
//! can be tested against it.

pub mod batch_inverse;
pub mod domain;
pub mod f17;
pub mod field;
pub mod interpolate;
pub mod lagrange;
pub mod matrix;
pub mod modular;
pub mod naive;
pub mod poly;
pub mod twoadic;

pub use field::FieldElem;
pub use field::TwoAdicElem;
