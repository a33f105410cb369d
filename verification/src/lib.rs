//! Arithmetic on points of an elliptic curve in short Weierstrass form
//! (y^2 = x^3 + a*x + b) over a prime field, with verified contracts:
//! modular inverse by the extended Euclidean algorithm, point addition,
//! doubling, and on-curve membership, together with proved group laws.

pub mod arith;
pub mod curve;
pub mod laws;
pub mod modular;

pub use curve::{EllipticCurve, Point};
pub use modular::{mod_inverse, CurveError};
