//! Encoding and decoding of points on short-Weierstrass elliptic curves
//! `y^2 = x^3 + a x + b` over prime fields, and the error types of the
//! password-hashing interface.
//!
//! A point is encoded by its x-coordinate, in big-endian bytes of the width
//! that the curve fixes, and decoded by solving the curve equation for y:
//!
//! - the *compressed* form carries one more bit, the parity of y, and
//!   decoding gives the root with that parity;
//! - the *compact* form carries nothing more, and decoding gives the smaller
//!   of the two roots, so that only points with such a y-coordinate have a
//!   compact form;
//! - the point at infinity has neither form, and decoding never gives it.
//!
//! Decoding fails in one way only, with an empty result: for bytes of the
//! wrong width, for a number that is not below the modulus, and for an
//! x-coordinate that no point of the curve has. It selects between values
//! with the primitives of the `subtle` crate and does not branch on them.
//!
//! The field arithmetic works on moduli of at most 64 bits. A curve is
//! checked when it is made, its modulus for primality by trial division.

pub mod b64;
pub mod ct;
pub mod curve;
pub mod encoding;
pub mod errors;
pub mod field;
pub mod number_theory;
pub mod point;
