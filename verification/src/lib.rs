//! Threshold secret sharing over a finite field.
//!
//! A secret field element is split into `n` shares so that any `k` of them
//! reconstruct it by Lagrange interpolation at zero. The sharing engine is
//! generic over the [`field::Field`] trait; [`field_instance::G1613`] is a
//! small demonstration field of prime order 1613.

pub mod algebra;
pub mod field;
pub mod field_instance;
pub mod lagrange;
pub mod shamir;
