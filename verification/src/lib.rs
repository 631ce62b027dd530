//! A Merkle Mountain Range (MMR) accumulator.
//!
//! The crate is organised in three layers:
//! - [`helpers`]: the pure topology algebra of the mountain range — peak
//!   positions, authentication paths, and conversions between node counts and
//!   leaf counts, all specified against a greedy binary-forest decomposition;
//! - [`formatting`]: padding of peak and proof lists to a fixed width;
//! - [`mmr`]: the accumulator itself, which appends leaves and retrieves
//!   proofs through the pluggable [`store`] and [`hasher`] capabilities,
//!   failing with the explicit values of [`errors`].

pub mod errors;
pub mod formatting;
pub mod hasher;
pub mod helpers;
pub mod mmr;
pub mod store;
