//! Verified combinatorics for the fixed-descent-set swaps experiments:
//! integer polynomials, descent sets as bitmasks, insertion of the maximum,
//! source distributions and the total-positivity tests run on them.
pub mod poly;
pub mod descent;
pub mod insertion;
pub mod source;
pub mod minors;
pub mod staircase;
pub mod endpoint;
pub mod board;
pub mod render;
pub mod det;
pub mod rng;
pub mod bivariate;
pub mod compat;
pub mod bruhat;
pub mod family;
pub mod induct;
pub mod invert;
pub mod zones;
pub mod bigint;
pub mod gcd;
