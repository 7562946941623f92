//! Exact-arithmetic generator for symmetric NACA 4-digit airfoil profiles.
//!
//! The library computes, for a thickness code and a chord length, the
//! chordwise sample positions and the upper/lower surface offsets of a
//! symmetric 4-digit airfoil. All values are exact rationals, so the
//! boundary, symmetry and scaling properties of the profile hold exactly
//! and are proved as contracts.

mod naca;
mod parse;
mod rat;
mod sample;

pub use naca::lemma_leading_edge_zero;
pub use naca::lemma_scale_sensitivity;
pub use naca::lemma_sqrt_num_brackets;
pub use naca::naca_airfoil_series4;
pub use naca::poly_den;
pub use naca::poly_num;
pub use naca::sqrt_num;
pub use naca::y_den;
pub use naca::y_num;
pub use naca::AirfoilError;
pub use naca::SCALE;
pub use naca::NacaAirfoil;
pub use parse::dec_den;
pub use parse::dec_num;
pub use parse::valid_decimal;

pub use rat::rat_bounded;
pub use rat::rat_eq;
pub use rat::rat_is;
pub use rat::rat_le;
pub use rat::Rat;
pub use sample::grid_den;
pub use sample::grid_num;
pub use sample::linspace;
