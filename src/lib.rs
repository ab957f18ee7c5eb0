//! Terrain tiles, their habitability, and the influence matrix of a tile map.
//!
//! Habitability is measured in tenths, so every weight and every sum in this
//! library is an exact integer; an influence vector is a list of numerators
//! over one common, positive denominator.
pub mod tile;
pub mod influence;
pub mod grid;
