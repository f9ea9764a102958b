//! Byte-pair frequency grids and the discrete Hilbert curve used to reorder them.
pub mod curve;
pub mod frequency;
pub mod image;
pub mod pos;
