//! Reading of protein structure files in the fixed-column text format, and
//! the geometry that a viewer needs of a structure.
//!
//! `pdb` turns the text of a document into atoms, `protein` finds the centroid
//! of the backbone and the radius around it, `visualization` lays out what a
//! viewer draws, and `rcsb` says where the data bank keeps a structure. All
//! quantities are held in fixed point (see `numeral`), so every result is
//! exact to the unit.

pub mod geometry;
pub mod metadata;
pub mod numeral;
pub mod pdb;
pub mod protein;
pub mod rcsb;
pub mod text;
pub mod visualization;
