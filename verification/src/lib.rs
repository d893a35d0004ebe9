//! Enumeration of free polyhexes: connected shapes of unit cells on a
//! hexagonal lattice, identified up to the 12-element dihedral symmetry
//! group (six rotations, each with or without a reflection), with each
//! shape classified by the symmetry subgroup that fixes it.

pub mod coord;
pub mod order;
pub mod shape;
pub mod symmetry;
pub mod growth;
pub mod render;
