//! A molecular entity stored as a graph and addressed by atom serial numbers,
//! with the reduction of atom symbols to a chemical formula.

pub mod atom;
pub mod formula;
mod graph;
pub mod molecule;
pub mod order;
mod serials;
pub mod title;

pub use crate::atom::{Atom, Bond, BondKind, Freezing, Point3};
pub use crate::formula::{get_reduced_formula, get_reduced_symbols};
pub use crate::graph::{MAX_EDGES, MAX_NODES};
pub use crate::molecule::Molecule;
