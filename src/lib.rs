//! Symbolic derivation of the multiplication tables of Euclidean Clifford
//! algebras: canonical blades, their signed products, and the component
//! formulas of geometric, exterior and sandwich products.
use vstd::prelude::*;

pub mod blade;
pub mod basis;
pub mod kind;
pub mod combination;
pub mod derive;
pub mod evaluation;

pub use basis::{Basis, DeriveError, MAX_DIMENSION, canonical_basis};
pub use blade::{Element, Sign};
pub use combination::{LinearCombination, LinearCombinations, impl_mul_bases, mul_bases};
pub use derive::{geometric_product, rotate, rotation_matrix, sandwich, wedge_product};
pub use kind::{BasisPartition, MvKind, infer, partition};

verus! {

/// Rotation of a value by `self`, as the sandwich product `R X R~`.
pub trait Rotate<Rhs = Self> {
    type Output;

    fn rotate(self, rhs: Rhs) -> Self::Output;
}

/// The exterior product of `self` and a value.
pub trait Wedge<Rhs = Self> {
    type Output;

    fn wedge(self, rhs: Rhs) -> Self::Output;
}

} // verus!
