//! Dense linear algebra over an abstract scalar field: vectors, matrices,
//! elementary operations and a row-reduction engine (echelon form,
//! determinant, rank, inverse), with exact rational and complex scalars.
pub mod complex;
pub mod echelon;
pub mod field;
pub mod matrix;
pub mod rational;
pub mod reduction;
pub mod vector;
