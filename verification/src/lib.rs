//! Lattice toolkit: multi-precision integers, integer lattice bases with
//! their exact row operations, generators of classical bases, and the text
//! formats of matrices and vectors.

use vstd::prelude::*;

pub mod basis;
pub mod decimal;
pub mod defs;
pub mod generators;
pub mod gmp;
pub mod integer;
pub mod io;
pub mod lattice;
pub mod matrix;
pub mod order;
pub mod rand_util;
pub mod solutions;
pub mod text;
pub mod util;

pub use defs::{CvpMethod, FloatType, IntType, LllMethod, RedStatus, SvpMethod};
pub use integer::{Integer, Z};
pub use matrix::{parse_matrix, ZMatrix, ZRow};
pub use rand_util::RandCtx;

verus! {
} // verus!
