//! Bit flags of the lll options.

use vstd::prelude::*;

verus! {

pub const DEFAULT: i32 = 0;
pub const VERBOSE: i32 = 1;
pub const EARLY_RED: i32 = 2;
pub const SIEGEL: i32 = 4;

} // verus!
