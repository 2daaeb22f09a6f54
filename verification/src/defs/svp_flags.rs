//! Bit flags of the svp options.

use vstd::prelude::*;

verus! {

pub const DEFAULT: i32 = 0;
pub const VERBOSE: i32 = 1;
pub const OVERRIDE_BND: i32 = 2;
pub const DUAL: i32 = 4;

} // verus!
