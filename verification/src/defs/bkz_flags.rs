//! Bit flags of the bkz options.

use vstd::prelude::*;

verus! {

pub const DEFAULT: i32 = 0;
pub const VERBOSE: i32 = 1;
pub const NO_LLL: i32 = 2;
pub const MAX_LOOPS: i32 = 4;
pub const MAX_TIME: i32 = 8;
pub const BOUNDED_LLL: i32 = 0x10;
pub const AUTO_ABORT: i32 = 0x20;
pub const DUMP_GSO: i32 = 0x40;
pub const GH_BND: i32 = 0x80;
pub const SD_VARIANT: i32 = 0x100;
pub const SLD_RED: i32 = 0x200;

} // verus!
