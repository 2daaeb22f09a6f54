//! Small helpers shared by the library.

use vstd::prelude::*;
use crate::defs::status_message;

verus! {

/// The message of a reduction status code.
pub fn get_red_status_str(code: i32) -> (r: &'static str)
    ensures
        r@ == status_message(code as int),
{
    match code {
        0 => "success",
        2 => "infinite number in GSO",
        3 => "infinite loop in babai",
        4 => "infinite loop in LLL",
        5 => "error in SVP solver",
        6 => "error in BKZ",
        7 => "time limit exceeded in BKZ",
        8 => "loops limit exceeded in BKZ",
        9 => "error in HLLL",
        10 => "increase of the norm",
        11 => "error in weak size reduction",
        _ => "(unknown)",
    }
}

/// Extends `v` to at least `new_len` elements, filling with `T::default()`.
pub fn extend_vec<T: Default + Clone>(v: &mut Vec<T>, new_len: usize)
    ensures
        old(v).len() >= new_len ==> final(v)@ == old(v)@,
        old(v).len() < new_len ==> {
            &&& final(v)@.len() == new_len
            &&& final(v)@.subrange(0, old(v).len() as int) == old(v)@
            &&& exists|d: T| #![trigger T::default.ensures((), d)]
                T::default.ensures((), d) && forall|i: int| old(v).len() <= i < new_len ==> cloned::<T>(d, #[trigger] final(v)@[i])
        },
{
    if v.len() < new_len {
        let d = T::default();
        v.resize(new_len, d);
    }
}

} // verus!
