//! The calls into GMP (through `rug`) that the integer type relies on.
//!
//! Each function makes one call into `rug`: it converts its `Z` arguments
//! to `rug::Integer` and the result back to a sign and canonical limbs.

use vstd::prelude::*;
use crate::integer::{Z, Integer, canonical, signed_value, shifted_left, shifted_right, radix_string, decimal_parse, bit_length, abs_int, limbs_value, two_to};
use rug::integer::Order;
use rug::rand::RandState;
use std::cmp::Ordering;

verus! {

#[verifier::external_type_specification]
#[verifier::external_body]
pub struct ExRandState<'a>(RandState<'a>);

/// The next prime greater than x, as GMP's `mpz_nextprime` finds it.
pub uninterp spec fn next_prime_of(x: int) -> int;

/// `Integer + Integer` (GMP `mpz_add`): the exact sum.
#[verifier::external_body]
pub(crate) fn gmp_add(a: &Z, b: &Z) -> (r: (bool, Vec<u64>))
    ensures
        canonical(r.0, r.1@),
        signed_value(r.0, r.1@) == a@ + b@,
{
    let x = if a.neg { -Integer::from_digits(&a.mag, Order::Lsf) } else { Integer::from_digits(&a.mag, Order::Lsf) };
    let y = if b.neg { -Integer::from_digits(&b.mag, Order::Lsf) } else { Integer::from_digits(&b.mag, Order::Lsf) };
    let s = x + y;
    (s.cmp0() == Ordering::Less, s.to_digits::<u64>(Order::Lsf))
}

/// `Integer - Integer` (GMP `mpz_sub`): the exact difference.
#[verifier::external_body]
pub(crate) fn gmp_sub(a: &Z, b: &Z) -> (r: (bool, Vec<u64>))
    ensures
        canonical(r.0, r.1@),
        signed_value(r.0, r.1@) == a@ - b@,
{
    let x = if a.neg { -Integer::from_digits(&a.mag, Order::Lsf) } else { Integer::from_digits(&a.mag, Order::Lsf) };
    let y = if b.neg { -Integer::from_digits(&b.mag, Order::Lsf) } else { Integer::from_digits(&b.mag, Order::Lsf) };
    let s = x - y;
    (s.cmp0() == Ordering::Less, s.to_digits::<u64>(Order::Lsf))
}

/// `Integer * Integer` (GMP `mpz_mul`): the exact product.
#[verifier::external_body]
pub(crate) fn gmp_mul(a: &Z, b: &Z) -> (r: (bool, Vec<u64>))
    ensures
        canonical(r.0, r.1@),
        signed_value(r.0, r.1@) == a@ * b@,
{
    let x = if a.neg { -Integer::from_digits(&a.mag, Order::Lsf) } else { Integer::from_digits(&a.mag, Order::Lsf) };
    let y = if b.neg { -Integer::from_digits(&b.mag, Order::Lsf) } else { Integer::from_digits(&b.mag, Order::Lsf) };
    let s = x * y;
    (s.cmp0() == Ordering::Less, s.to_digits::<u64>(Order::Lsf))
}

/// `Integer << u32` (GMP `mpz_mul_2exp`): a * 2^bits.
#[verifier::external_body]
pub(crate) fn gmp_shl(a: &Z, bits: u32) -> (r: (bool, Vec<u64>))
    ensures
        canonical(r.0, r.1@),
        signed_value(r.0, r.1@) == shifted_left(a@, bits),
{
    let x = if a.neg { -Integer::from_digits(&a.mag, Order::Lsf) } else { Integer::from_digits(&a.mag, Order::Lsf) };
    let s = x << bits;
    (s.cmp0() == Ordering::Less, s.to_digits::<u64>(Order::Lsf))
}

/// `Integer >> u32` (GMP `mpz_fdiv_q_2exp`): a / 2^bits rounded towards minus infinity.
#[verifier::external_body]
pub(crate) fn gmp_shr(a: &Z, bits: u32) -> (r: (bool, Vec<u64>))
    ensures
        canonical(r.0, r.1@),
        signed_value(r.0, r.1@) == shifted_right(a@, bits),
{
    let x = if a.neg { -Integer::from_digits(&a.mag, Order::Lsf) } else { Integer::from_digits(&a.mag, Order::Lsf) };
    let s = x >> bits;
    (s.cmp0() == Ordering::Less, s.to_digits::<u64>(Order::Lsf))
}

/// `Integer::next_prime_mut` (GMP `mpz_nextprime`): a prime above a, found by
/// a probabilistic test; the result is named `next_prime_of`, and is greater than a.
#[verifier::external_body]
pub(crate) fn gmp_next_prime(a: &Z) -> (r: (bool, Vec<u64>))
    ensures
        canonical(r.0, r.1@),
        signed_value(r.0, r.1@) == next_prime_of(a@),
        signed_value(r.0, r.1@) > a@,
{
    let mut x = if a.neg { -Integer::from_digits(&a.mag, Order::Lsf) } else { Integer::from_digits(&a.mag, Order::Lsf) };
    x.next_prime_mut();
    (x.cmp0() == Ordering::Less, x.to_digits::<u64>(Order::Lsf))
}

/// `Integer::to_string_radix` (GMP `mpz_get_str`): the text of a in the
/// radix, lower-case letters for digits above 9; it panics outside 2..=36.
#[verifier::external_body]
pub(crate) fn gmp_to_string_radix(a: &Z, radix: i32) -> (r: String)
    requires
        2 <= radix <= 36,
    ensures
        r@ == radix_string(a@, radix as nat),
{
    let x = if a.neg { -Integer::from_digits(&a.mag, Order::Lsf) } else { Integer::from_digits(&a.mag, Order::Lsf) };
    x.to_string_radix(radix)
}

/// `Integer::parse` (decimal): accepts exactly the syntax of `decimal_parse`
/// and gives its value.
#[verifier::external_body]
pub(crate) fn gmp_parse(s: &[u8]) -> (r: Option<(bool, Vec<u64>)>)
    ensures
        match r {
            Some(p) => canonical(p.0, p.1@) && decimal_parse(s@) == Some(signed_value(p.0, p.1@)),
            None => decimal_parse(s@) is None,
        },
{
    match Integer::parse(s) {
        Ok(p) => {
            let x = Integer::from(p);
            Some((x.cmp0() == Ordering::Less, x.to_digits::<u64>(Order::Lsf)))
        },
        Err(_) => None,
    }
}

/// `Integer::significant_bits`: the bit length of |a|.
#[verifier::external_body]
pub(crate) fn gmp_significant_bits(a: &Z) -> (r: u32)
    requires
        bit_length(abs_int(a@) as nat) <= u32::MAX,
    ensures
        r == bit_length(abs_int(a@) as nat),
{
    Integer::from_digits(&a.mag, Order::Lsf).significant_bits()
}

/// `RandState::new`: a Mersenne Twister generator in its default state; its
/// state is opaque, so nothing is stated of it.
#[verifier::external_body]
pub(crate) fn gmp_rand_new() -> (r: RandState<'static>)
{
    RandState::new()
}

/// `RandState::seed`: puts the generator in the state that the seed selects;
/// its state is opaque, so nothing is stated of it.
#[verifier::external_body]
pub(crate) fn gmp_rand_seed(state: &mut RandState<'static>, seed: u64)
{
    state.seed(&Integer::from(seed))
}

/// `Integer::random_bits`: a random number below 2^bits.
#[verifier::external_body]
pub(crate) fn gmp_random_bits(state: &mut RandState<'static>, bits: u32) -> (r: Vec<u64>)
    ensures
        r@.len() == 0 || r@.last() != 0,
        limbs_value(r@) < two_to(bits),
{
    Integer::from(Integer::random_bits(bits, state)).to_digits::<u64>(Order::Lsf)
}

/// `Integer::random_below`: a random number in [0, bound); it panics for bound <= 0.
#[verifier::external_body]
pub(crate) fn gmp_random_below(state: &mut RandState<'static>, bound: &Z) -> (r: Vec<u64>)
    requires
        bound@ > 0,
    ensures
        r@.len() == 0 || r@.last() != 0,
        limbs_value(r@) < bound@,
{
    Integer::from_digits(&bound.mag, Order::Lsf).random_below(state).to_digits::<u64>(Order::Lsf)
}

} // verus!
