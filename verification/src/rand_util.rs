//! Seeded random number generation for the lattice generators.

use vstd::prelude::*;
use crate::integer::{Z, two_to, limb_base};
use crate::gmp::{gmp_rand_new, gmp_rand_seed, gmp_random_bits, gmp_random_below};
use rug::rand::RandState;

verus! {

/// What a draw from a generator asked for.
pub enum Request {
    /// A number in [0, 2^bits).
    Bits(u32),
    /// A number in [0, bound).
    Below(int),
}

/// One draw from a generator: what was asked for and the value that came out.
pub struct Draw {
    pub request: Request,
    pub value: int,
}

/// The draw of `value` by a request for a number in [0, 2^bits).
pub open spec fn bits_draw(bits: u32, value: int) -> Draw {
    Draw { request: Request::Bits(bits), value }
}

/// The draw of `value` by a request for a number in [0, bound).
pub open spec fn below_draw(bound: int, value: int) -> Draw {
    Draw { request: Request::Below(bound), value }
}

/// A random generator: GMP's default generator in a state chosen by a seed,
/// with the record of the draws taken from it through this module, in order.
pub struct RandCtx {
    state: RandState<'static>,
    log: Ghost<Seq<Draw>>,
}

impl RandCtx {
    /// A generator seeded with `seed`; nothing has been drawn from it yet.
    pub fn new_seeded(seed: u64) -> (r: RandCtx)
        ensures
            r.draws() == Seq::<Draw>::empty(),
    {
        let mut state = gmp_rand_new();
        gmp_rand_seed(&mut state, seed);
        RandCtx { state, log: Ghost(Seq::empty()) }
    }

    /// The draws taken from the generator by `rand_bits` and `rand_below`,
    /// oldest first.
    pub closed spec fn draws(&self) -> Seq<Draw> {
        self.log@
    }

    /// The state the generator holds.
    pub closed spec fn generator(&self) -> RandState<'static> {
        self.state
    }

    /// The underlying generator state, for direct use.
    pub fn state(&mut self) -> (r: &mut RandState<'static>)
        ensures
            *r == old(self).generator(),
            final(self).generator() == *final(r),
            final(self).draws() == old(self).draws(),
    {
        &mut self.state
    }
}

/// A random integer in [0, 2^bits), the next draw of the generator.
pub fn rand_bits(ctx: &mut RandCtx, bits: u32) -> (r: Z)
    ensures
        0 <= r@ < two_to(bits),
        final(ctx).draws() == old(ctx).draws().push(bits_draw(bits, r@)),
{
    let mag = gmp_random_bits(&mut ctx.state, bits);
    let r = Z::from_canonical_parts(false, mag);
    proof {
        ctx.log = Ghost(ctx.log@.push(bits_draw(bits, r@)));
    }
    r
}

/// A random integer in [0, bound), the next draw of the generator; bound
/// must be positive.
pub fn rand_below(ctx: &mut RandCtx, bound: &Z) -> (r: Z)
    requires
        bound@ > 0,
    ensures
        0 <= r@ < bound@,
        final(ctx).draws() == old(ctx).draws().push(below_draw(bound@, r@)),
{
    let mag = gmp_random_below(&mut ctx.state, bound);
    let r = Z::from_canonical_parts(false, mag);
    proof {
        ctx.log = Ghost(ctx.log@.push(below_draw(bound@, r@)));
    }
    r
}

/// A random integer in [lo, hi]; lo when hi <= lo.
pub fn rand_range_i64(ctx: &mut RandCtx, lo: i64, hi: i64) -> (r: i64)
    requires
        hi <= lo || hi - lo + 1 <= i64::MAX,
    ensures
        hi <= lo ==> r == lo && final(ctx).draws() == old(ctx).draws(),
        lo < hi ==> lo <= r <= hi,
        lo < hi ==> final(ctx).draws() == old(ctx).draws().push(below_draw(hi - lo + 1, r - lo)),
{
    if hi <= lo {
        return lo;
    }
    let span: u64 = (hi - lo + 1) as u64;
    let bound = Z::from_u64(span);
    let pick = rand_below(ctx, &bound);
    range_from_draw(lo, hi, &pick)
}

/// The member of [lo, hi] that a draw from [0, hi - lo + 1) picks: lo + draw.
pub fn range_from_draw(lo: i64, hi: i64, draw: &Z) -> (r: i64)
    requires
        lo < hi,
        hi - lo + 1 <= i64::MAX,
        0 <= draw@ < hi - lo + 1,
    ensures
        r == lo + draw@,
{
    let offset: i64 = draw.get_si();
    proof {
        assert(draw@ % (limb_base() as int) == draw@) by {
            vstd::arithmetic::div_mod::lemma_small_mod(draw@ as nat, limb_base() as nat);
        }
    }
    lo + offset
}

} // verus!
