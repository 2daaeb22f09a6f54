//! Multi-precision integers.
//!
//! `Z` holds an integer as a sign and a little-endian vector of 64-bit limbs
//! (its magnitude), kept in canonical form: no leading zero limb, and zero is
//! never negative.  Its view is the mathematical integer it denotes.  The
//! heavy arithmetic (products, sums, shifts, parsing, printing, primes) is
//! computed by GMP through the `rug` crate, see `crate::gmp`.

use vstd::prelude::*;
use vstd::arithmetic::mul::*;
use vstd::arithmetic::power2::*;
use vstd::string::StringSliceAdditionalSpecFns;

pub use rug::Integer;

verus! {

/// 2^64, the radix of a limb.
pub open spec fn limb_base() -> nat {
    0x1_0000_0000_0000_0000nat
}

/// limb_base()^k.
pub open spec fn limb_pow(k: nat) -> nat
    decreases k,
{
    if k == 0 {
        1
    } else {
        limb_base() * limb_pow((k - 1) as nat)
    }
}

/// The natural number denoted by little-endian limbs.
pub open spec fn limbs_value(s: Seq<u64>) -> nat
    decreases s.len(),
{
    if s.len() == 0 {
        0
    } else {
        limbs_value(s.drop_last()) + (s.last() as nat) * limb_pow((s.len() - 1) as nat)
    }
}

/// The integer denoted by a sign and a magnitude.
pub open spec fn signed_value(neg: bool, mag: Seq<u64>) -> int {
    if neg {
        -(limbs_value(mag) as int)
    } else {
        limbs_value(mag) as int
    }
}

/// Canonical form: no leading zero limb, and no negative zero.
pub open spec fn canonical(neg: bool, mag: Seq<u64>) -> bool {
    &&& (mag.len() == 0 || mag.last() != 0)
    &&& (neg ==> mag.len() > 0)
}

/// |x|
pub open spec fn abs_int(x: int) -> int {
    if x < 0 {
        -x
    } else {
        x
    }
}

/// -1, 0 or 1 according to the sign of x.
pub open spec fn sign_int(x: int) -> int {
    if x < 0 {
        -1
    } else if x == 0 {
        0
    } else {
        1
    }
}

/// The i64 that is congruent to x modulo 2^64 (two's-complement wrap-around).
pub open spec fn wrap_i64(x: int) -> int {
    let r = x % (limb_base() as int);
    if r < 0x8000_0000_0000_0000 {
        r
    } else {
        r - limb_base()
    }
}

/// Number of bits of the binary representation of n (0 for 0).
pub open spec fn bit_length(n: nat) -> nat
    decreases n,
{
    if n == 0 {
        0
    } else {
        1 + bit_length(n / 2)
    }
}

pub proof fn lemma_limb_pow_positive(k: nat)
    ensures
        limb_pow(k) >= 1,
    decreases k,
{
    if k > 0 {
        lemma_limb_pow_positive((k - 1) as nat);
        lemma_mul_increases(limb_base() as int, limb_pow((k - 1) as nat) as int);
    }
}

/// The value of k limbs is below limb_base()^k.
pub proof fn lemma_limbs_value_bound(s: Seq<u64>)
    ensures
        limbs_value(s) < limb_pow(s.len()),
    decreases s.len(),
{
    if s.len() > 0 {
        let k = (s.len() - 1) as nat;
        lemma_limbs_value_bound(s.drop_last());
        // value < p + last * p <= (last + 1) * p <= base * p
        let p = limb_pow(k) as int;
        lemma_limb_pow_positive(k);
        lemma_mul_is_distributive_add_other_way(p, s.last() as int, 1);
        lemma_mul_inequality(s.last() as int + 1, limb_base() as int, p);
        lemma_mul_is_commutative(limb_base() as int, p);
    }
}

/// A canonical non-empty magnitude is at least limb_base()^(len-1), in particular positive.
pub proof fn lemma_limbs_value_lower(s: Seq<u64>)
    requires
        s.len() > 0,
        s.last() != 0,
    ensures
        limbs_value(s) >= limb_pow((s.len() - 1) as nat),
        limbs_value(s) > 0,
{
    let k = (s.len() - 1) as nat;
    lemma_limb_pow_positive(k);
    lemma_mul_increases(s.last() as int, limb_pow(k) as int);
}

/// A canonical magnitude is empty exactly when its value is zero.
pub proof fn lemma_canonical_zero(neg: bool, s: Seq<u64>)
    requires
        canonical(neg, s),
    ensures
        (limbs_value(s) == 0) == (s.len() == 0),
        (signed_value(neg, s) == 0) == (s.len() == 0),
        signed_value(neg, s) < 0 <==> neg,
{
    if s.len() > 0 {
        lemma_limbs_value_lower(s);
    }
}

/// Appending zero limbs on top does not change the value.
pub proof fn lemma_limbs_value_push_zero(s: Seq<u64>)
    ensures
        limbs_value(s.push(0)) == limbs_value(s),
{
    assert(s.push(0).drop_last() =~= s);
    assert(s.push(0).last() == 0);
    lemma_mul_basics(limb_pow(s.len()) as int);
}

/// The value of a single limb.
pub proof fn lemma_limbs_value_single(x: u64)
    ensures
        limbs_value(seq![x]) == x,
{
    assert(seq![x].drop_last() =~= Seq::<u64>::empty());
    assert(seq![x].last() == x);
    assert(limb_pow(0) == 1);
    assert(limbs_value(Seq::<u64>::empty()) == 0);
    lemma_mul_basics(x as int);
}

/// The low limb is the value modulo limb_base().
pub proof fn lemma_limbs_value_low(s: Seq<u64>)
    requires
        s.len() > 0,
    ensures
        (limbs_value(s) as int) % (limb_base() as int) == s[0] as int,
        limbs_value(s) == s[0] + limb_base() * limbs_value(s.drop_first()),
    decreases s.len(),
{
    let b = limb_base() as int;
    if s.len() == 1 {
        assert(s =~= seq![s[0]]);
        lemma_limbs_value_single(s[0]);
        assert(s.drop_first() =~= Seq::<u64>::empty());
        vstd::arithmetic::div_mod::lemma_small_mod(s[0] as nat, limb_base());
    } else {
        let t = s.drop_last();
        lemma_limbs_value_low(t);
        let k = (s.len() - 1) as nat;
        let km1 = (k - 1) as nat;
        // value(s) = value(t) + last * base^k = t0 + base*value(t') + last*base*base^(k-1)
        assert(s.drop_first().drop_last() =~= t.drop_first());
        assert(s.drop_first().last() == s.last());
        assert(s.drop_first().len() == k);
        assert(limb_pow(k) == b * limb_pow(km1));
        lemma_mul_is_associative(s.last() as int, b, limb_pow(km1) as int);
        lemma_mul_is_commutative(s.last() as int, b);
        lemma_mul_is_associative(b, s.last() as int, limb_pow(km1) as int);
        lemma_mul_is_distributive_add(
            b,
            limbs_value(t.drop_first()) as int,
            s.last() * limb_pow(km1),
        );
        vstd::arithmetic::div_mod::lemma_mod_multiples_vanish(
            limbs_value(s.drop_first()) as int,
            s[0] as int,
            b,
        );
        lemma_mul_is_commutative(b, limbs_value(s.drop_first()) as int);
        vstd::arithmetic::div_mod::lemma_small_mod(s[0] as nat, limb_base());
    }
}

/// Canonical representations are unique.
pub proof fn lemma_canonical_unique(n1: bool, s1: Seq<u64>, n2: bool, s2: Seq<u64>)
    requires
        canonical(n1, s1),
        canonical(n2, s2),
        signed_value(n1, s1) == signed_value(n2, s2),
    ensures
        n1 == n2,
        s1 == s2,
{
    lemma_canonical_zero(n1, s1);
    lemma_canonical_zero(n2, s2);
    lemma_limbs_value_unique(s1, s2);
}

/// Magnitudes without leading zero limbs are determined by their values.
pub proof fn lemma_limbs_value_unique(s1: Seq<u64>, s2: Seq<u64>)
    requires
        s1.len() == 0 || s1.last() != 0,
        s2.len() == 0 || s2.last() != 0,
        limbs_value(s1) == limbs_value(s2),
    ensures
        s1 == s2,
    decreases s1.len(),
{
    if s1.len() == 0 || s2.len() == 0 {
        if s1.len() > 0 {
            lemma_limbs_value_lower(s1);
        }
        if s2.len() > 0 {
            lemma_limbs_value_lower(s2);
        }
        assert(s1 =~= s2);
    } else {
        lemma_limbs_value_low(s1);
        lemma_limbs_value_low(s2);
        let b = limb_base() as int;
        let r1 = limbs_value(s1.drop_first()) as int;
        let r2 = limbs_value(s2.drop_first()) as int;
        assert(s1[0] == s2[0]);
        assert(b * r1 == b * r2);
        lemma_mul_equality_converse(b, r1, r2);
        let t1 = s1.drop_first();
        let t2 = s2.drop_first();
        if t1.len() > 0 {
            assert(t1.last() == s1.last());
        }
        if t2.len() > 0 {
            assert(t2.last() == s2.last());
        }
        lemma_limbs_value_unique(t1, t2);
        assert(s1 =~= seq![s1[0]] + t1);
        assert(s2 =~= seq![s2[0]] + t2);
    }
}

/// Multi-precision integer.
#[derive(Debug, PartialEq, Eq, Hash)]
pub struct Z {
    pub(crate) neg: bool,
    pub(crate) mag: Vec<u64>,
}

impl View for Z {
    type V = int;

    closed spec fn view(&self) -> int {
        signed_value(self.neg, self.mag@)
    }
}

impl Z {
    #[verifier::type_invariant]
    closed spec fn is_canonical(self) -> bool {
        canonical(self.neg, self.mag@)
    }

    /// Builds a `Z` from canonical parts.
    pub(crate) fn from_canonical_parts(neg: bool, mag: Vec<u64>) -> (r: Z)
        requires
            canonical(neg, mag@),
        ensures
            r@ == signed_value(neg, mag@),
    {
        Z { neg, mag }
    }

    /// The integer 0.
    pub fn new() -> (r: Z)
        ensures
            r@ == 0,
    {
        Z { neg: false, mag: Vec::new() }
    }

    /// The integer 0.
    pub fn zero() -> (r: Z)
        ensures
            r@ == 0,
    {
        Z::new()
    }

    /// The integer 1.
    pub fn one() -> (r: Z)
        ensures
            r@ == 1,
    {
        Z::from_u64(1)
    }

    pub fn from_u64(v: u64) -> (r: Z)
        ensures
            r@ == v,
    {
        let mut mag: Vec<u64> = Vec::new();
        if v != 0 {
            mag.push(v);
            proof {
                assert(mag@ =~= seq![v]);
                lemma_limbs_value_single(v);
            }
        }
        Z { neg: false, mag }
    }

    pub fn from_i64(v: i64) -> (r: Z)
        ensures
            r@ == v,
    {
        let w: i128 = v as i128;
        if w < 0 {
            let m: u64 = (-w) as u64;
            let mut mag: Vec<u64> = Vec::new();
            mag.push(m);
            proof {
                assert(mag@ =~= seq![m]);
                lemma_limbs_value_single(m);
            }
            Z { neg: true, mag }
        } else {
            Z::from_u64(w as u64)
        }
    }

    /// Builds a `Z` from a sign and little-endian limbs of its magnitude
    /// (leading zero limbs are allowed and dropped).
    pub fn from_sign_magnitude(neg: bool, limbs: &[u64]) -> (r: Z)
        ensures
            r@ == signed_value(neg, limbs@),
    {
        let mut len = limbs.len();
        proof {
            assert(limbs@.subrange(0, len as int) =~= limbs@);
        }
        while len > 0 && limbs[len - 1] == 0
            invariant
                len <= limbs.len(),
                limbs_value(limbs@.subrange(0, len as int)) == limbs_value(limbs@),
            decreases len,
        {
            proof {
                let t = limbs@.subrange(0, len - 1);
                assert(limbs@.subrange(0, len as int) =~= t.push(0));
                lemma_limbs_value_push_zero(t);
            }
            len = len - 1;
        }
        let mut mag: Vec<u64> = Vec::new();
        let mut i: usize = 0;
        while i < len
            invariant
                i <= len <= limbs.len(),
                mag@ =~= limbs@.subrange(0, i as int),
            decreases len - i,
        {
            mag.push(limbs[i]);
            i = i + 1;
        }
        proof {
            assert(mag@ =~= limbs@.subrange(0, len as int));
            if len > 0 {
                assert(mag@.last() == limbs[len - 1]);
            }
        }
        let is_neg = neg && len > 0;
        proof {
            if len == 0 {
                assert(mag@ =~= Seq::<u64>::empty());
            }
        }
        Z { neg: is_neg, mag }
    }

    /// The limbs of |self|, least significant first, without leading zero limb.
    pub fn magnitude_limbs(&self) -> (r: &[u64])
        ensures
            limbs_value(r@) == abs_int(self@),
            r@.len() == 0 || r@.last() != 0,
    {
        proof {
            use_type_invariant(self);
        }
        self.mag.as_slice()
    }

    /// true when self is negative.
    pub fn is_negative(&self) -> (r: bool)
        ensures
            r == (self@ < 0),
    {
        proof {
            use_type_invariant(self);
            lemma_canonical_zero(self.neg, self.mag@);
        }
        self.neg
    }

    pub fn is_zero(&self) -> (r: bool)
        ensures
            r == (self@ == 0),
    {
        proof {
            use_type_invariant(self);
            lemma_canonical_zero(self.neg, self.mag@);
        }
        self.mag.len() == 0
    }

    /// -1, 0 or 1.
    pub fn sign(&self) -> (r: i32)
        ensures
            r == sign_int(self@),
    {
        proof {
            use_type_invariant(self);
            lemma_canonical_zero(self.neg, self.mag@);
        }
        if self.neg {
            -1
        } else if self.mag.len() == 0 {
            0
        } else {
            1
        }
    }

    /// A copy of self.
    pub(crate) fn copy(&self) -> (r: Z)
        ensures
            r@ == self@,
    {
        self.clone()
    }
}

impl Clone for Z {
    fn clone(&self) -> (r: Z)
        ensures
            r@ == self@,
    {
        proof {
            use_type_invariant(self);
        }
        let mag = self.mag.clone();
        proof {
            assert(mag@ =~= self.mag@);
        }
        Z { neg: self.neg, mag }
    }
}

impl Z {
    /// self = |self|
    pub fn abs_inplace(&mut self)
        ensures
            final(self)@ == abs_int(old(self)@),
    {
        proof {
            use_type_invariant(&*self);
            lemma_canonical_zero(self.neg, self.mag@);
        }
        self.neg = false;
    }

    /// self = -self
    pub fn neg_inplace(&mut self)
        ensures
            final(self)@ == -old(self)@,
    {
        proof {
            use_type_invariant(&*self);
            lemma_canonical_zero(self.neg, self.mag@);
        }
        if self.mag.len() > 0 {
            self.neg = !self.neg;
        }
    }

    /// self = other
    pub fn set(&mut self, other: &Z)
        ensures
            final(self)@ == other@,
    {
        *self = other.clone();
    }

    /// self = x
    pub fn set_si(&mut self, x: i64)
        ensures
            final(self)@ == x,
    {
        *self = Z::from_i64(x);
    }

    /// The value modulo 2^64, as a two's-complement i64.
    pub fn get_si(&self) -> (r: i64)
        ensures
            r == wrap_i64(self@),
    {
        proof {
            use_type_invariant(self);
        }
        let b: i128 = 0x1_0000_0000_0000_0000;
        let low: i128 = if self.mag.len() == 0 {
            0
        } else {
            self.mag[0] as i128
        };
        let m: i128 = if self.neg && low != 0 {
            b - low
        } else {
            low
        };
        proof {
            let v = limbs_value(self.mag@) as int;
            if self.mag.len() > 0 {
                lemma_limbs_value_low(self.mag@);
                if self.neg {
                    vstd::arithmetic::div_mod::lemma_mod_neg_neg(v, b as int);
                    if low != 0 {
                        // (-v) % b == b - (v % b)
                        lemma_neg_mod(v, b as int);
                    } else {
                        lemma_neg_mod_zero(v, b as int);
                    }
                }
            } else {
                assert(self.mag@ =~= Seq::<u64>::empty());
            }
            assert(m == self@ % (limb_base() as int));
        }
        if m < 0x8000_0000_0000_0000 {
            m as i64
        } else {
            (m - b) as i64
        }
    }
}

proof fn lemma_neg_mod(v: int, b: int)
    requires
        b > 0,
        v % b != 0,
    ensures
        (-v) % b == b - v % b,
{
    vstd::arithmetic::div_mod::lemma_fundamental_div_mod(v, b);
    let q = v / b;
    let r = v % b;
    // -v = (-q - 1) * b + (b - r)
    assert(-v == (-q - 1) * b + (b - r)) by (nonlinear_arith)
        requires
            v == b * q + r,
    ;
    vstd::arithmetic::div_mod::lemma_fundamental_div_mod_converse_mod(-v, b, -q - 1, b - r);
}

proof fn lemma_neg_mod_zero(v: int, b: int)
    requires
        b > 0,
        v % b == 0,
    ensures
        (-v) % b == 0,
{
    vstd::arithmetic::div_mod::lemma_fundamental_div_mod(v, b);
    let q = v / b;
    assert(-v == (-q) * b + 0) by (nonlinear_arith)
        requires
            v == b * q + 0,
    ;
    vstd::arithmetic::div_mod::lemma_fundamental_div_mod_converse_mod(-v, b, -q, 0);
}

} // verus!

verus! {

/// The character of digit d (0 <= d < 36): '0'..'9' then 'a'..'z'.
pub open spec fn digit_char(d: nat) -> char {
    if d < 10 {
        (d + 48) as char
    } else {
        (d + 87) as char
    }
}

/// The digits of n in the given radix, most significant first; empty for 0.
pub open spec fn radix_digits(n: nat, radix: nat) -> Seq<char>
    recommends
        radix >= 2,
    decreases n,
    when radix >= 2
{
    if n == 0 {
        Seq::empty()
    } else {
        proof {
            vstd::arithmetic::div_mod::lemma_div_decreases(n as int, radix as int);
        }
        radix_digits(n / radix, radix).push(digit_char(n % radix))
    }
}

/// The text of x in the given radix: "0" for zero, otherwise an optional
/// '-' followed by the digits of |x| in lower case.
pub open spec fn radix_string(x: int, radix: nat) -> Seq<char> {
    if x == 0 {
        seq!['0']
    } else if x < 0 {
        seq!['-'] + radix_digits((-x) as nat, radix)
    } else {
        radix_digits(x as nat, radix)
    }
}

/// The bytes that integer parsing skips wherever they occur: ' ', '\t', '\n', 0x0b, 0x0c, '\r'.
pub open spec fn is_parse_space(b: u8) -> bool {
    b == 0x20 || b == 0x09 || b == 0x0a || b == 0x0b || b == 0x0c || b == 0x0d
}

pub open spec fn is_decimal_digit(b: u8) -> bool {
    0x30 <= b <= 0x39
}

/// Decimal integer syntax read left to right from position i.  An optional
/// '+' or '-' may come before the first digit, the bytes of `is_parse_space`
/// are skipped anywhere, '_' is skipped after the first digit, and at least
/// one digit is needed.  `acc` is the value of the digits read so far.
pub open spec fn decimal_scan(
    s: Seq<u8>,
    i: nat,
    has_sign: bool,
    neg: bool,
    has_digits: bool,
    acc: nat,
) -> Option<int>
    decreases s.len() - i,
{
    if i >= s.len() {
        if has_digits {
            Some(if neg { -(acc as int) } else { acc as int })
        } else {
            None
        }
    } else {
        let b = s[i as int];
        if (b == 0x2b || b == 0x2d) && !has_sign && !has_digits {
            decimal_scan(s, i + 1, true, b == 0x2d, has_digits, acc)
        } else if b == 0x5f && has_digits {
            decimal_scan(s, i + 1, has_sign, neg, has_digits, acc)
        } else if is_parse_space(b) {
            decimal_scan(s, i + 1, has_sign, neg, has_digits, acc)
        } else if is_decimal_digit(b) {
            decimal_scan(s, i + 1, has_sign, neg, true, acc * 10 + (b - 0x30) as nat)
        } else {
            None
        }
    }
}

/// The integer that the decimal text `s` denotes, if it is one.
pub open spec fn decimal_parse(s: Seq<u8>) -> Option<int> {
    decimal_scan(s, 0, false, false, false, 0)
}

/// x * 2^bits
pub open spec fn shifted_left(x: int, bits: u32) -> int {
    x * pow2(bits as nat)
}

/// floor(x / 2^bits)
pub open spec fn shifted_right(x: int, bits: u32) -> int {
    x / (pow2(bits as nat) as int)
}

/// 2^bits
pub open spec fn two_to(bits: u32) -> int {
    pow2(bits as nat) as int
}

} // verus!

verus! {

/// The value that `Z::mul_2si` computes: a * 2^e for e >= 0 and floor(a / 2^-e)
/// for e < 0, where the shift count is cast to u32 as the code does.
pub open spec fn mul_2si_value(a: int, e: i64) -> int {
    if e >= 0 {
        shifted_left(a, #[verifier::truncate] (e as u32))
    } else {
        shifted_right(a, #[verifier::truncate] ((-e) as u32))
    }
}

/// Equal top limbs cancel in the difference of values.
proof fn lemma_value_diff_drop_last(a: Seq<u64>, b: Seq<u64>)
    requires
        a.len() == b.len(),
        a.len() > 0,
        a.last() == b.last(),
    ensures
        limbs_value(a) - limbs_value(b) == limbs_value(a.drop_last()) - limbs_value(b.drop_last()),
{
}

/// A larger top limb gives a larger value, for equal lengths.
proof fn lemma_value_top_limb(a: Seq<u64>, b: Seq<u64>)
    requires
        a.len() == b.len(),
        a.len() > 0,
        a.last() > b.last(),
    ensures
        limbs_value(a) > limbs_value(b),
{
    let k = (a.len() - 1) as nat;
    let p = limb_pow(k) as int;
    lemma_limbs_value_bound(b.drop_last());
    assert(b.drop_last().len() == k);
    lemma_mul_inequality(b.last() as int + 1, a.last() as int, p);
    lemma_mul_is_distributive_add_other_way(p, b.last() as int, 1);
}

/// More limbs (without leading zero) give a larger value.
proof fn lemma_value_longer(a: Seq<u64>, b: Seq<u64>)
    requires
        a.len() > b.len(),
        a.last() != 0,
    ensures
        limbs_value(a) > limbs_value(b),
{
    lemma_limbs_value_bound(b);
    lemma_limbs_value_lower(a);
    lemma_limb_pow_monotone(b.len(), (a.len() - 1) as nat);
}

proof fn lemma_limb_pow_monotone(i: nat, j: nat)
    requires
        i <= j,
    ensures
        limb_pow(i) <= limb_pow(j),
    decreases j,
{
    if i < j {
        lemma_limb_pow_monotone(i, (j - 1) as nat);
        lemma_limb_pow_positive((j - 1) as nat);
        lemma_mul_increases(limb_base() as int, limb_pow((j - 1) as nat) as int);
    }
}

/// -1, 0 or 1 as the value of the first magnitude is below, equal to or above the second.
fn compare_magnitudes(a: &[u64], b: &[u64]) -> (r: i32)
    requires
        a@.len() == 0 || a@.last() != 0,
        b@.len() == 0 || b@.last() != 0,
    ensures
        r == sign_int(limbs_value(a@) - limbs_value(b@)),
{
    if a.len() > b.len() {
        proof {
            lemma_value_longer(a@, b@);
        }
        return 1;
    }
    if a.len() < b.len() {
        proof {
            lemma_value_longer(b@, a@);
        }
        return -1;
    }
    let mut i = a.len();
    proof {
        assert(a@.subrange(0, i as int) =~= a@);
        assert(b@.subrange(0, i as int) =~= b@);
    }
    while i > 0
        invariant
            a.len() == b.len(),
            i <= a.len(),
            limbs_value(a@) - limbs_value(b@) == limbs_value(a@.subrange(0, i as int))
                - limbs_value(b@.subrange(0, i as int)),
        decreases i,
    {
        let x = a[i - 1];
        let y = b[i - 1];
        let ghost sa = a@.subrange(0, i as int);
        let ghost sb = b@.subrange(0, i as int);
        if x > y {
            proof {
                lemma_value_top_limb(sa, sb);
            }
            return 1;
        }
        if x < y {
            proof {
                lemma_value_top_limb(sb, sa);
            }
            return -1;
        }
        proof {
            lemma_value_diff_drop_last(sa, sb);
            assert(sa.drop_last() =~= a@.subrange(0, i - 1));
            assert(sb.drop_last() =~= b@.subrange(0, i - 1));
        }
        i = i - 1;
    }
    proof {
        assert(a@.subrange(0, 0) =~= Seq::<u64>::empty());
        assert(b@.subrange(0, 0) =~= Seq::<u64>::empty());
    }
    0
}

impl Z {
    /// The sign of self - other: -1, 0 or 1.
    pub(crate) fn sign_of_difference(&self, other: &Z) -> (r: i32)
        ensures
            r == sign_int(self@ - other@),
    {
        proof {
            use_type_invariant(self);
            use_type_invariant(other);
            lemma_canonical_zero(self.neg, self.mag@);
            lemma_canonical_zero(other.neg, other.mag@);
        }
        if self.neg != other.neg {
            if self.neg {
                -1
            } else {
                1
            }
        } else {
            let c = compare_magnitudes(self.mag.as_slice(), other.mag.as_slice());
            if self.neg {
                -c
            } else {
                c
            }
        }
    }

    fn from_gmp(r: (bool, Vec<u64>)) -> (z: Z)
        requires
            canonical(r.0, r.1@),
        ensures
            z@ == signed_value(r.0, r.1@),
    {
        Z { neg: r.0, mag: r.1 }
    }

    /// self += other
    pub fn add_assign_ref(&mut self, other: &Z)
        ensures
            final(self)@ == old(self)@ + other@,
    {
        *self = Z::from_gmp(crate::gmp::gmp_add(self, other));
    }

    /// self -= other
    pub fn sub_assign_ref(&mut self, other: &Z)
        ensures
            final(self)@ == old(self)@ - other@,
    {
        *self = Z::from_gmp(crate::gmp::gmp_sub(self, other));
    }

    /// self *= other
    pub fn mul_assign_ref(&mut self, other: &Z)
        ensures
            final(self)@ == old(self)@ * other@,
    {
        *self = Z::from_gmp(crate::gmp::gmp_mul(self, other));
    }

    /// self = a * b
    pub fn mul_set(&mut self, a: &Z, b: &Z)
        ensures
            final(self)@ == a@ * b@,
    {
        *self = Z::from_gmp(crate::gmp::gmp_mul(a, b));
    }

    /// self = a + b
    pub fn add_set(&mut self, a: &Z, b: &Z)
        ensures
            final(self)@ == a@ + b@,
    {
        *self = Z::from_gmp(crate::gmp::gmp_add(a, b));
    }

    /// self = a - b
    pub fn sub_set(&mut self, a: &Z, b: &Z)
        ensures
            final(self)@ == a@ - b@,
    {
        *self = Z::from_gmp(crate::gmp::gmp_sub(a, b));
    }

    /// self += a * b
    pub fn addmul(&mut self, a: &Z, b: &Z)
        ensures
            final(self)@ == old(self)@ + a@ * b@,
    {
        let p = Z::from_gmp(crate::gmp::gmp_mul(a, b));
        *self = Z::from_gmp(crate::gmp::gmp_add(self, &p));
    }

    /// self -= a * b
    pub fn submul(&mut self, a: &Z, b: &Z)
        ensures
            final(self)@ == old(self)@ - a@ * b@,
    {
        let p = Z::from_gmp(crate::gmp::gmp_mul(a, b));
        *self = Z::from_gmp(crate::gmp::gmp_sub(self, &p));
    }

    /// self += a * x
    pub fn addmul_si(&mut self, a: &Z, x: i64)
        ensures
            final(self)@ == old(self)@ + a@ * x,
    {
        let xz = Z::from_i64(x);
        self.addmul(a, &xz);
    }

    /// self -= a * x
    pub fn submul_si(&mut self, a: &Z, x: i64)
        ensures
            final(self)@ == old(self)@ - a@ * x,
    {
        let xz = Z::from_i64(x);
        self.submul(a, &xz);
    }

    /// self = a * x
    pub fn mul_si(&mut self, a: &Z, x: i64)
        ensures
            final(self)@ == a@ * x,
    {
        let xz = Z::from_i64(x);
        self.mul_set(a, &xz);
    }

    /// self = a * 2^e (e >= 0) or floor(a / 2^-e) (e < 0); the shift count
    /// is cast to u32.
    pub fn mul_2si(&mut self, a: &Z, e: i64)
        requires
            e != i64::MIN,
        ensures
            final(self)@ == mul_2si_value(a@, e),
    {
        if e >= 0 {
            let bits: u32 = #[verifier::truncate] (e as u32);
            *self = Z::from_gmp(crate::gmp::gmp_shl(a, bits));
        } else {
            let bits: u32 = #[verifier::truncate] ((-e) as u32);
            *self = Z::from_gmp(crate::gmp::gmp_shr(a, bits));
        }
    }

    /// self += a * 2^e, with tmp = a * 2^e (see `mul_2si`).
    pub fn addmul_2si(&mut self, a: &Z, e: i64, tmp: &mut Z)
        requires
            e != i64::MIN,
        ensures
            final(tmp)@ == mul_2si_value(a@, e),
            final(self)@ == old(self)@ + mul_2si_value(a@, e),
    {
        tmp.mul_2si(a, e);
        self.add_assign_ref(tmp);
    }

    /// The number of bits of |self|.
    pub fn significant_bits(&self) -> (r: u32)
        requires
            bit_length(abs_int(self@) as nat) <= u32::MAX,
        ensures
            r == bit_length(abs_int(self@) as nat),
    {
        crate::gmp::gmp_significant_bits(self)
    }

    /// The next prime greater than self.
    pub fn next_prime(&self) -> (r: Z)
        ensures
            r@ == crate::gmp::next_prime_of(self@),
            r@ > self@,
    {
        Z::from_gmp(crate::gmp::gmp_next_prime(self))
    }

    /// The text of self in the given radix (2 to 36).
    pub fn to_str_radix(&self, radix: i32) -> (r: String)
        requires
            2 <= radix <= 36,
        ensures
            r@ == radix_string(self@, radix as nat),
    {
        crate::gmp::gmp_to_string_radix(self, radix)
    }

    /// The decimal text of self.
    pub fn to_string(&self) -> (r: String)
        ensures
            r@ == radix_string(self@, 10),
    {
        self.to_str_radix(10)
    }

    /// Parses decimal text (see `decimal_parse`).
    pub fn from_str(s: &str) -> (r: Option<Z>)
        ensures
            match r {
                Some(z) => decimal_parse(s.spec_bytes()) == Some(z@),
                None => decimal_parse(s.spec_bytes()) is None,
            },
    {
        Z::from_bytes(s.as_bytes())
    }

    /// Parses decimal text given as bytes (see `decimal_parse`).
    pub fn from_bytes(s: &[u8]) -> (r: Option<Z>)
        ensures
            match r {
                Some(z) => decimal_parse(s@) == Some(z@),
                None => decimal_parse(s@) is None,
            },
    {
        match crate::gmp::gmp_parse(s) {
            Some(p) => Some(Z::from_gmp(p)),
            None => None,
        }
    }
}

impl From<i64> for Z {
    fn from(v: i64) -> (r: Z)
        ensures
            r@ == v,
    {
        Z::from_i64(v)
    }
}

impl vstd::std_specs::convert::FromSpecImpl<i64> for Z {
    open spec fn obeys_from_spec() -> bool {
        false
    }

    open spec fn from_spec(v: i64) -> Z {
        choose|z: Z| z@ == v
    }
}

impl From<i32> for Z {
    fn from(v: i32) -> (r: Z)
        ensures
            r@ == v,
    {
        Z::from_i64(v as i64)
    }
}

impl vstd::std_specs::convert::FromSpecImpl<i32> for Z {
    open spec fn obeys_from_spec() -> bool {
        false
    }

    open spec fn from_spec(v: i32) -> Z {
        choose|z: Z| z@ == v
    }
}

impl From<u64> for Z {
    fn from(v: u64) -> (r: Z)
        ensures
            r@ == v,
    {
        Z::from_u64(v)
    }
}

impl vstd::std_specs::convert::FromSpecImpl<u64> for Z {
    open spec fn obeys_from_spec() -> bool {
        false
    }

    open spec fn from_spec(v: u64) -> Z {
        choose|z: Z| z@ == v
    }
}

impl Default for Z {
    fn default() -> (r: Z)
        ensures
            r@ == 0,
    {
        Z::new()
    }
}

} // verus!

verus! {

/// x as a mathematical integer.
pub open spec fn i64_as_int(x: i64) -> int {
    x as int
}

/// `submul` undoes `addmul` with the same factors (and conversely).
pub proof fn lemma_addmul_submul_inverse(x: int, a: int, b: int)
    ensures
        (x + a * b) - a * b == x,
        (x - a * b) + a * b == x,
{
}

/// Scaling by 2^e and then by 2^-e (see `mul_2si`) gives back the integer,
/// for every e >= 0.
pub proof fn lemma_mul_2si_round_trip(a: int, e: i64)
    requires
        0 <= e,
    ensures
        mul_2si_value(mul_2si_value(a, e), -e as i64) == a,
{
    let k: u32 = #[verifier::truncate] (e as u32);
    if e == 0 {
        assert(pow2(0) == 1) by {
            lemma2_to64();
        }
    } else {
        assert((-(-e as i64)) as u32 == k);
        lemma_pow2_pos(k as nat);
        let p = pow2(k as nat) as int;
        vstd::arithmetic::div_mod::lemma_div_multiples_vanish(a, p);
        assert(a * p == p * a) by (nonlinear_arith);
    }
}

} // verus!
