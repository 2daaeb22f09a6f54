//! Facts about the decimal text of integers: what `radix_string` writes in
//! radix 10 is ASCII, made of a sign and digits, and `decimal_parse` reads
//! it back.

use vstd::prelude::*;
use vstd::utf8::{encode_utf8, is_ascii_chars, is_ascii_chars_encode_utf8};
use crate::integer::{radix_string, radix_digits, digit_char, decimal_scan, decimal_parse, is_decimal_digit};

verus! {

/// The bytes of an ASCII text.
pub open spec fn ascii_bytes(cs: Seq<char>) -> Seq<u8> {
    cs.map_values(|c: char| c as u8)
}

/// The value of the decimal digits t read after the digits whose value is acc.
pub open spec fn fold_digits(acc: nat, t: Seq<u8>) -> nat
    decreases t.len(),
{
    if t.len() == 0 {
        acc
    } else {
        fold_digits(acc * 10 + (t[0] - 0x30) as nat, t.drop_first())
    }
}

/// A character of decimal text: a digit or the minus sign.
pub open spec fn is_decimal_char(c: char) -> bool {
    c == '-' || ('0' <= c && c <= '9')
}

proof fn lemma_fold_digits_push(acc: nat, t: Seq<u8>, b: u8)
    requires
        is_decimal_digit(b),
        forall|k: int| 0 <= k < t.len() ==> is_decimal_digit(#[trigger] t[k]),
    ensures
        fold_digits(acc, t.push(b)) == fold_digits(acc, t) * 10 + (b - 0x30),
    decreases t.len(),
{
    if t.len() == 0 {
        assert(t.push(b).drop_first() =~= Seq::<u8>::empty());
        assert(fold_digits(acc * 10 + (b - 0x30) as nat, Seq::<u8>::empty()) == acc * 10 + (b - 0x30) as nat);
    } else {
        assert(t.push(b)[0] == t[0]);
        assert(t.push(b).drop_first() =~= t.drop_first().push(b));
        lemma_fold_digits_push(acc * 10 + (t[0] - 0x30) as nat, t.drop_first(), b);
    }
}

/// Reading digits only: the scan ends with the value of all of them.
proof fn lemma_scan_digits(s: Seq<u8>, i: nat, has_sign: bool, neg: bool, has_digits: bool, acc: nat)
    requires
        i <= s.len(),
        forall|k: int| i <= k < s.len() ==> is_decimal_digit(#[trigger] s[k]),
        has_digits || i < s.len(),
    ensures
        decimal_scan(s, i, has_sign, neg, has_digits, acc) == Some(
            if neg {
                -(fold_digits(acc, s.subrange(i as int, s.len() as int)) as int)
            } else {
                fold_digits(acc, s.subrange(i as int, s.len() as int)) as int
            },
        ),
    decreases s.len() - i,
{
    if i < s.len() {
        let b = s[i as int];
        assert(is_decimal_digit(b));
        let acc2 = acc * 10 + (b - 0x30) as nat;
        lemma_scan_digits(s, i + 1, has_sign, neg, true, acc2);
        assert(s.subrange(i as int, s.len() as int).drop_first() =~= s.subrange((i + 1) as int, s.len() as int));
    } else {
        assert(s.subrange(i as int, s.len() as int) =~= Seq::<u8>::empty());
    }
}

/// The digits of n in radix 10 are decimal characters, and read back as n.
proof fn lemma_digits_read_back(n: nat)
    ensures
        forall|k: int| 0 <= k < radix_digits(n, 10).len() ==> '0' <= #[trigger] radix_digits(n, 10)[k] <= '9',
        forall|k: int| 0 <= k < radix_digits(n, 10).len() ==> is_decimal_digit(#[trigger] ascii_bytes(radix_digits(n, 10))[k]),
        fold_digits(0, ascii_bytes(radix_digits(n, 10))) == n,
        n > 0 ==> radix_digits(n, 10).len() > 0,
    decreases n,
{
    if n > 0 {
        let q = n / 10;
        let d = n % 10;
        lemma_digits_read_back(q);
        let prev = radix_digits(q, 10);
        let c = digit_char(d);
        assert(radix_digits(n, 10) == prev.push(c));
        assert(c as u8 == d + 0x30);
        assert(ascii_bytes(prev.push(c)) =~= ascii_bytes(prev).push(c as u8));
        lemma_fold_digits_push(0, ascii_bytes(prev), c as u8);
    } else {
        assert(ascii_bytes(radix_digits(n, 10)) =~= Seq::<u8>::empty());
    }
}

/// The decimal text of x is nonempty and made of decimal characters, with
/// at most a leading minus sign.
pub proof fn lemma_decimal_text_chars(x: int)
    ensures
        radix_string(x, 10).len() > 0,
        forall|k: int| 0 <= k < radix_string(x, 10).len() ==> is_decimal_char(#[trigger] radix_string(x, 10)[k]),
        is_ascii_chars(radix_string(x, 10)),
        encode_utf8(radix_string(x, 10)) == ascii_bytes(radix_string(x, 10)),
{
    let t = radix_string(x, 10);
    if x == 0 {
    } else if x < 0 {
        lemma_digits_read_back((-x) as nat);
        let ds = radix_digits((-x) as nat, 10);
        assert forall|k: int| 0 <= k < t.len() implies is_decimal_char(#[trigger] t[k]) by {
            if k > 0 {
                assert(t[k] == ds[k - 1]);
            }
        }
    } else {
        lemma_digits_read_back(x as nat);
    }
    assert(is_ascii_chars(t));
    is_ascii_chars_encode_utf8(t);
    assert(encode_utf8(t) =~= ascii_bytes(t));
}

/// Decimal text round trip: parsing the decimal text of x gives x.
pub proof fn lemma_decimal_round_trip(x: int)
    ensures
        decimal_parse(encode_utf8(radix_string(x, 10))) == Some(x),
{
    lemma_decimal_text_chars(x);
    let t = radix_string(x, 10);
    let s = ascii_bytes(t);
    if x == 0 {
        assert(s =~= seq![0x30u8]);
        lemma_scan_digits(s, 0, false, false, false, 0);
        assert(s.subrange(0, 1) =~= seq![0x30u8]);
        assert(seq![0x30u8].drop_first() =~= Seq::<u8>::empty());
        assert(fold_digits(0, Seq::<u8>::empty()) == 0);
        assert(fold_digits(0, seq![0x30u8]) == 0);
        assert(decimal_parse(s) == Some(0int));
    } else if x < 0 {
        let n = (-x) as nat;
        lemma_digits_read_back(n);
        let ds = ascii_bytes(radix_digits(n, 10));
        assert(s =~= seq![0x2du8] + ds);
        assert(s.subrange(1, s.len() as int) =~= ds);
        lemma_scan_digits(s, 1, true, true, false, 0);
        assert(s[0] == 0x2du8);
        assert(decimal_scan(s, 0, false, false, false, 0) == decimal_scan(s, 1, true, true, false, 0));
        assert(decimal_parse(s) == Some(x));
    } else {
        let n = x as nat;
        lemma_digits_read_back(n);
        assert(s.subrange(0, s.len() as int) =~= s);
        lemma_scan_digits(s, 0, false, false, false, 0);
        assert(decimal_parse(s) == Some(x));
    }
}

} // verus!
