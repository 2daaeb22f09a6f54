//! The text format of vectors: integers separated by whitespace, optionally
//! enclosed in one pair of brackets.

use vstd::prelude::*;
use vstd::string::{StrSliceExecFns, StringExecFns};
use vstd::utf8::encode_utf8;
use crate::integer::{Z, decimal_parse, radix_string};
use crate::decimal::{is_decimal_char, lemma_decimal_text_chars, lemma_decimal_round_trip};
use crate::matrix::row_ints;
use crate::text::row_text;

verus! {

/// Unicode whitespace: the characters with the White_Space property.
pub open spec fn is_unicode_space(c: char) -> bool {
    ||| ('\u{9}' <= c && c <= '\u{d}')
    ||| c == ' '
    ||| c == '\u{85}'
    ||| c == '\u{a0}'
    ||| c == '\u{1680}'
    ||| ('\u{2000}' <= c && c <= '\u{200a}')
    ||| c == '\u{2028}'
    ||| c == '\u{2029}'
    ||| c == '\u{202f}'
    ||| c == '\u{205f}'
    ||| c == '\u{3000}'
}

/// The first position at or after i that is not whitespace, or the end.
pub open spec fn skip_space(cs: Seq<char>, i: nat) -> nat
    decreases cs.len() - i,
{
    if i < cs.len() && is_unicode_space(cs[i as int]) {
        skip_space(cs, i + 1)
    } else {
        i
    }
}

/// The position after the last character before j that is not whitespace,
/// going down no further than lo.
pub open spec fn trim_end(cs: Seq<char>, lo: nat, j: nat) -> nat
    decreases j,
{
    if j > lo && is_unicode_space(cs[j - 1]) {
        trim_end(cs, lo, (j - 1) as nat)
    } else {
        j
    }
}

/// The bounds of cs without leading and trailing whitespace.
pub open spec fn trim_bounds(cs: Seq<char>) -> (nat, nat) {
    let lo = skip_space(cs, 0);
    (lo, trim_end(cs, lo, cs.len()))
}

/// The bounds of the part of cs that holds the entries: the trimmed text,
/// without its first and last character when those are '[' and ']'.
pub open spec fn entries_bounds(cs: Seq<char>) -> (nat, nat) {
    let (lo, hi) = trim_bounds(cs);
    if hi >= lo + 2 && cs[lo as int] == '[' && cs[hi - 1] == ']' {
        ((lo + 1) as nat, (hi - 1) as nat)
    } else {
        (lo, hi)
    }
}

/// The end of the word that starts at i: the first whitespace at or after i,
/// or b.
pub open spec fn word_end_before(cs: Seq<char>, i: nat, b: nat) -> nat
    decreases b - i,
{
    if i >= b || is_unicode_space(cs[i as int]) {
        i
    } else {
        word_end_before(cs, i + 1, b)
    }
}

pub proof fn lemma_word_end_before(cs: Seq<char>, i: nat, b: nat)
    requires
        i <= b <= cs.len(),
    ensures
        i <= word_end_before(cs, i, b) <= b,
        forall|k: int| i <= k < word_end_before(cs, i, b) ==> !is_unicode_space(#[trigger] cs[k]),
        word_end_before(cs, i, b) < b ==> is_unicode_space(cs[word_end_before(cs, i, b) as int]),
    decreases b - i,
{
    if i < b && !is_unicode_space(cs[i as int]) {
        lemma_word_end_before(cs, i + 1, b);
    }
}

/// Reads the words of cs between i and b as integers after the values acc;
/// the first word that is not an integer is the error.
pub open spec fn entries_scan(cs: Seq<char>, i: nat, b: nat, acc: Seq<int>) -> Result<Seq<int>, Seq<char>>
    decreases b - i,
{
    if i >= b || b > cs.len() {
        Ok(acc)
    } else if is_unicode_space(cs[i as int]) {
        entries_scan(cs, i + 1, b, acc)
    } else {
        let e = word_end_before(cs, i + 1, b);
        proof {
            lemma_word_end_before(cs, i + 1, b);
        }
        let word = cs.subrange(i as int, e as int);
        match decimal_parse(encode_utf8(word)) {
            None => Err(word),
            Some(v) => entries_scan(cs, e, b, acc.push(v)),
        }
    }
}

/// The vector that the text cs denotes, or the first word that is not an integer.
pub open spec fn vector_text_parse(cs: Seq<char>) -> Result<Seq<int>, Seq<char>> {
    let (a, b) = entries_bounds(cs);
    entries_scan(cs, a, b, Seq::empty())
}

/// The vector that the text cs denotes, or the message that names the
/// first word that is not an integer.
pub open spec fn vector_text_result(cs: Seq<char>) -> Result<Seq<int>, Seq<char>> {
    match vector_text_parse(cs) {
        Ok(v) => Ok(v),
        Err(word) => Err("bad int '"@ + word + "'"@),
    }
}

fn is_space_char(c: char) -> (r: bool)
    ensures
        r == is_unicode_space(c),
{
    ('\u{9}' <= c && c <= '\u{d}') || c == ' ' || c == '\u{85}' || c == '\u{a0}' || c == '\u{1680}'
        || ('\u{2000}' <= c && c <= '\u{200a}') || c == '\u{2028}' || c == '\u{2029}' || c
        == '\u{202f}' || c == '\u{205f}' || c == '\u{3000}'
}

/// The characters of s.
fn chars_of(s: &str) -> (cs: Vec<char>)
    ensures
        cs@ == s@,
{
    let mut cs: Vec<char> = Vec::new();
    for c in it: s.chars()
        invariant
            cs@ == it.seq().take(it.index() as int),
            it.seq() == s@,
    {
        cs.push(c);
    }
    cs
}

/// Parses the text format of vectors (see `vector_text_result`); the error
/// is the message that names the first word that is not an integer.
pub fn parse_vector(s: &str) -> (r: Result<Vec<Z>, String>)
    ensures
        match r {
            Ok(v) => vector_text_result(s@) == Ok::<Seq<int>, Seq<char>>(row_ints(v@)),
            Err(msg) => vector_text_result(s@) == Err::<Seq<int>, Seq<char>>(msg@),
        },
{
    let cs = chars_of(s);
    let n = cs.len();
    let mut lo: usize = 0;
    while lo < n && is_space_char(cs[lo])
        invariant
            lo <= n == cs@.len(),
            skip_space(cs@, 0) == skip_space(cs@, lo as nat),
        decreases n - lo,
    {
        lo = lo + 1;
    }
    let mut hi: usize = n;
    while hi > lo && is_space_char(cs[hi - 1])
        invariant
            lo <= hi <= n == cs@.len(),
            trim_end(cs@, lo as nat, n as nat) == trim_end(cs@, lo as nat, hi as nat),
        decreases hi,
    {
        hi = hi - 1;
    }
    let (a, b) = if hi - lo >= 2 && cs[lo] == '[' && cs[hi - 1] == ']' {
        (lo + 1, hi - 1)
    } else {
        (lo, hi)
    };
    let mut out: Vec<Z> = Vec::new();
    let mut i: usize = a;
    proof {
        assert(row_ints(out@) =~= Seq::<int>::empty());
    }
    while i < b
        invariant
            a <= i <= b <= n == cs@.len(),
            cs@ == s@,
            vector_text_parse(s@) == entries_scan(s@, i as nat, b as nat, row_ints(out@)),
        decreases b - i,
    {
        if is_space_char(cs[i]) {
            i = i + 1;
        } else {
            let mut e = i + 1;
            while e < b && !is_space_char(cs[e])
                invariant
                    i < e <= b <= n == cs@.len(),
                    word_end_before(cs@, (i + 1) as nat, b as nat) == word_end_before(cs@, e as nat, b as nat),
                decreases b - e,
            {
                e = e + 1;
            }
            proof {
                lemma_word_end_before(cs@, (i + 1) as nat, b as nat);
            }
            let word = s.substring_char(i, e);
            match Z::from_str(word) {
                None => {
                    let mut msg = String::new();
                    msg.append("bad int '");
                    msg.append(word);
                    msg.append("'");
                    proof {
                        assert(msg@ =~= "bad int '"@ + word@ + "'"@);
                    }
                    return Err(msg);
                },
                Some(v) => {
                    let ghost before = row_ints(out@);
                    let ghost value = v@;
                    out.push(v);
                    proof {
                        assert(row_ints(out@) =~= before.push(value));
                    }
                    i = e;
                },
            }
        }
    }
    Ok(out)
}

/// The text of a vector: its entries in decimal, separated by single
/// spaces, in brackets.
pub open spec fn vector_text(v: Seq<int>) -> Seq<char> {
    seq!['['] + row_text(v) + seq![']']
}

/// The text of a vector (see `vector_text`).
pub fn vector_to_string(v: &[Z]) -> (r: String)
    ensures
        r@ == vector_text(row_ints(v@)),
{
    proof {
        reveal_strlit("[");
        reveal_strlit("]");
        reveal_strlit(" ");
    }
    let mut out = String::new();
    out.append("[");
    let ghost r = row_ints(v@);
    let n = v.len();
    let mut j: usize = 0;
    proof {
        assert(r.take(0) =~= Seq::<int>::empty());
        assert(out@ =~= seq!['['] + row_text(r.take(0)));
    }
    while j < n
        invariant
            j <= n == v@.len() == r.len(),
            r == row_ints(v@),
            " "@ == seq![' '],
            out@ == seq!['['] + row_text(r.take(j as int)),
        decreases n - j,
    {
        if j > 0 {
            out.append(" ");
        }
        let t = v[j].to_string();
        out.append(t.as_str());
        proof {
            let next = r.take(j + 1);
            if j > 0 {
                assert(next.drop_last() =~= r.take(j as int));
            }
            assert(out@ =~= seq!['['] + row_text(next));
        }
        j = j + 1;
    }
    out.append("]");
    proof {
        assert(r.take(n as int) =~= r);
        assert(out@ =~= vector_text(r));
    }
    out
}

/// t stands in cs from position a on.
pub open spec fn chars_at(cs: Seq<char>, a: int, t: Seq<char>) -> bool {
    &&& 0 <= a
    &&& a + t.len() <= cs.len()
    &&& forall|k: int| 0 <= k < t.len() ==> cs[a + k] == #[trigger] t[k]
}

proof fn lemma_chars_at_split(cs: Seq<char>, a: int, t1: Seq<char>, t2: Seq<char>)
    requires
        chars_at(cs, a, t1 + t2),
    ensures
        chars_at(cs, a, t1),
        chars_at(cs, a + t1.len(), t2),
{
    assert forall|k: int| 0 <= k < t1.len() implies cs[a + k] == #[trigger] t1[k] by {
        assert((t1 + t2)[k] == t1[k]);
    }
    assert forall|k: int| 0 <= k < t2.len() implies cs[a + t1.len() + k] == #[trigger] t2[k] by {
        assert((t1 + t2)[t1.len() + k] == t2[k]);
    }
}

proof fn lemma_word_end_before_at(cs: Seq<char>, i: nat, e: nat, b: nat)
    requires
        i <= e <= b <= cs.len(),
        e == b || is_unicode_space(cs[e as int]),
        forall|k: int| i <= k < e ==> !is_unicode_space(#[trigger] cs[k]),
    ensures
        word_end_before(cs, i, b) == e,
    decreases e - i,
{
    if i < e {
        lemma_word_end_before_at(cs, i + 1, e, b);
    }
}

/// Reading the decimal text of x adds x to the entries.
proof fn lemma_scan_vector_entry(cs: Seq<char>, a: nat, b: nat, x: int, acc: Seq<int>)
    requires
        chars_at(cs, a as int, radix_string(x, 10)),
        a + radix_string(x, 10).len() <= b <= cs.len(),
        a + radix_string(x, 10).len() == b || is_unicode_space(cs[(a + radix_string(x, 10).len()) as int]),
    ensures
        entries_scan(cs, a, b, acc) == entries_scan(cs, a + radix_string(x, 10).len(), b, acc.push(x)),
{
    let t = radix_string(x, 10);
    let e = a + t.len();
    lemma_decimal_text_chars(x);
    lemma_decimal_round_trip(x);
    assert forall|k: int| a <= k < e implies !is_unicode_space(#[trigger] cs[k]) by {
        assert(cs[k] == t[k - a]);
        assert(is_decimal_char(t[k - a]));
    }
    lemma_word_end_before_at(cs, a + 1, e, b);
    assert(cs.subrange(a as int, e as int) =~= t);
}

/// Reading the text of a row of entries adds them.
proof fn lemma_scan_vector_entries(cs: Seq<char>, a: nat, b: nat, r: Seq<int>, acc: Seq<int>)
    requires
        chars_at(cs, a as int, row_text(r)),
        a + row_text(r).len() <= b <= cs.len(),
        a + row_text(r).len() == b || is_unicode_space(cs[(a + row_text(r).len()) as int]),
    ensures
        entries_scan(cs, a, b, acc) == entries_scan(cs, a + row_text(r).len(), b, acc + r),
    decreases r.len(),
{
    if r.len() == 0 {
        assert(acc + r =~= acc);
    } else if r.len() == 1 {
        lemma_scan_vector_entry(cs, a, b, r[0], acc);
        assert(acc.push(r[0]) =~= acc + r);
    } else {
        let r1 = r.drop_last();
        let x = r.last();
        let t1 = row_text(r1);
        lemma_chars_at_split(cs, a as int, t1 + seq![' '], radix_string(x, 10));
        lemma_chars_at_split(cs, a as int, t1, seq![' ']);
        let p = a + t1.len();
        assert(cs[p as int + 0] == seq![' '][0]);
        assert(cs[p as int] == ' ');
        lemma_scan_vector_entries(cs, a, b, r1, acc);
        lemma_scan_vector_entry(cs, p + 1, b, x, acc + r1);
        assert((acc + r1).push(x) =~= acc + r);
    }
}

/// Round trip of the vector text format: the text of a vector parses back
/// to the vector.
pub proof fn lemma_vector_text_round_trip(v: Seq<int>)
    ensures
        vector_text_parse(vector_text(v)) == Ok::<Seq<int>, Seq<char>>(v),
        vector_text_result(vector_text(v)) == Ok::<Seq<int>, Seq<char>>(v),
{
    let cs = vector_text(v);
    let t = row_text(v);
    let n = cs.len();
    assert(chars_at(cs, 0, cs));
    lemma_chars_at_split(cs, 0, seq!['['] + t, seq![']']);
    lemma_chars_at_split(cs, 0, seq!['['], t);
    assert(cs[0] == '[');
    assert(cs[n - 1] == ']');
    assert(skip_space(cs, 0) == 0);
    assert(trim_end(cs, 0, n as nat) == n);
    lemma_scan_vector_entries(cs, 1, (n - 1) as nat, v, Seq::empty());
    assert(Seq::<int>::empty() + v =~= v);
}

/// Entries written without brackets, separated by single spaces, parse to
/// the vector too.
pub proof fn lemma_vector_bare_text_parse(v: Seq<int>)
    ensures
        vector_text_parse(row_text(v)) == Ok::<Seq<int>, Seq<char>>(v),
        vector_text_result(row_text(v)) == Ok::<Seq<int>, Seq<char>>(v),
{
    let cs = row_text(v);
    let n = cs.len();
    assert(chars_at(cs, 0, cs));
    if v.len() == 0 {
        assert(cs.len() == 0);
        assert(v =~= Seq::<int>::empty());
    } else {
        lemma_row_text_starts_and_ends(v);
        assert(!is_unicode_space(cs[0]));
        assert(skip_space(cs, 0) == 0);
        assert(!is_unicode_space(cs[n - 1]));
        assert(trim_end(cs, 0, n as nat) == n);
        assert(cs[0] != '[');
        lemma_scan_vector_entries(cs, 0, n as nat, v, Seq::empty());
        assert(Seq::<int>::empty() + v =~= v);
    }
}

/// The text of a nonempty row starts and ends with a decimal character.
proof fn lemma_row_text_starts_and_ends(r: Seq<int>)
    requires
        r.len() > 0,
    ensures
        row_text(r).len() > 0,
        is_decimal_char(row_text(r)[0]),
        is_decimal_char(row_text(r)[row_text(r).len() - 1]),
    decreases r.len(),
{
    lemma_decimal_text_chars(r.last());
    let t = radix_string(r.last(), 10);
    if r.len() == 1 {
        lemma_decimal_text_chars(r[0]);
    } else {
        lemma_row_text_starts_and_ends(r.drop_last());
        let p = row_text(r.drop_last()) + seq![' '];
        assert(row_text(r) == p + t);
        assert(row_text(r)[0] == row_text(r.drop_last())[0]);
        assert(row_text(r)[row_text(r).len() - 1] == t[t.len() - 1]);
    }
}

} // verus!
