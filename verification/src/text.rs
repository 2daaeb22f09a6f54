//! The text format of matrices: `[` then one `[a b ...]` per row, then `]`,
//! with ASCII whitespace allowed between the parts.

use vstd::prelude::*;
use vstd::string::{StringSliceAdditionalSpecFns, StringExecFns};
use vstd::utf8::{
    encode_utf8, decode_utf8, valid_utf8, is_char_boundary, is_ascii_chars,
    is_ascii_chars_encode_utf8, encode_utf8_valid_utf8, encode_utf8_decode_utf8,
    is_char_boundary_start_end_of_seq, is_char_boundary_iff_not_is_continuation_byte,
    valid_utf8_split, pop_first_scalar, length_of_first_scalar,
};
use crate::integer::{Z, decimal_parse, radix_string};
use crate::decimal::{is_decimal_char, lemma_decimal_text_chars, lemma_decimal_round_trip};
use crate::lattice::{Mat, rows_have_len};
use crate::matrix::{ZMatrix, ZRow, row_ints};

verus! {

/// ASCII whitespace: ' ', '\t', '\n', form feed and '\r'.
pub open spec fn is_ascii_space(b: u8) -> bool {
    b == 0x20 || b == 0x09 || b == 0x0a || b == 0x0c || b == 0x0d
}

/// '[' or ']'.
pub open spec fn is_bracket(b: u8) -> bool {
    b == 0x5b || b == 0x5d
}

/// The end of the word that starts at i: the first position at or after i
/// that holds whitespace or a bracket, or the end of s.
pub open spec fn word_end(s: Seq<u8>, i: nat) -> nat
    decreases s.len() - i,
{
    if i >= s.len() || is_ascii_space(s[i as int]) || is_bracket(s[i as int]) {
        i
    } else {
        word_end(s, i + 1)
    }
}

pub proof fn lemma_word_end(s: Seq<u8>, i: nat)
    requires
        i <= s.len(),
    ensures
        i <= word_end(s, i) <= s.len(),
        forall|k: int| i <= k < word_end(s, i) ==> !is_ascii_space(#[trigger] s[k]) && !is_bracket(s[k]),
        word_end(s, i) < s.len() ==> is_ascii_space(s[word_end(s, i) as int]) || is_bracket(
            s[word_end(s, i) as int],
        ),
    decreases s.len() - i,
{
    if i < s.len() && !is_ascii_space(s[i as int]) && !is_bracket(s[i as int]) {
        lemma_word_end(s, i + 1);
    }
}

/// Why a text is not a matrix.
#[derive(Debug, Clone, Copy, PartialEq, Eq)]
pub enum MatrixParseError {
    /// The text does not start with '['.
    ExpectedOpen,
    /// The word in bytes [start, end) of a row is not an integer.
    BadInt { start: usize, end: usize },
    /// The text ends inside a row.
    MissingClose,
    /// A row whose length differs from that of the first row.
    Ragged { expected: usize, got: usize },
    /// After a row, something other than '[' or ']'.
    ExpectedClosing,
}

/// Reads the rows of a matrix from position i of s: `rows` are the rows read
/// so far, `row` the entries of the row being read when `in_row`.
pub open spec fn matrix_scan(s: Seq<u8>, i: nat, rows: Mat, row: Seq<int>, in_row: bool) -> Result<
    Mat,
    MatrixParseError,
>
    decreases s.len() - i,
{
    if i >= s.len() {
        if in_row {
            Err(MatrixParseError::MissingClose)
        } else {
            Err(MatrixParseError::ExpectedClosing)
        }
    } else if is_ascii_space(s[i as int]) {
        matrix_scan(s, i + 1, rows, row, in_row)
    } else if !in_row {
        if s[i as int] == 0x5b {
            matrix_scan(s, i + 1, rows, Seq::empty(), true)
        } else if s[i as int] == 0x5d {
            Ok(rows)
        } else {
            Err(MatrixParseError::ExpectedClosing)
        }
    } else if s[i as int] == 0x5d {
        if rows.len() > 0 && row.len() != rows[0].len() {
            Err(MatrixParseError::Ragged { expected: rows[0].len() as usize, got: row.len() as usize })
        } else {
            matrix_scan(s, i + 1, rows.push(row), Seq::empty(), false)
        }
    } else {
        // a word, or a '[' that stands alone
        let e: nat = if s[i as int] == 0x5b {
            i + 1
        } else {
            proof {
                lemma_word_end(s, i + 1);
            }
            word_end(s, i + 1)
        };
        match decimal_parse(s.subrange(i as int, e as int)) {
            None => Err(MatrixParseError::BadInt { start: i as usize, end: e as usize }),
            Some(v) => matrix_scan(s, e, rows, row.push(v), true),
        }
    }
}

/// The matrix that the text s denotes, or why it denotes none: after
/// leading whitespace an opening '[', then the rows.
pub open spec fn matrix_text_parse(s: Seq<u8>) -> Result<Mat, MatrixParseError> {
    leading_scan(s, 0)
}

/// Skips the whitespace before the opening '['.
pub open spec fn leading_scan(s: Seq<u8>, i: nat) -> Result<Mat, MatrixParseError>
    decreases s.len() - i,
{
    if i >= s.len() {
        Err(MatrixParseError::ExpectedOpen)
    } else if is_ascii_space(s[i as int]) {
        leading_scan(s, i + 1)
    } else if s[i as int] == 0x5b {
        matrix_scan(s, i + 1, Seq::empty(), Seq::empty(), false)
    } else {
        Err(MatrixParseError::ExpectedOpen)
    }
}

fn is_space_byte(b: u8) -> (r: bool)
    ensures
        r == is_ascii_space(b),
{
    b == 0x20 || b == 0x09 || b == 0x0a || b == 0x0c || b == 0x0d
}

/// The end of the word of b that starts at i (see `word_end`).
fn find_word_end(b: &[u8], i: usize) -> (e: usize)
    requires
        i <= b@.len(),
    ensures
        e == word_end(b@, i as nat),
{
    let mut e = i;
    while e < b.len() && !is_space_byte(b[e]) && b[e] != 0x5b && b[e] != 0x5d
        invariant
            i <= e <= b@.len(),
            word_end(b@, i as nat) == word_end(b@, e as nat),
        decreases b@.len() - e,
    {
        e = e + 1;
    }
    e
}

/// Every row of rows has the length of the first.
pub open spec fn rectangular(rows: Mat) -> bool {
    forall|k: int| 0 <= k < rows.len() ==> #[trigger] rows[k].len() == rows[0].len()
}

/// The integers of a sequence of rows.
pub open spec fn rows_ints(rows: Seq<ZRow>) -> Mat {
    rows.map_values(|r: ZRow| row_ints(r@))
}

/// In valid UTF-8, the end, a position that holds an ASCII byte, and a
/// position that follows one are character boundaries.
pub proof fn lemma_ascii_boundary(b: Seq<u8>, k: int)
    requires
        valid_utf8(b),
        0 <= k <= b.len(),
        k == b.len() || b[k] < 0x80 || (k > 0 && b[k - 1] < 0x80),
    ensures
        is_char_boundary(b, k),
    decreases b.len(),
{
    if k == 0 {
    } else if k == b.len() {
        is_char_boundary_start_end_of_seq(b);
    } else if b[k] < 0x80 {
        is_char_boundary_iff_not_is_continuation_byte(b, k);
    } else {
        let l = length_of_first_scalar(b);
        let rest = pop_first_scalar(b);
        if k - 1 < l {
            assert(k == 1 && l == 1);
            reveal_with_fuel(is_char_boundary, 2);
        } else {
            assert(rest[k - l] == b[k]);
            assert(rest[k - l - 1] == b[k - 1]);
            lemma_ascii_boundary(rest, k - l);
        }
    }
}

/// The word of a `BadInt` error lies between character boundaries of s.
pub open spec fn error_fits(s: Seq<u8>, e: MatrixParseError) -> bool {
    match e {
        MatrixParseError::BadInt { start, end } => {
            &&& start <= end <= s.len()
            &&& is_char_boundary(s, start as int)
            &&& is_char_boundary(s, end as int)
        },
        _ => true,
    }
}

/// The message of an error in parsing the matrix text s.
pub open spec fn matrix_error_message(s: Seq<u8>, e: MatrixParseError) -> Seq<char> {
    match e {
        MatrixParseError::ExpectedOpen => "expected '['"@,
        MatrixParseError::BadInt { start, end } => "bad int '"@ + decode_utf8(
            s.subrange(start as int, end as int),
        ) + "'"@,
        MatrixParseError::MissingClose => "missing ']'"@,
        MatrixParseError::Ragged { expected, got } => "ragged row: expected "@ + radix_string(
            expected as int,
            10,
        ) + ", got "@ + radix_string(got as int, 10),
        MatrixParseError::ExpectedClosing => "expected closing ']'"@,
    }
}

/// The matrix that the text s denotes, or the message of why it denotes none.
pub open spec fn matrix_text_result(s: Seq<u8>) -> Result<Mat, Seq<char>> {
    match matrix_text_parse(s) {
        Ok(m) => Ok(m),
        Err(e) => Err(matrix_error_message(s, e)),
    }
}

impl MatrixParseError {
    /// The message of this error of parsing s (see `matrix_error_message`).
    pub fn message(&self, s: &str) -> (r: String)
        requires
            error_fits(s.spec_bytes(), *self),
        ensures
            r@ == matrix_error_message(s.spec_bytes(), *self),
    {
        let mut out = String::new();
        match *self {
            MatrixParseError::ExpectedOpen => {
                out.append("expected '['");
            },
            MatrixParseError::BadInt { start, end } => {
                let ghost b = s.spec_bytes();
                proof {
                    encode_utf8_valid_utf8(s@);
                    valid_utf8_split(b, end as int);
                    let head = b.subrange(0, end as int);
                    if start == end {
                        is_char_boundary_start_end_of_seq(head);
                    } else {
                        is_char_boundary_iff_not_is_continuation_byte(b, start as int);
                        assert(head[start as int] == b[start as int]);
                        is_char_boundary_iff_not_is_continuation_byte(head, start as int);
                    }
                }
                let (head, _) = s.split_at(end);
                let (_, word) = head.split_at(start);
                proof {
                    assert(word.spec_bytes() =~= b.subrange(start as int, end as int));
                    encode_utf8_decode_utf8(word@);
                }
                out.append("bad int '");
                out.append(word);
                out.append("'");
            },
            MatrixParseError::MissingClose => {
                out.append("missing ']'");
            },
            MatrixParseError::Ragged { expected, got } => {
                let e = Z::from_u64(expected as u64).to_string();
                let g = Z::from_u64(got as u64).to_string();
                out.append("ragged row: expected ");
                out.append(e.as_str());
                out.append(", got ");
                out.append(g.as_str());
            },
            MatrixParseError::ExpectedClosing => {
                out.append("expected closing ']'");
            },
        }
        proof {
            let m = matrix_error_message(s.spec_bytes(), *self);
            assert(out@ =~= m);
        }
        out
    }
}

/// Parses the text format of matrices (see `matrix_text_result`); the
/// error is the message of why the text is no matrix.
pub fn parse_matrix(s: &str) -> (r: Result<ZMatrix, String>)
    ensures
        match r {
            Ok(m) => {
                &&& matrix_text_result(s.spec_bytes()) == Ok::<Mat, Seq<char>>(m@)
                &&& m.wf()
                &&& m.width() == (if m@.len() > 0 { m@[0].len() } else { 0 })
            },
            Err(msg) => matrix_text_result(s.spec_bytes()) == Err::<Mat, Seq<char>>(msg@),
        },
{
    match scan_matrix(s) {
        Ok(m) => Ok(m),
        Err(e) => Err(e.message(s)),
    }
}

/// Reads the text format of matrices (see `matrix_text_parse`).
fn scan_matrix(s: &str) -> (r: Result<ZMatrix, MatrixParseError>)
    ensures
        match r {
            Ok(m) => {
                &&& matrix_text_parse(s.spec_bytes()) == Ok::<Mat, MatrixParseError>(m@)
                &&& m.wf()
                &&& m.width() == (if m@.len() > 0 { m@[0].len() } else { 0 })
            },
            Err(e) => {
                &&& matrix_text_parse(s.spec_bytes()) == Err::<Mat, MatrixParseError>(e)
                &&& error_fits(s.spec_bytes(), e)
            },
        },
{
    let b = s.as_bytes();
    proof {
        encode_utf8_valid_utf8(s@);
    }
    let n = b.len();
    let mut i: usize = 0;
    while i < n && is_space_byte(b[i])
        invariant
            i <= n == b@.len(),
            leading_scan(b@, 0) == leading_scan(b@, i as nat),
        decreases n - i,
    {
        i = i + 1;
    }
    if i >= n || b[i] != 0x5b {
        return Err(MatrixParseError::ExpectedOpen);
    }
    i = i + 1;
    let mut rows: Vec<ZRow> = Vec::new();
    let mut row: ZRow = Vec::new();
    let mut in_row = false;
    proof {
        assert(rows_ints(rows@) =~= Seq::<Seq<int>>::empty());
        assert(row_ints(row@) =~= Seq::<int>::empty());
    }
    loop
        invariant
            i <= n == b@.len(),
            b@ == s.spec_bytes(),
            valid_utf8(b@),
            i == n || b@[i as int] < 0x80 || (i > 0 && b@[i - 1] < 0x80),
            matrix_text_parse(b@) == matrix_scan(b@, i as nat, rows_ints(rows@), row_ints(row@), in_row),
            rectangular(rows_ints(rows@)),
            rows@.len() <= i,
            row@.len() <= i,
        decreases n - i,
    {
        if i >= n {
            if in_row {
                return Err(MatrixParseError::MissingClose);
            } else {
                return Err(MatrixParseError::ExpectedClosing);
            }
        }
        let c = b[i];
        if is_space_byte(c) {
            i = i + 1;
        } else if !in_row {
            if c == 0x5b {
                in_row = true;
                row = Vec::new();
                proof {
                    assert(row_ints(row@) =~= Seq::<int>::empty());
                }
                i = i + 1;
            } else if c == 0x5d {
                let ncols = if rows.len() > 0 {
                    rows[0].len()
                } else {
                    0
                };
                let m = ZMatrix::from_rows(rows, ncols);
                return Ok(m);
            } else {
                return Err(MatrixParseError::ExpectedClosing);
            }
        } else if c == 0x5d {
            if rows.len() > 0 && row.len() != rows[0].len() {
                return Err(MatrixParseError::Ragged { expected: rows[0].len(), got: row.len() });
            }
            let ghost before = rows_ints(rows@);
            let ghost this_row = row_ints(row@);
            rows.push(row);
            row = Vec::new();
            in_row = false;
            proof {
                assert(rows_ints(rows@) =~= before.push(this_row));
                assert(row_ints(row@) =~= Seq::<int>::empty());
            }
            i = i + 1;
        } else {
            let e = if c == 0x5b {
                i + 1
            } else {
                find_word_end(b, i + 1)
            };
            proof {
                lemma_word_end(b@, (i + 1) as nat);
            }
            let word = vstd::slice::slice_subrange(b, i, e);
            match Z::from_bytes(word) {
                None => {
                    proof {
                        lemma_ascii_boundary(b@, i as int);
                        lemma_ascii_boundary(b@, e as int);
                    }
                    return Err(MatrixParseError::BadInt { start: i, end: e });
                },
                Some(v) => {
                    let ghost before = row_ints(row@);
                    let ghost value = v@;
                    row.push(v);
                    proof {
                        assert(row_ints(row@) =~= before.push(value));
                    }
                    i = e;
                },
            }
        }
    }
}

/// The entries of a row in decimal, separated by single spaces.
pub open spec fn row_text(r: Seq<int>) -> Seq<char>
    decreases r.len(),
{
    if r.len() == 0 {
        Seq::empty()
    } else if r.len() == 1 {
        radix_string(r[0], 10)
    } else {
        row_text(r.drop_last()) + seq![' '] + radix_string(r.last(), 10)
    }
}

/// A row in brackets, followed by a newline.
pub open spec fn row_block(r: Seq<int>) -> Seq<char> {
    seq!['['] + row_text(r) + seq![']', '\n']
}

/// The blocks of all rows, in order.
pub open spec fn rows_text(m: Mat) -> Seq<char>
    decreases m.len(),
{
    if m.len() == 0 {
        Seq::empty()
    } else {
        rows_text(m.drop_last()) + row_block(m.last())
    }
}

/// The text of a matrix: '[', a newline, the rows, ']'.
pub open spec fn matrix_text(m: Mat) -> Seq<char> {
    seq!['[', '\n'] + rows_text(m) + seq![']']
}

/// Appends the text of a row (see `row_text`).
fn append_row_text(out: &mut String, row: &ZRow)
    ensures
        final(out)@ == old(out)@ + row_text(row_ints(row@)),
{
    let ghost r = row_ints(row@);
    let n = row.len();
    let mut j: usize = 0;
    proof {
        assert(r.take(0) =~= Seq::<int>::empty());
        assert(old(out)@ + row_text(r.take(0)) =~= old(out)@);
        reveal_strlit(" ");
    }
    while j < n
        invariant
            j <= n == row@.len() == r.len(),
            r == row_ints(row@),
            " "@ == seq![' '],
            out@ == old(out)@ + row_text(r.take(j as int)),
        decreases n - j,
    {
        let ghost before = out@;
        if j > 0 {
            out.append(" ");
        }
        let t = row[j].to_string();
        out.append(t.as_str());
        proof {
            let next = r.take(j + 1);
            if j > 0 {
                assert(next.drop_last() =~= r.take(j as int));
                assert(out@ =~= old(out)@ + row_text(next));
            } else {
                assert(out@ =~= old(out)@ + row_text(next));
            }
        }
        j = j + 1;
    }
    proof {
        assert(r.take(n as int) =~= r);
    }
}

impl ZMatrix {
    /// The text of the matrix (see `matrix_text`): "[", a newline, each row
    /// as "[a b ...]" followed by a newline, then "]".
    pub fn to_string(&self) -> (r: String)
        ensures
            r@ == matrix_text(self@),
    {
        proof {
            reveal_strlit("[\n");
            reveal_strlit("[");
            reveal_strlit("]\n");
            reveal_strlit("]");
        }
        let mut out = String::new();
        out.append("[\n");
        let n = self.nrows();
        let mut i: usize = 0;
        proof {
            assert(self@.take(0) =~= Seq::<Seq<int>>::empty());
            assert(out@ =~= seq!['[', '\n'] + rows_text(self@.take(0)));
        }
        while i < n
            invariant
                i <= n == self@.len(),
                "["@ == seq!['['],
                "]\n"@ == seq![']', '\n'],
                out@ == seq!['[', '\n'] + rows_text(self@.take(i as int)),
            decreases n - i,
        {
            out.append("[");
            append_row_text(&mut out, self.row(i));
            out.append("]\n");
            proof {
                let next = self@.take(i + 1);
                assert(next.drop_last() =~= self@.take(i as int));
                assert(next.last() == self@[i as int]);
                assert(out@ =~= seq!['[', '\n'] + rows_text(next));
            }
            i = i + 1;
        }
        out.append("]");
        proof {
            assert(self@.take(n as int) =~= self@);
            assert(out@ =~= matrix_text(self@));
        }
        out
    }
}

/// The characters that matrix text is made of.
pub open spec fn is_matrix_char(c: char) -> bool {
    c == '[' || c == ']' || c == ' ' || c == '\n' || is_decimal_char(c)
}

pub open spec fn all_matrix_chars(t: Seq<char>) -> bool {
    forall|k: int| 0 <= k < t.len() ==> is_matrix_char(#[trigger] t[k])
}

proof fn lemma_all_matrix_chars_concat(a: Seq<char>, b: Seq<char>)
    requires
        all_matrix_chars(a),
        all_matrix_chars(b),
    ensures
        all_matrix_chars(a + b),
{
    assert forall|k: int| 0 <= k < (a + b).len() implies is_matrix_char(#[trigger] (a + b)[k]) by {
        if k < a.len() {
            assert((a + b)[k] == a[k]);
        } else {
            assert((a + b)[k] == b[k - a.len()]);
        }
    }
}

proof fn lemma_row_text_chars(r: Seq<int>)
    ensures
        all_matrix_chars(row_text(r)),
    decreases r.len(),
{
    if r.len() == 1 {
        lemma_decimal_text_chars(r[0]);
    } else if r.len() > 1 {
        lemma_row_text_chars(r.drop_last());
        lemma_decimal_text_chars(r.last());
        lemma_all_matrix_chars_concat(row_text(r.drop_last()), seq![' ']);
        lemma_all_matrix_chars_concat(row_text(r.drop_last()) + seq![' '], radix_string(r.last(), 10));
    }
}

proof fn lemma_rows_text_chars(m: Mat)
    ensures
        all_matrix_chars(rows_text(m)),
    decreases m.len(),
{
    if m.len() > 0 {
        lemma_rows_text_chars(m.drop_last());
        lemma_row_text_chars(m.last());
        lemma_all_matrix_chars_concat(seq!['['], row_text(m.last()));
        lemma_all_matrix_chars_concat(seq!['['] + row_text(m.last()), seq![']', '\n']);
        lemma_all_matrix_chars_concat(rows_text(m.drop_last()), row_block(m.last()));
    }
}

/// t is written in s from position a on, one byte per character.
pub open spec fn text_at(s: Seq<u8>, a: int, t: Seq<char>) -> bool {
    &&& 0 <= a
    &&& a + t.len() <= s.len()
    &&& forall|k: int| 0 <= k < t.len() ==> s[a + k] == #[trigger] t[k] as u8
}

proof fn lemma_text_at_split(s: Seq<u8>, a: int, t1: Seq<char>, t2: Seq<char>)
    requires
        text_at(s, a, t1 + t2),
    ensures
        text_at(s, a, t1),
        text_at(s, a + t1.len(), t2),
{
    assert forall|k: int| 0 <= k < t1.len() implies s[a + k] == #[trigger] t1[k] as u8 by {
        assert((t1 + t2)[k] == t1[k]);
    }
    assert forall|k: int| 0 <= k < t2.len() implies s[a + t1.len() + k] == #[trigger] t2[k] as u8 by {
        assert((t1 + t2)[t1.len() + k] == t2[k]);
    }
}

proof fn lemma_word_end_at(s: Seq<u8>, i: nat, e: nat)
    requires
        i <= e < s.len(),
        is_ascii_space(s[e as int]) || is_bracket(s[e as int]),
        forall|k: int| i <= k < e ==> !is_ascii_space(#[trigger] s[k]) && !is_bracket(s[k]),
    ensures
        word_end(s, i) == e,
    decreases e - i,
{
    if i < e {
        lemma_word_end_at(s, i + 1, e);
    }
}

/// Reading the decimal text of x inside a row adds x to the row.
proof fn lemma_scan_entry(s: Seq<u8>, a: nat, x: int, rows: Mat, acc: Seq<int>)
    requires
        text_at(s, a as int, radix_string(x, 10)),
        a + radix_string(x, 10).len() < s.len(),
        s[(a + radix_string(x, 10).len()) as int] == 0x20u8 || s[(a + radix_string(x, 10).len()) as int] == 0x5du8,
    ensures
        matrix_scan(s, a, rows, acc, true) == matrix_scan(
            s,
            a + radix_string(x, 10).len(),
            rows,
            acc.push(x),
            true,
        ),
{
    let t = radix_string(x, 10);
    let e = a + t.len();
    lemma_decimal_text_chars(x);
    lemma_decimal_round_trip(x);
    assert forall|k: int| a <= k < e implies !is_ascii_space(#[trigger] s[k]) && !is_bracket(s[k]) by {
        assert(s[k] == t[k - a] as u8);
        assert(is_decimal_char(t[k - a]));
    }
    assert(s[a as int] == t[0] as u8);
    assert(is_decimal_char(t[0]));
    lemma_word_end_at(s, a + 1, e);
    assert(s.subrange(a as int, e as int) =~= encode_utf8(t)) by {
        assert forall|k: int| 0 <= k < t.len() implies s.subrange(a as int, e as int)[k] == encode_utf8(
            t,
        )[k] by {
            assert(s[a + k] == t[k] as u8);
        }
    }
}

/// Reading the text of a row's entries adds them to the row.
proof fn lemma_scan_entries(s: Seq<u8>, a: nat, r: Seq<int>, rows: Mat, acc: Seq<int>)
    requires
        text_at(s, a as int, row_text(r)),
        a + row_text(r).len() < s.len(),
        s[(a + row_text(r).len()) as int] == 0x20u8 || s[(a + row_text(r).len()) as int] == 0x5du8,
    ensures
        matrix_scan(s, a, rows, acc, true) == matrix_scan(s, a + row_text(r).len(), rows, acc + r, true),
    decreases r.len(),
{
    if r.len() == 0 {
        assert(acc + r =~= acc);
    } else if r.len() == 1 {
        lemma_scan_entry(s, a, r[0], rows, acc);
        assert(acc.push(r[0]) =~= acc + r);
    } else {
        let r1 = r.drop_last();
        let x = r.last();
        let t1 = row_text(r1);
        lemma_text_at_split(s, a as int, t1 + seq![' '], radix_string(x, 10));
        lemma_text_at_split(s, a as int, t1, seq![' ']);
        assert(seq![' '][0] as u8 == 0x20u8);
        lemma_scan_entries(s, a, r1, rows, acc);
        let p = a + t1.len();
        assert(s[p as int] == 0x20u8);
        lemma_scan_entry(s, p + 1, x, rows, acc + r1);
        assert((acc + r1).push(x) =~= acc + r);
    }
}

/// Reading the block of a row adds the row.
proof fn lemma_scan_row_block(s: Seq<u8>, a: nat, r: Seq<int>, rows: Mat)
    requires
        text_at(s, a as int, row_block(r)),
        rows.len() > 0 ==> r.len() == rows[0].len(),
    ensures
        matrix_scan(s, a, rows, Seq::empty(), false) == matrix_scan(
            s,
            a + row_block(r).len(),
            rows.push(r),
            Seq::empty(),
            false,
        ),
{
    let t = row_text(r);
    lemma_text_at_split(s, a as int, seq!['['] + t, seq![']', '\n']);
    lemma_text_at_split(s, a as int, seq!['['], t);
    assert(seq!['['][0] as u8 == 0x5bu8);
    assert(seq![']', '\n'][0] as u8 == 0x5du8);
    assert(seq![']', '\n'][1] as u8 == 0x0au8);
    assert(s[a as int] == 0x5bu8);
    let close = a + 1 + t.len();
    assert(s[close as int] == 0x5du8);
    assert(s[(close + 1) as int] == 0x0au8);
    lemma_scan_entries(s, a + 1, r, rows, Seq::empty());
    assert(Seq::<int>::empty() + r =~= r);
    assert(matrix_scan(s, a, rows, Seq::empty(), false) == matrix_scan(s, a + 1, rows, Seq::empty(), true));
    assert(matrix_scan(s, close, rows, r, true) == matrix_scan(s, close + 1, rows.push(r), Seq::empty(), false));
    assert(matrix_scan(s, close + 1, rows.push(r), Seq::empty(), false) == matrix_scan(
        s,
        close + 2,
        rows.push(r),
        Seq::empty(),
        false,
    ));
    assert(close + 2 == a + row_block(r).len());
}

/// Reading the blocks of all rows gives the rows.
proof fn lemma_scan_rows(s: Seq<u8>, a: nat, m: Mat, w: nat)
    requires
        text_at(s, a as int, rows_text(m)),
        rows_have_len(m, w),
    ensures
        matrix_scan(s, a, Seq::empty(), Seq::empty(), false) == matrix_scan(
            s,
            a + rows_text(m).len(),
            m,
            Seq::empty(),
            false,
        ),
    decreases m.len(),
{
    if m.len() == 0 {
        assert(m =~= Seq::<Seq<int>>::empty());
    } else {
        let m1 = m.drop_last();
        lemma_text_at_split(s, a as int, rows_text(m1), row_block(m.last()));
        lemma_scan_rows(s, a, m1, w);
        assert(m1.len() > 0 ==> m1[0].len() == w);
        lemma_scan_row_block(s, a + rows_text(m1).len(), m.last(), m1);
        assert(m1.push(m.last()) =~= m);
    }
}

/// Round trip of the matrix text format: the text of a matrix whose rows
/// all have the same length parses back to that matrix.
pub proof fn lemma_matrix_text_round_trip(m: Mat, w: nat)
    requires
        rows_have_len(m, w),
    ensures
        matrix_text_parse(encode_utf8(matrix_text(m))) == Ok::<Mat, MatrixParseError>(m),
        matrix_text_result(encode_utf8(matrix_text(m))) == Ok::<Mat, Seq<char>>(m),
{
    let t = matrix_text(m);
    lemma_rows_text_chars(m);
    lemma_all_matrix_chars_concat(seq!['[', '\n'], rows_text(m));
    lemma_all_matrix_chars_concat(seq!['[', '\n'] + rows_text(m), seq![']']);
    assert(is_ascii_chars(t));
    is_ascii_chars_encode_utf8(t);
    let s = encode_utf8(t);
    assert(text_at(s, 0, t));
    lemma_text_at_split(s, 0, seq!['[', '\n'] + rows_text(m), seq![']']);
    lemma_text_at_split(s, 0, seq!['[', '\n'], rows_text(m));
    assert(seq!['[', '\n'][0] as u8 == 0x5bu8);
    assert(seq!['[', '\n'][1] as u8 == 0x0au8);
    assert(seq![']'][0] as u8 == 0x5du8);
    assert(s[0] == 0x5bu8);
    assert(s[1] == 0x0au8);
    lemma_scan_rows(s, 2, m, w);
    assert(s[(2 + rows_text(m).len()) as int] == 0x5du8);
}

} // verus!
