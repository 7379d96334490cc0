//! Parse and validation errors, and their rendering against the source.
use vstd::prelude::*;

use crate::ast::Span;
use vstd::string::StrSliceExecFns;
use crate::text::{
    byte_at, char_len_utf8, chars_of, is_char_offset, lemma_byte_at_mono,
    lemma_byte_at_step, lemma_str_len, push_char, push_str, string_of, utf8_len, };

verus! {

/// A parse or validation error with source location.
#[derive(Debug, Clone)]
pub struct ParseError {
    pub message: String,
    pub span: Span,
    pub kind: ErrorKind,
}

#[derive(Debug, Clone, PartialEq, Eq)]
pub enum ErrorKind {
    UnexpectedChar(char),
    UnexpectedEof,
    MixedOperators,
    UnclosedGroup,
    UnclosedString,
    InvalidUnit(String),
    InvalidNumber,
    EmptyGroup,
    TrailingInput,
    InvalidUnitForSplit { unit: String, split: String },
}

/// Model of an [`ErrorKind`].
pub enum KindModel {
    UnexpectedChar(char),
    UnexpectedEof,
    MixedOperators,
    UnclosedGroup,
    UnclosedString,
    InvalidUnit(Seq<char>),
    InvalidNumber,
    EmptyGroup,
    TrailingInput,
    InvalidUnitForSplit { unit: Seq<char>, split: Seq<char> },
}

/// Model of a [`ParseError`].
pub struct ErrorModel {
    pub message: Seq<char>,
    pub span: Span,
    pub kind: KindModel,
}

impl View for ErrorKind {
    type V = KindModel;

    open spec fn view(&self) -> KindModel {
        match self {
            ErrorKind::UnexpectedChar(c) => KindModel::UnexpectedChar(*c),
            ErrorKind::UnexpectedEof => KindModel::UnexpectedEof,
            ErrorKind::MixedOperators => KindModel::MixedOperators,
            ErrorKind::UnclosedGroup => KindModel::UnclosedGroup,
            ErrorKind::UnclosedString => KindModel::UnclosedString,
            ErrorKind::InvalidUnit(u) => KindModel::InvalidUnit(u@),
            ErrorKind::InvalidNumber => KindModel::InvalidNumber,
            ErrorKind::EmptyGroup => KindModel::EmptyGroup,
            ErrorKind::TrailingInput => KindModel::TrailingInput,
            ErrorKind::InvalidUnitForSplit { unit, split } => KindModel::InvalidUnitForSplit {
                unit: unit@,
                split: split@,
            },
        }
    }
}

impl View for ParseError {
    type V = ErrorModel;

    open spec fn view(&self) -> ErrorModel {
        ErrorModel { message: self.message@, span: self.span, kind: self.kind@ }
    }
}


/// Number of `'\n'` characters in `cs`.
pub open spec fn count_newlines(cs: Seq<char>) -> nat
    decreases cs.len(),
{
    if cs.len() == 0 {
        0
    } else {
        count_newlines(cs.drop_last()) + if cs.last() == '\n' {
            1nat
        } else {
            0nat
        }
    }
}

/// Index of the last `'\n'` among the first `k` characters of `s`, or -1.
pub open spec fn last_newline(s: Seq<char>, k: int) -> int
    decreases k,
{
    if k <= 0 {
        -1
    } else if s[k - 1] == '\n' {
        k - 1
    } else {
        last_newline(s, k - 1)
    }
}

/// The character index at which byte offset `b` of `s` falls.
pub open spec fn char_index(s: Seq<char>, b: int) -> int {
    choose|k: int| 0 <= k <= s.len() && byte_at(s, k) == b
}

pub open spec fn min(a: int, b: int) -> int {
    if a < b {
        a
    } else {
        b
    }
}

/// The 1-based line of byte `offset` (clamped to the end of `s`), and its
/// column: the byte distance from the preceding newline, or `offset + 1`
/// on the first line.
pub open spec fn spec_position(s: Seq<char>, offset: nat) -> (nat, int) {
    let k = char_index(s, min(offset as int, utf8_len(s) as int));
    let j = last_newline(s, k);
    (
        count_newlines(s.take(k)) + 1,
        if j >= 0 {
            offset - byte_at(s, j)
        } else {
            offset + 1int
        },
    )
}

/// [`byte_offset_to_position`] is defined at `offset`: the clamped offset
/// starts a character, and the line and column fit in a `usize`.
pub open spec fn position_defined(s: Seq<char>, offset: nat) -> bool {
    let b = min(offset as int, utf8_len(s) as int);
    &&& is_char_offset(s, b)
    &&& count_newlines(s.take(char_index(s, b))) < usize::MAX
    &&& last_newline(s, char_index(s, b)) < 0 ==> offset < usize::MAX
}

/// The index at which the line after the `n`-th newline of `s` starts, if there is one.
pub open spec fn line_start(s: Seq<char>, n: nat) -> Option<int>
    decreases n,
{
    if n == 0 {
        Some(0)
    } else {
        match line_start(s, (n - 1) as nat) {
            Some(i) => {
                let j = next_newline(s, i);
                if j < s.len() {
                    Some(j + 1)
                } else {
                    None
                }
            },
            None => None,
        }
    }
}

/// The index of the first `'\n'` at or after `i`, or the length of `s`.
pub open spec fn next_newline(s: Seq<char>, i: int) -> int
    decreases s.len() - i,
{
    if 0 <= i < s.len() && s[i] != '\n' {
        next_newline(s, i + 1)
    } else {
        i
    }
}

/// Line `n` (0-based) of `s`, as `str::lines` yields it: without its `"\n"`
/// or `"\r\n"` terminator; empty when `s` has no such line.
pub open spec fn nth_line(s: Seq<char>, n: nat) -> Seq<char> {
    match line_start(s, n) {
        Some(i) => {
            let e = next_newline(s, i);
            if e < s.len() && e > i && s[e - 1] == '\r' {
                s.subrange(i, e - 1)
            } else {
                s.subrange(i, e)
            }
        },
        None => Seq::empty(),
    }
}

pub open spec fn digit_char(d: nat) -> char {
    seq!['0', '1', '2', '3', '4', '5', '6', '7', '8', '9'][d as int]
}

/// The decimal digits of `n`.
pub open spec fn decimal(n: nat) -> Seq<char>
    decreases n,
{
    if n < 10 {
        seq![digit_char(n)]
    } else {
        decimal(n / 10).push(digit_char(n % 10))
    }
}

/// The number a string of decimal digits stands for, read left to right.
pub open spec fn digits_value(s: Seq<char>) -> int
    decreases s.len(),
{
    if s.len() == 0 {
        0
    } else {
        digits_value(s.drop_last()) * 10 + (s.last() as int - '0' as int)
    }
}

proof fn lemma_digit_char(d: nat)
    requires
        d < 10,
    ensures
        digit_char(d) as int == '0' as int + d,
{
    let ds = seq!['0', '1', '2', '3', '4', '5', '6', '7', '8', '9'];
    if d == 0 {
        assert(ds[0] == '0');
    } else if d == 1 {
        assert(ds[1] == '1');
    } else if d == 2 {
        assert(ds[2] == '2');
    } else if d == 3 {
        assert(ds[3] == '3');
    } else if d == 4 {
        assert(ds[4] == '4');
    } else if d == 5 {
        assert(ds[5] == '5');
    } else if d == 6 {
        assert(ds[6] == '6');
    } else if d == 7 {
        assert(ds[7] == '7');
    } else if d == 8 {
        assert(ds[8] == '8');
    } else {
        assert(ds[9] == '9');
    }
}

/// The numerals in a report are base 10, most significant digit first: the
/// digits of `decimal(n)` are ASCII digits, read left to right they make `n`,
/// and the first is `0` only for `n == 0` itself.
pub proof fn law_decimal_numeral(n: nat)
    ensures
        decimal(n).len() > 0,
        forall|i: int| 0 <= i < decimal(n).len() ==> '0' <= #[trigger] decimal(n)[i] <= '9',
        digits_value(decimal(n)) == n,
        n > 0 ==> decimal(n)[0] != '0',
    decreases n,
{
    if n < 10 {
        lemma_digit_char(n);
        let d = decimal(n);
        assert(d.drop_last() =~= Seq::<char>::empty());
        assert(digits_value(d.drop_last()) == 0);
    } else {
        let m = n / 10;
        let r = n % 10;
        law_decimal_numeral(m);
        lemma_digit_char(r);
        let head = decimal(m);
        let d = decimal(n);
        assert(d == head.push(digit_char(r)));
        assert(d.drop_last() =~= head);
        assert(d[0] == head[0]);
        assert forall|i: int| 0 <= i < d.len() implies '0' <= #[trigger] d[i] <= '9' by {
            if i < head.len() {
                assert(d[i] == head[i]);
            }
        }
        assert(n == m * 10 + r) by (nonlinear_arith)
            requires
                m == n / 10,
                r == n % 10,
        ;
    }
}

pub open spec fn repeat(c: char, n: nat) -> Seq<char> {
    Seq::new(n, |_i: int| c)
}

/// `digits` right-aligned in a field of width 3.
pub open spec fn right_align3(digits: Seq<char>) -> Seq<char> {
    if digits.len() < 3 {
        repeat(' ', (3 - digits.len()) as nat) + digits
    } else {
        digits
    }
}

/// The report of an error with `message` and `span` against the source `s`:
/// the message, the line and column, the source line, and a caret line under the span.
pub open spec fn spec_format(message: Seq<char>, span: Span, s: Seq<char>) -> Seq<char> {
    let (line, column) = spec_position(s, span.start as nat);
    let j = last_newline(s, char_index(s, span.start as int));
    let line_start_byte = if j >= 0 {
        byte_at(s, j) + 1
    } else {
        0
    };
    let offset_in_line = span.start - line_start_byte;
    let caret_len = if span.end - span.start > 1 {
        span.end - span.start
    } else {
        1
    };
    "error: "@ + message + "\n"@ + "  --> input:"@ + decimal(line) + ":"@ + decimal(column as nat)
        + "\n"@ + "   |\n"@ + right_align3(decimal(line)) + " | "@ + nth_line(s, (line - 1) as nat)
        + "\n"@ + "   | "@ + repeat(' ', offset_in_line as nat) + repeat('^', caret_len as nat)
        + "\n"@
}

pub proof fn lemma_char_index(s: Seq<char>, b: int)
    requires
        is_char_offset(s, b),
    ensures
        0 <= char_index(s, b) <= s.len(),
        byte_at(s, char_index(s, b)) == b,
        forall|k: int| 0 <= k <= s.len() && byte_at(s, k) == b ==> k == char_index(s, b),
{
    let k0 = char_index(s, b);
    assert forall|k: int| 0 <= k <= s.len() && byte_at(s, k) == b implies k == k0 by {
        if k < k0 {
            lemma_byte_at_mono(s, k, k0);
        } else if k > k0 {
            lemma_byte_at_mono(s, k0, k);
        }
    }
}

proof fn lemma_count_newlines_step(s: Seq<char>, k: int)
    requires
        0 <= k < s.len(),
    ensures
        count_newlines(s.take(k + 1)) == count_newlines(s.take(k)) + if s[k] == '\n' {
            1nat
        } else {
            0nat
        },
        count_newlines(s.take(k)) <= k,
    decreases k,
{
    assert(s.take(k + 1).drop_last() =~= s.take(k));
    if k > 0 {
        lemma_count_newlines_step(s, k - 1);
    } else {
        assert(s.take(0) =~= Seq::<char>::empty());
    }
}

pub proof fn lemma_count_newlines_bound(s: Seq<char>, k: int)
    requires
        0 <= k <= s.len(),
    ensures
        count_newlines(s.take(k)) <= k,
{
    if k < s.len() {
        lemma_count_newlines_step(s, k);
    } else if k > 0 {
        lemma_count_newlines_step(s, k - 1);
    } else {
        assert(s.take(0) =~= Seq::<char>::empty());
    }
}

proof fn lemma_last_newline_bounds(s: Seq<char>, k: int)
    requires
        0 <= k <= s.len(),
    ensures
        -1 <= last_newline(s, k) < k,
        last_newline(s, k) >= 0 ==> s[last_newline(s, k)] == '\n',
    decreases k,
{
    if k > 0 && s[k - 1] != '\n' {
        lemma_last_newline_bounds(s, k - 1);
    }
}

/// Walks `chars` up to the character at byte offset `target`: its index, the
/// number of newlines before it, and the byte offset of the last one.
fn scan_to(chars: &Vec<char>, target: usize) -> (r: (usize, usize, Option<usize>))
    requires
        is_char_offset(chars@, target as int),
        count_newlines(chars@.take(char_index(chars@, target as int))) < usize::MAX,
    ensures
        r.0 == char_index(chars@, target as int),
        r.1 == count_newlines(chars@.take(r.0 as int)),
        match r.2 {
            Some(b) => last_newline(chars@, r.0 as int) >= 0 && b == byte_at(
                chars@,
                last_newline(chars@, r.0 as int),
            ),
            None => last_newline(chars@, r.0 as int) < 0,
        },
{
    let ghost s = chars@;
    let ghost kt = char_index(s, target as int);
    proof {
        lemma_char_index(s, target as int);
        assert(s.take(0) =~= Seq::<char>::empty());
    }
    let n = chars.len();
    let mut k: usize = 0;
    let mut b: usize = 0;
    let mut newlines: usize = 0;
    let mut last: Option<usize> = None;
    while b < target
        invariant
            s == chars@,
            n == s.len(),
            kt == char_index(s, target as int),
            0 <= kt <= s.len(),
            byte_at(s, kt) == target,
            count_newlines(s.take(kt)) < usize::MAX,
            k <= kt,
            b == byte_at(s, k as int),
            newlines == count_newlines(s.take(k as int)),
            match last {
                Some(lb) => last_newline(s, k as int) >= 0 && lb == byte_at(
                    s,
                    last_newline(s, k as int),
                ),
                None => last_newline(s, k as int) < 0,
            },
        decreases target - b,
    {
        proof {
            if k as int == kt {
                assert(false);
            }
            lemma_byte_at_step(s, k as int);
            lemma_byte_at_mono(s, k + 1, kt);
            lemma_count_newlines_step(s, k as int);
            lemma_count_newlines_mono(s, k + 1, kt);
        }
        let c = chars[k];
        if c == '\n' {
            newlines = newlines + 1;
            last = Some(b);
        }
        b = b + char_len_utf8(c);
        k = k + 1;
    }
    proof {
        if (k as int) < kt {
            lemma_byte_at_mono(s, k as int, kt);
        }
    }
    (k, newlines, last)
}

proof fn lemma_count_newlines_mono(s: Seq<char>, i: int, j: int)
    requires
        0 <= i <= j <= s.len(),
    ensures
        count_newlines(s.take(i)) <= count_newlines(s.take(j)),
    decreases j - i,
{
    if i < j {
        lemma_count_newlines_mono(s, i, j - 1);
        lemma_count_newlines_step(s, j - 1);
    }
}

/// The 1-based line and column of byte `offset` in `source` (see [`spec_position`]).
pub fn byte_offset_to_position(source: &str, offset: usize) -> (r: (usize, usize))
    requires
        position_defined(source@, offset as nat),
    ensures
        r.0 == spec_position(source@, offset as nat).0,
        r.1 == spec_position(source@, offset as nat).1,
{
    let chars = chars_of(source);
    let len = source.as_bytes().len();
    proof {
        lemma_str_len(source);
    }
    let clamped = if offset < len {
        offset
    } else {
        len
    };
    let (k, newlines, last) = scan_to(&chars, clamped);
    let column = match last {
        Some(position) => {
            proof {
                let j = last_newline(chars@, k as int);
                lemma_char_index(chars@, clamped as int);
                lemma_last_newline_bounds(chars@, k as int);
                lemma_byte_at_mono(chars@, j, k as int);
            }
            offset - position
        },
        None => offset + 1,
    };
    (newlines + 1, column)
}

fn digit(d: usize) -> (c: char)
    requires
        d < 10,
    ensures
        c == digit_char(d as nat),
{
    if d == 0 {
        '0'
    } else if d == 1 {
        '1'
    } else if d == 2 {
        '2'
    } else if d == 3 {
        '3'
    } else if d == 4 {
        '4'
    } else if d == 5 {
        '5'
    } else if d == 6 {
        '6'
    } else if d == 7 {
        '7'
    } else if d == 8 {
        '8'
    } else {
        '9'
    }
}

/// Appends the decimal digits of `n`.
fn push_decimal(out: &mut String, n: usize)
    ensures
        final(out)@ == old(out)@ + decimal(n as nat),
    decreases n,
{
    if n >= 10 {
        push_decimal(out, n / 10);
    }
    push_char(out, digit(n % 10));
    proof {
        if n >= 10 {
            assert(old(out)@ + decimal(n as nat) =~= old(out)@ + decimal((n / 10) as nat) + seq![
                digit_char((n % 10) as nat),
            ]);
        } else {
            assert(old(out)@ + decimal(n as nat) =~= old(out)@.push(digit_char((n % 10) as nat)));
        }
    }
}

/// Appends `n` copies of `c`.
fn push_repeated(out: &mut String, c: char, n: usize)
    ensures
        final(out)@ == old(out)@ + repeat(c, n as nat),
{
    let mut i: usize = 0;
    while i < n
        invariant
            i <= n,
            out@ == old(out)@ + repeat(c, i as nat),
        decreases n - i,
    {
        push_char(out, c);
        i += 1;
        assert(out@ =~= old(out)@ + repeat(c, i as nat));
    }
}

/// The index of the first `'\n'` at or after `i`, or the length of `chars`.
fn find_newline(chars: &Vec<char>, i: usize) -> (j: usize)
    requires
        i <= chars@.len(),
    ensures
        j == next_newline(chars@, i as int),
        i <= j <= chars@.len(),
{
    let mut j = i;
    while j < chars.len() && chars[j] != '\n'
        invariant
            i <= j <= chars@.len(),
            next_newline(chars@, i as int) == next_newline(chars@, j as int),
        decreases chars@.len() - j,
    {
        j += 1;
    }
    j
}

/// Line `n` of `chars`, as `str::lines().nth(n)` gives it, or empty.
fn nth_line_of(chars: &Vec<char>, n: usize) -> (line: String)
    ensures
        line@ == nth_line(chars@, n as nat),
{
    let mut start: usize = 0;
    let mut m: usize = 0;
    while m < n
        invariant
            m <= n,
            start <= chars@.len(),
            line_start(chars@, m as nat) == Some(start as int),
        decreases n - m,
    {
        let j = find_newline(chars, start);
        if j >= chars.len() {
            proof {
                lemma_line_start_none(chars@, (m + 1) as nat, n as nat);
            }
            return String::new();
        }
        start = j + 1;
        m += 1;
    }
    let e = find_newline(chars, start);
    if e < chars.len() && e > start && chars[e - 1] == '\r' {
        crate::text::string_from_chars(chars.as_slice(), start, e - 1)
    } else {
        crate::text::string_from_chars(chars.as_slice(), start, e)
    }
}

proof fn lemma_line_start_none(s: Seq<char>, m: nat, n: nat)
    requires
        m <= n,
        line_start(s, m) is None,
    ensures
        line_start(s, n) is None,
    decreases n - m,
{
    if m < n {
        lemma_line_start_none(s, m + 1, n);
    }
}

impl ParseError {
    /// The error report against `source`: the message, the line and column
    /// of the span's start, the source line, and carets under the span.
    pub fn format_with_source(&self, source: &str) -> (output: String)
        requires
            position_defined(source@, self.span.start as nat),
            self.span.start <= utf8_len(source@),
            self.span.start <= self.span.end,
        ensures
            output@ == spec_format(self.message@, self.span, source@),
    {
        let (line, column) = byte_offset_to_position(source, self.span.start);
        let chars = chars_of(source);
        let source_line = nth_line_of(&chars, line - 1);
        let mut output = string_of("error: ");
        push_str(&mut output, self.message.as_str());
        push_str(&mut output, "\n");
        push_str(&mut output, "  --> input:");
        push_decimal(&mut output, line);
        push_str(&mut output, ":");
        push_decimal(&mut output, column);
        push_str(&mut output, "\n");
        push_str(&mut output, "   |\n");
        let mut line_digits = String::new();
        push_decimal(&mut line_digits, line);
        let width = line_digits.as_str().unicode_len();
        if width < 3 {
            push_repeated(&mut output, ' ', 3 - width);
        }
        push_str(&mut output, line_digits.as_str());
        push_str(&mut output, " | ");
        push_str(&mut output, source_line.as_str());
        push_str(&mut output, "\n");
        push_str(&mut output, "   | ");
        // Caret pointing at the error position
        let (k, _newlines, last) = scan_to(&chars, self.span.start);
        proof {
            lemma_char_index(chars@, self.span.start as int);
            lemma_last_newline_bounds(chars@, k as int);
            let j = last_newline(chars@, k as int);
            if j >= 0 {
                lemma_byte_at_step(chars@, j);
                lemma_byte_at_mono(chars@, j + 1, k as int);
            }
        }
        let line_start = match last {
            Some(position) => position + 1,
            None => 0,
        };
        let offset_in_line = self.span.start - line_start;
        push_repeated(&mut output, ' ', offset_in_line);
        let caret_len = if self.span.end - self.span.start > 1 {
            self.span.end - self.span.start
        } else {
            1
        };
        push_repeated(&mut output, '^', caret_len);
        push_str(&mut output, "\n");
        output
    }
}
} // verus!
