//! Character-level helpers shared by the parser and the error renderer:
//! UTF-8 widths and byte offsets, character classes, and string building.
use vstd::prelude::*;
use vstd::string::StringExecFns;
use vstd::string::StringSliceAdditionalSpecFns;
use vstd::utf8::{encode_scalar, encode_utf8};

verus! {

broadcast use vstd::string::group_string_axioms;

/// Number of bytes that `c` occupies in UTF-8.
pub open spec fn utf8_width(c: char) -> nat {
    if (c as u32) < 0x80 {
        1
    } else if (c as u32) < 0x800 {
        2
    } else if (c as u32) < 0x10000 {
        3
    } else {
        4
    }
}

/// Number of bytes that the characters `cs` occupy in UTF-8.
pub open spec fn utf8_len(cs: Seq<char>) -> nat
    decreases cs.len(),
{
    if cs.len() == 0 {
        0
    } else {
        utf8_width(cs[0]) + utf8_len(cs.drop_first())
    }
}

/// Byte offset, in the UTF-8 encoding of `s`, of the character at index `p`.
pub open spec fn byte_at(s: Seq<char>, p: int) -> nat {
    utf8_len(s.take(p))
}

/// `b` is the byte offset of some character position of `s` (or of its end).
pub open spec fn is_char_offset(s: Seq<char>, b: int) -> bool {
    exists|k: int| 0 <= k <= s.len() && byte_at(s, k) == b
}

pub proof fn lemma_utf8_len_concat(a: Seq<char>, b: Seq<char>)
    ensures
        utf8_len(a + b) == utf8_len(a) + utf8_len(b),
    decreases a.len(),
{
    if a.len() == 0 {
        assert(a + b =~= b);
    } else {
        assert((a + b).drop_first() =~= a.drop_first() + b);
        lemma_utf8_len_concat(a.drop_first(), b);
    }
}

/// Moving one character forward adds that character's width.
pub proof fn lemma_byte_at_step(s: Seq<char>, p: int)
    requires
        0 <= p < s.len(),
    ensures
        byte_at(s, p + 1) == byte_at(s, p) + utf8_width(s[p]),
{
    assert(s.take(p + 1) =~= s.take(p) + seq![s[p]]);
    lemma_utf8_len_concat(s.take(p), seq![s[p]]);
    assert(seq![s[p]].drop_first() =~= Seq::<char>::empty());
    assert(utf8_len(Seq::<char>::empty()) == 0);
    assert(utf8_len(seq![s[p]]) == utf8_width(s[p]));
}

/// Byte offsets grow with character positions.
pub proof fn lemma_byte_at_mono(s: Seq<char>, p: int, q: int)
    requires
        0 <= p <= q <= s.len(),
    ensures
        byte_at(s, p) <= byte_at(s, q),
        p < q ==> byte_at(s, p) < byte_at(s, q),
    decreases q - p,
{
    if p < q {
        lemma_byte_at_mono(s, p, q - 1);
        lemma_byte_at_step(s, q - 1);
    }
}

pub proof fn lemma_byte_at_end(s: Seq<char>)
    ensures
        byte_at(s, s.len() as int) == utf8_len(s),
{
    assert(s.take(s.len() as int) =~= s);
}

/// The widths above are those of the UTF-8 encoding.
pub proof fn lemma_utf8_len_is_encoding_len(cs: Seq<char>)
    ensures
        utf8_len(cs) == encode_utf8(cs).len(),
    decreases cs.len(),
{
    if cs.len() > 0 {
        let c = cs[0];
        vstd::utf8::char_is_scalar(c);
        assert(vstd::utf8::is_scalar(c as u32));
        assert(encode_scalar(c as u32).len() == utf8_width(c));
        lemma_utf8_len_is_encoding_len(cs.drop_first());
    }
}

/// The byte length of a string slice, as a count of UTF-8 bytes of its characters.
pub proof fn lemma_str_len(s: &str)
    ensures
        s.spec_bytes().len() == utf8_len(s@),
{
    lemma_utf8_len_is_encoding_len(s@);
}

/// Unicode `White_Space` characters.
pub open spec fn is_space(c: char) -> bool {
    let u = c as u32;
    ||| 0x09 <= u <= 0x0D
    ||| u == 0x20
    ||| u == 0x85
    ||| u == 0xA0
    ||| u == 0x1680
    ||| 0x2000 <= u <= 0x200A
    ||| u == 0x2028
    ||| u == 0x2029
    ||| u == 0x202F
    ||| u == 0x205F
    ||| u == 0x3000
}

pub open spec fn is_digit(c: char) -> bool {
    '0' <= c <= '9'
}

pub open spec fn is_alpha(c: char) -> bool {
    ('a' <= c <= 'z') || ('A' <= c <= 'Z')
}

/// Characters that end a bare panel name: white space, the operators,
/// parentheses, `=`, `:` (which no panel name contains) and quotes.
pub open spec fn is_word_stop(c: char) -> bool {
    is_space(c) || c == '|' || c == '/' || c == '(' || c == ')' || c == '=' || c == ':' || c
        == '"' || c == '\''
}

pub(crate) fn is_whitespace(c: char) -> (b: bool)
    ensures
        b == is_space(c),
{
    let u = c as u32;
    (0x09 <= u && u <= 0x0D) || u == 0x20 || u == 0x85 || u == 0xA0 || u == 0x1680 || (0x2000
        <= u && u <= 0x200A) || u == 0x2028 || u == 0x2029 || u == 0x202F || u == 0x205F || u
        == 0x3000
}

pub(crate) fn is_ascii_digit(c: char) -> (b: bool)
    ensures
        b == is_digit(c),
{
    '0' <= c && c <= '9'
}

pub(crate) fn is_ascii_alphabetic(c: char) -> (b: bool)
    ensures
        b == is_alpha(c),
{
    ('a' <= c && c <= 'z') || ('A' <= c && c <= 'Z')
}

pub(crate) fn is_word_terminator(c: char) -> (b: bool)
    ensures
        b == is_word_stop(c),
{
    is_whitespace(c) || c == '|' || c == '/' || c == '(' || c == ')' || c == '=' || c == ':' || c
        == '"' || c == '\''
}

/// Number of UTF-8 bytes of `c`.
pub(crate) fn char_len_utf8(c: char) -> (n: usize)
    ensures
        n == utf8_width(c),
{
    let u = c as u32;
    if u < 0x80 {
        1
    } else if u < 0x800 {
        2
    } else if u < 0x10000 {
        3
    } else {
        4
    }
}

/// The characters of `input`, in order.
pub(crate) fn chars_of(input: &str) -> (v: Vec<char>)
    ensures
        v@ == input@,
{
    let mut v: Vec<char> = Vec::new();
    for c in it: input.chars()
        invariant
            v@ == it.seq().take(it.index() as int),
            it.seq() == input@,
    {
        v.push(c);
    }
    v
}

/// Appends `c` to `s` (std's `String::push`); claimed: the characters of
/// `s` afterwards are those before, followed by `c`.
#[verifier::external_body]
pub(crate) fn push_char(s: &mut String, c: char)
    ensures
        final(s)@ == old(s)@.push(c),
{
    s.push(c);
}

/// Appends the characters of `t` to `s`.
pub(crate) fn push_str(s: &mut String, t: &str)
    ensures
        final(s)@ == old(s)@ + t@,
{
    s.append(t);
}

/// A string holding the characters `cs[from..to]`.
pub(crate) fn string_from_chars(cs: &[char], from: usize, to: usize) -> (s: String)
    requires
        from <= to <= cs@.len(),
    ensures
        s@ == cs@.subrange(from as int, to as int),
{
    let mut s = String::new();
    let mut i = from;
    while i < to
        invariant
            from <= i <= to <= cs@.len(),
            s@ == cs@.subrange(from as int, i as int),
        decreases to - i,
    {
        push_char(&mut s, cs[i]);
        assert(cs@.subrange(from as int, i + 1) =~= cs@.subrange(from as int, i as int).push(
            cs@[i as int],
        ));
        i += 1;
    }
    s
}

/// A string holding the characters of `t`.
pub(crate) fn string_of(t: &str) -> (s: String)
    ensures
        s@ == t@,
{
    String::from_str(t)
}

} // verus!
