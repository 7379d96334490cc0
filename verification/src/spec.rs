//! The grammar of Panel Layout Notation as a function from characters to a
//! layout model or an error: what [`crate::parser::parse`] computes.
//!
//! Positions are character indices into the input; spans are byte offsets
//! into its UTF-8 encoding.
use vstd::prelude::*;

use crate::ast::{ItemModel, NodeModel, SizeModel, Span, Unit};
use crate::error::{ErrorModel, KindModel};
use crate::text::{byte_at, is_alpha, is_digit, is_space, is_word_stop, utf8_len};

verus! {

pub open spec fn peek(s: Seq<char>, p: int) -> Option<char> {
    if 0 <= p < s.len() {
        Some(s[p])
    } else {
        None
    }
}

/// The first position at or after `p` whose character does not satisfy `pred`.
pub open spec fn scan_while(s: Seq<char>, p: int, pred: spec_fn(char) -> bool) -> int
    decreases s.len() - p,
{
    if 0 <= p < s.len() && pred(s[p]) {
        scan_while(s, p + 1, pred)
    } else {
        p
    }
}

pub open spec fn skip_ws(s: Seq<char>, p: int) -> int {
    scan_while(s, p, |c: char| is_space(c))
}

pub open spec fn word_end(s: Seq<char>, p: int) -> int {
    scan_while(s, p, |c: char| !is_word_stop(c))
}

pub open spec fn digits_end(s: Seq<char>, p: int) -> int {
    scan_while(s, p, |c: char| is_digit(c))
}

pub open spec fn alpha_end(s: Seq<char>, p: int) -> int {
    scan_while(s, p, |c: char| is_alpha(c))
}

pub proof fn lemma_scan_bounds(s: Seq<char>, p: int, pred: spec_fn(char) -> bool)
    requires
        0 <= p <= s.len(),
    ensures
        p <= scan_while(s, p, pred) <= s.len(),
        forall|i: int| p <= i < scan_while(s, p, pred) ==> #[trigger] pred(s[i]),
        scan_while(s, p, pred) < s.len() ==> !pred(s[scan_while(s, p, pred)]),
    decreases s.len() - p,
{
    if p < s.len() && pred(s[p]) {
        lemma_scan_bounds(s, p + 1, pred);
    }
}

pub proof fn lemma_scan_idempotent(s: Seq<char>, p: int, pred: spec_fn(char) -> bool)
    requires
        0 <= p <= s.len(),
    ensures
        scan_while(s, scan_while(s, p, pred), pred) == scan_while(s, p, pred),
    decreases s.len() - p,
{
    if p < s.len() && pred(s[p]) {
        lemma_scan_idempotent(s, p + 1, pred);
    }
}

/// An error whose span starts at byte `b` and covers one byte (or none at the end).
pub open spec fn err_at(s: Seq<char>, b: nat, kind: KindModel, message: Seq<char>) -> ErrorModel {
    ErrorModel {
        message,
        span: Span {
            start: b as usize,
            end: (if b < utf8_len(s) {
                b + 1 as int
            } else {
                utf8_len(s) as int
            }) as usize,
        },
        kind,
    }
}

/// An error at character position `p`.
pub open spec fn err_here(s: Seq<char>, p: int, kind: KindModel, message: Seq<char>) -> ErrorModel {
    err_at(s, byte_at(s, p), kind, message)
}

pub open spec fn byte_span(s: Seq<char>, from: int, to: int) -> Span {
    Span { start: byte_at(s, from) as usize, end: byte_at(s, to) as usize }
}

pub open spec fn spec_word(s: Seq<char>, p: int) -> Result<(NodeModel, int), ErrorModel> {
    let q = word_end(s, p);
    if q == p {
        Err(err_here(s, p, KindModel::UnexpectedEof, "expected a panel name"@))
    } else {
        Ok((NodeModel::Panel { name: s.subrange(p, q) }, q))
    }
}

pub open spec fn unclosed_string(s: Seq<char>, quote: char, start: int, end: int) -> ErrorModel {
    ErrorModel {
        message: "unclosed string — expected closing "@.push(quote),
        span: byte_span(s, start, end),
        kind: KindModel::UnclosedString,
    }
}

/// The rest of a quoted name whose opening quote is at `start`, from position `i` on:
/// the name's characters and the position after the closing quote.
pub open spec fn spec_quoted_tail(s: Seq<char>, quote: char, start: int, i: int) -> Result<
    (Seq<char>, int),
    ErrorModel,
>
    decreases s.len() - i,
{
    if !(0 <= i < s.len()) {
        Err(unclosed_string(s, quote, start, i))
    } else if s[i] == '\\' {
        if i + 1 >= s.len() {
            Err(unclosed_string(s, quote, start, i + 1))
        } else {
            let c = s[i + 1];
            let unescaped = if c == quote {
                seq![c]
            } else {
                seq!['\\', c]
            };
            match spec_quoted_tail(s, quote, start, i + 2) {
                Ok((rest, q)) => Ok((unescaped + rest, q)),
                Err(e) => Err(e),
            }
        }
    } else if s[i] == quote {
        Ok((Seq::empty(), i + 1))
    } else {
        match spec_quoted_tail(s, quote, start, i + 1) {
            Ok((rest, q)) => Ok((seq![s[i]] + rest, q)),
            Err(e) => Err(e),
        }
    }
}

pub open spec fn spec_quoted(s: Seq<char>, p: int) -> Result<(NodeModel, int), ErrorModel> {
    match spec_quoted_tail(s, s[p], p, p + 1) {
        Ok((name, q)) => Ok((NodeModel::Panel { name }, q)),
        Err(e) => Err(e),
    }
}

pub open spec fn spec_panel(s: Seq<char>, p: int) -> Result<(NodeModel, int), ErrorModel> {
    let p0 = skip_ws(s, p);
    match peek(s, p0) {
        Some(c) => if c == '"' || c == '\'' {
            spec_quoted(s, p0)
        } else {
            spec_word(s, p0)
        },
        None => Err(err_here(s, p0, KindModel::UnexpectedEof, "expected a panel name"@)),
    }
}

/// The end of the longest run of digits, optionally followed by `.` and more digits, from `p`.
pub open spec fn number_end(s: Seq<char>, p: int) -> int {
    let q1 = digits_end(s, p);
    if peek(s, q1) == Some('.') {
        digits_end(s, q1 + 1)
    } else {
        q1
    }
}

/// A number: digits, optionally followed by `.` and more digits.
pub open spec fn spec_number(s: Seq<char>, p: int) -> Result<(Seq<char>, int), ErrorModel> {
    let q2 = number_end(s, p);
    if q2 == p {
        Err(err_here(s, p, KindModel::InvalidNumber, "expected a number"@))
    } else if q2 == p + 1 && s[p] == '.' {
        Err(err_here(s, p, KindModel::InvalidNumber, "invalid number"@))
    } else {
        Ok((s.subrange(p, q2), q2))
    }
}

/// A unit right after a number; `value_byte` is the byte offset where the number starts.
pub open spec fn spec_unit(s: Seq<char>, p: int, value_byte: nat) -> Result<(Unit, int), ErrorModel> {
    if peek(s, p) == Some('%') {
        Ok((Unit::Percent, p + 1))
    } else {
        let q = alpha_end(s, p);
        let u = s.subrange(p, q);
        if u == seq!['f', 'r'] {
            Ok((Unit::Fr, q))
        } else if u == seq!['c', 'o', 'l'] {
            Ok((Unit::Col, q))
        } else if u == seq!['r', 'o', 'w'] {
            Ok((Unit::Row, q))
        } else if u == seq!['p', 'x'] {
            Ok((Unit::Px, q))
        } else if u.len() == 0 {
            Err(
                ErrorModel {
                    message: "size value requires a unit (fr, col, row, px, %)"@,
                    span: Span { start: value_byte as usize, end: byte_at(s, q) as usize },
                    kind: KindModel::InvalidUnit(Seq::empty()),
                },
            )
        } else {
            Err(
                ErrorModel {
                    message: "unknown unit '"@ + u + "' — expected fr, col, row, px, or %"@,
                    span: byte_span(s, p, q),
                    kind: KindModel::InvalidUnit(u),
                },
            )
        }
    }
}

/// An optional `= number unit` annotation.
pub open spec fn spec_try_size(s: Seq<char>, p: int) -> Result<(Option<SizeModel>, int), ErrorModel> {
    let p0 = skip_ws(s, p);
    if peek(s, p0) != Some('=') {
        Ok((None, p0))
    } else {
        let p1 = skip_ws(s, p0 + 1);
        match spec_number(s, p1) {
            Err(e) => Err(e),
            Ok((value, q)) => match spec_unit(s, q, byte_at(s, p1)) {
                Err(e) => Err(e),
                Ok((unit, q2)) => Ok((Some(SizeModel { value, unit }), q2)),
            },
        }
    }
}

pub open spec fn unclosed_group(s: Seq<char>, group_byte: nat, p: int) -> ErrorModel {
    ErrorModel {
        message: "unclosed group — expected ')'"@,
        span: Span { start: group_byte as usize, end: byte_at(s, p) as usize },
        kind: KindModel::UnclosedGroup,
    }
}

pub open spec fn mixed_message(op: char) -> Seq<char> {
    if op == '|' {
        "mixed operators — group uses '|' but found '/'"@
    } else {
        "mixed operators — group uses '/' but found '|'"@
    }
}

/// An item: a panel or a parenthesized group, with an optional size.
pub open spec fn spec_item(s: Seq<char>, p: int) -> Result<(ItemModel, int), ErrorModel>
    decreases s.len() - p, 1int,
{
    let p0 = skip_ws(s, p);
    match peek(s, p0) {
        None => Err(err_here(s, p0, KindModel::UnexpectedEof, "expected a panel or group"@)),
        Some(c) => if c == '(' {
            let p1 = skip_ws(s, p0 + 1);
            proof {
                if 0 <= p <= s.len() {
                    lemma_scan_bounds(s, p, |c: char| is_space(c));
                }
                lemma_scan_bounds(s, p0 + 1, |c: char| is_space(c));
            }
            match spec_group(s, p0, p1) {
                Err(e) => Err(e),
                Ok((g, q)) => match spec_try_size(s, q) {
                    Err(e) => Err(e),
                    Ok((outer, q2)) => Ok(
                        (
                            ItemModel {
                                node: g.node,
                                size: if outer is Some {
                                    outer
                                } else {
                                    g.size
                                },
                                span: byte_span(s, p0, q2),
                            },
                            q2,
                        ),
                    ),
                },
            }
        } else {
            match spec_panel(s, p0) {
                Err(e) => Err(e),
                Ok((node, q)) => match spec_try_size(s, q) {
                    Err(e) => Err(e),
                    Ok((size, q2)) => Ok((ItemModel { node, size, span: byte_span(s, p0, q2) }, q2)),
                },
            }
        },
    }
}

/// A group whose `(` is at `g`; `p` is the first non-space position after it.
pub open spec fn spec_group(s: Seq<char>, g: int, p: int) -> Result<(ItemModel, int), ErrorModel>
    decreases s.len() - p, 2int,
{
    if peek(s, p) == Some(')') {
        Err(
            ErrorModel {
                message: "empty group"@,
                span: Span { start: byte_at(s, g) as usize, end: (byte_at(s, p) + 1) as usize },
                kind: KindModel::EmptyGroup,
            },
        )
    } else {
        match spec_item(s, p) {
            Err(e) => Err(e),
            Ok((first, q)) => {
                let q1 = skip_ws(s, q);
                if !(p <= q1 <= s.len()) {
                    // positions never move backwards (see `lemma_item_advances`)
                    arbitrary()
                } else {
                    match peek(s, q1) {
                        None => Err(unclosed_group(s, byte_at(s, g), q1)),
                        Some(c) => if c == ')' {
                            Ok((first, q1 + 1))
                        } else if c == '|' || c == '/' {
                            match spec_split_tail(s, c, byte_at(s, g), first, q1) {
                                Err(e) => Err(e),
                                Ok((node, r)) => Ok(
                                    (ItemModel { node, size: None, span: Span {
                                        start: byte_at(s, g) as usize,
                                        end: byte_at(s, r) as usize,
                                    } }, r),
                                ),
                            }
                        } else {
                            Err(
                                err_here(
                                    s,
                                    q1,
                                    KindModel::UnexpectedChar(c),
                                    "expected '|', '/', or ')'"@,
                                ),
                            )
                        },
                    }
                }
            },
        }
    }
}

/// The rest of a split whose first item is `first` and whose operator `op`
/// is at `p`: the split node and the position after its `)`.
pub open spec fn spec_split_tail(
    s: Seq<char>,
    op: char,
    group_byte: nat,
    first: ItemModel,
    p: int,
) -> Result<(NodeModel, int), ErrorModel>
    decreases s.len() - p, 1int,
{
    match spec_children(s, op, p) {
        Err(e) => Err(e),
        Ok((rest, r)) => {
            let r1 = skip_ws(s, r);
            let other = if op == '|' {
                '/'
            } else {
                '|'
            };
            match peek(s, r1) {
                None => Err(unclosed_group(s, group_byte, r1)),
                Some(c) => if c == other {
                    Err(err_here(s, r1, KindModel::MixedOperators, mixed_message(op)))
                } else if c == ')' {
                    let children = seq![first] + rest;
                    Ok(
                        (
                            if op == '|' {
                                NodeModel::HSplit { children }
                            } else {
                                NodeModel::VSplit { children }
                            },
                            r1 + 1,
                        ),
                    )
                } else {
                    Err(err_here(s, r1, KindModel::UnexpectedChar(c), "expected operator or ')'"@))
                },
            }
        },
    }
}

/// The items that follow `op` from position `p` on, each one preceded by `op`.
pub open spec fn spec_children(s: Seq<char>, op: char, p: int) -> Result<
    (Seq<ItemModel>, int),
    ErrorModel,
>
    decreases s.len() - p, 0int,
{
    if peek(s, p) == Some(op) {
        match spec_item(s, p + 1) {
            Err(e) => Err(e),
            Ok((c, q)) => {
                let q1 = skip_ws(s, q);
                if !(p < q1 <= s.len()) {
                    // positions never move backwards (see `lemma_item_advances`)
                    arbitrary()
                } else {
                    match spec_children(s, op, q1) {
                        Err(e) => Err(e),
                        Ok((cs, r)) => Ok((seq![c] + cs, r)),
                    }
                }
            },
        }
    } else {
        Ok((Seq::empty(), p))
    }
}

/// A whole layout: one item, then nothing but white space.
pub open spec fn spec_parse(s: Seq<char>) -> Result<ItemModel, ErrorModel> {
    match spec_item(s, 0) {
        Err(e) => Err(e),
        Ok((it, q)) => {
            let q1 = skip_ws(s, q);
            if q1 < s.len() {
                Err(err_here(s, q1, KindModel::TrailingInput, "unexpected input after layout"@))
            } else {
                Ok(it)
            }
        },
    }
}

} // verus!
