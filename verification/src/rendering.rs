//! Every error that parsing and validation report points into their input:
//! its span starts at a character of the input and ends in it, so it can be
//! rendered against that input with `ParseError::format_with_source`.
use vstd::prelude::*;

use crate::ast::{ItemModel, NodeModel, Span};
use crate::error::{char_index, lemma_char_index, position_defined, ErrorModel, KindModel};
use crate::spec::{
    digits_end, err_here, lemma_scan_bounds, peek, skip_ws, spec_children, spec_group,
    spec_item, spec_number, spec_panel, spec_quoted_tail, spec_split_tail,
    spec_try_size, };
use crate::spec_parse_and_validate;
use crate::structure::{
    lemma_bytes, lemma_children_advances, lemma_group_advances, lemma_item_advances,
    lemma_panel_advances, lemma_skip_ws, lemma_try_size_advances,
};
use crate::text::{byte_at, is_char_offset, is_digit, is_space, utf8_len};
use crate::validate::{spec_validate_children, spec_validate_node};

verus! {

/// `span` starts at a character of `s` and ends after its start, inside `s`.
pub open spec fn anchored(span: Span, s: Seq<char>) -> bool {
    &&& is_char_offset(s, span.start as int)
    &&& span.start <= span.end <= utf8_len(s)
}

/// Every span in the tree `it` is anchored in `s`.
pub open spec fn tree_anchored(it: ItemModel, s: Seq<char>) -> bool
    decreases it,
{
    &&& anchored(it.span, s)
    &&& match it.node {
        NodeModel::Panel { .. } => true,
        NodeModel::HSplit { children } => forall|i: int|
            0 <= i < children.len() ==> tree_anchored(#[trigger] children[i], s),
        NodeModel::VSplit { children } => forall|i: int|
            0 <= i < children.len() ==> tree_anchored(#[trigger] children[i], s),
    }
}

/// A result whose error, if any, is anchored in `s`.
pub open spec fn err_anchored<T>(r: Result<T, ErrorModel>, s: Seq<char>) -> bool {
    r matches Err(e) ==> anchored(e.span, s)
}

proof fn lemma_span_anchored(s: Seq<char>, p: int, q: int)
    requires
        0 <= p <= q <= s.len(),
        utf8_len(s) <= usize::MAX,
    ensures
        anchored(Span { start: byte_at(s, p) as usize, end: byte_at(s, q) as usize }, s),
{
    lemma_bytes(s, p, q);
}

proof fn lemma_err_here_anchored(s: Seq<char>, p: int, kind: KindModel, message: Seq<char>)
    requires
        0 <= p <= s.len(),
        utf8_len(s) <= usize::MAX,
    ensures
        anchored(err_here(s, p, kind, message).span, s),
{
    lemma_bytes(s, p, s.len() as int);
    crate::text::lemma_byte_at_end(s);
}

proof fn lemma_quoted_tail_anchored(s: Seq<char>, quote: char, start: int, i: int)
    requires
        0 <= start < i <= s.len(),
        utf8_len(s) <= usize::MAX,
    ensures
        err_anchored(spec_quoted_tail(s, quote, start, i), s),
    decreases s.len() - i,
{
    if i < s.len() {
        if s[i] == '\\' {
            if i + 1 >= s.len() {
                lemma_span_anchored(s, start, i + 1);
            } else {
                lemma_quoted_tail_anchored(s, quote, start, i + 2);
            }
        } else if s[i] != quote {
            lemma_quoted_tail_anchored(s, quote, start, i + 1);
        }
    } else {
        lemma_span_anchored(s, start, i);
    }
}

proof fn lemma_panel_anchored(s: Seq<char>, p: int)
    requires
        0 <= p <= s.len(),
        utf8_len(s) <= usize::MAX,
    ensures
        err_anchored(spec_panel(s, p), s),
{
    lemma_skip_ws(s, p);
    let p0 = skip_ws(s, p);
    lemma_err_here_anchored(s, p0, KindModel::UnexpectedEof, "expected a panel name"@);
    if p0 < s.len() {
        lemma_quoted_tail_anchored(s, s[p0], p0, p0 + 1);
    }
}

proof fn lemma_try_size_anchored(s: Seq<char>, p: int)
    requires
        0 <= p <= s.len(),
        utf8_len(s) <= usize::MAX,
    ensures
        err_anchored(spec_try_size(s, p), s),
{
    lemma_skip_ws(s, p);
    let p0 = skip_ws(s, p);
    if peek(s, p0) == Some('=') {
        lemma_skip_ws(s, p0 + 1);
        let p1 = skip_ws(s, p0 + 1);
        lemma_err_here_anchored(s, p1, KindModel::InvalidNumber, "expected a number"@);
        lemma_err_here_anchored(s, p1, KindModel::InvalidNumber, "invalid number"@);
        lemma_scan_bounds(s, p1, |c: char| is_digit(c));
        let q1 = digits_end(s, p1);
        if peek(s, q1) == Some('.') {
            lemma_scan_bounds(s, q1 + 1, |c: char| is_digit(c));
        }
        if let Ok((value, q)) = spec_number(s, p1) {
            lemma_scan_bounds(s, q, |c: char| crate::text::is_alpha(c));
            let e = crate::spec::alpha_end(s, q);
            lemma_span_anchored(s, p1, e);
            lemma_span_anchored(s, q, e);
        }
    }
}

/// Errors of an item are anchored, and so is a successful item's tree.
pub proof fn lemma_item_anchored(s: Seq<char>, p: int)
    requires
        0 <= p <= s.len(),
        utf8_len(s) <= usize::MAX,
    ensures
        err_anchored(spec_item(s, p), s),
        spec_item(s, p) matches Ok((it, _)) ==> tree_anchored(it, s),
    decreases s.len() - p, 1int,
{
    lemma_skip_ws(s, p);
    let p0 = skip_ws(s, p);
    lemma_err_here_anchored(s, p0, KindModel::UnexpectedEof, "expected a panel or group"@);
    if p0 < s.len() {
        if s[p0] == '(' {
            lemma_skip_ws(s, p0 + 1);
            let p1 = skip_ws(s, p0 + 1);
            lemma_group_anchored(s, p0, p1);
            lemma_group_advances(s, p0, p1);
            if let Ok((g, q)) = spec_group(s, p0, p1) {
                lemma_try_size_anchored(s, q);
                lemma_try_size_advances(s, q);
                if let Ok((outer, q2)) = spec_try_size(s, q) {
                    lemma_span_anchored(s, p0, q2);
                }
            }
        } else {
            crate::spec::lemma_scan_idempotent(s, p, |c: char| is_space(c));
            lemma_panel_anchored(s, p0);
            lemma_panel_advances(s, p0);
            if let Ok((node, q)) = spec_panel(s, p0) {
                lemma_try_size_anchored(s, q);
                lemma_try_size_advances(s, q);
                if let Ok((size, q2)) = spec_try_size(s, q) {
                    lemma_span_anchored(s, p0, q2);
                }
            }
        }
    }
}

proof fn lemma_group_anchored(s: Seq<char>, g: int, p: int)
    requires
        0 <= g < p <= s.len(),
        utf8_len(s) <= usize::MAX,
    ensures
        err_anchored(spec_group(s, g, p), s),
        spec_group(s, g, p) matches Ok((it, _)) ==> tree_anchored(it, s),
    decreases s.len() - p, 2int,
{
    lemma_bytes(s, g, p);
    if peek(s, p) == Some(')') {
        lemma_bytes(s, p, s.len() as int);
        lemma_bytes(s, p, p + 1);
        crate::text::lemma_byte_at_step(s, p);
        crate::text::lemma_byte_at_end(s);
    } else {
        lemma_item_anchored(s, p);
        lemma_item_advances(s, p);
        if let Ok((first, q)) = spec_item(s, p) {
            lemma_skip_ws(s, q);
            let q1 = skip_ws(s, q);
            lemma_span_anchored(s, g, q1);
            lemma_err_here_anchored(s, q1, KindModel::UnexpectedEof, Seq::empty());
            if q1 < s.len() {
                let c = s[q1];
                lemma_err_here_anchored(s, q1, KindModel::UnexpectedChar(c), "expected '|', '/', or ')'"@);
                if c == '|' || c == '/' {
                    lemma_split_tail_anchored(s, c, g, first, q1);
                    lemma_children_advances(s, c, q1);
                    if let Ok((rest, r0)) = spec_children(s, c, q1) {
                        lemma_skip_ws(s, r0);
                    }
                    if let Ok((node, r)) = spec_split_tail(s, c, byte_at(s, g), first, q1) {
                        lemma_span_anchored(s, g, r);
                    }
                }
            }
        }
    }
}

proof fn lemma_split_tail_anchored(s: Seq<char>, op: char, g: int, first: ItemModel, p: int)
    requires
        0 <= g < p < s.len(),
        utf8_len(s) <= usize::MAX,
        tree_anchored(first, s),
    ensures
        err_anchored(spec_split_tail(s, op, byte_at(s, g), first, p), s),
        spec_split_tail(s, op, byte_at(s, g), first, p) matches Ok((node, _)) ==> match node {
            NodeModel::Panel { .. } => true,
            NodeModel::HSplit { children } => forall|i: int|
                0 <= i < children.len() ==> tree_anchored(#[trigger] children[i], s),
            NodeModel::VSplit { children } => forall|i: int|
                0 <= i < children.len() ==> tree_anchored(#[trigger] children[i], s),
        },
    decreases s.len() - p, 1int,
{
    lemma_children_anchored(s, op, p);
    lemma_children_advances(s, op, p);
    if let Ok((rest, r)) = spec_children(s, op, p) {
        lemma_skip_ws(s, r);
        let r1 = skip_ws(s, r);
        lemma_span_anchored(s, g, r1);
        lemma_err_here_anchored(s, r1, KindModel::MixedOperators, crate::spec::mixed_message(op));
        if r1 < s.len() {
            lemma_err_here_anchored(s, r1, KindModel::UnexpectedChar(s[r1]), "expected operator or ')'"@);
        }
        let children = seq![first] + rest;
        assert forall|i: int| 0 <= i < children.len() implies tree_anchored(#[trigger] children[i], s) by {
            if i > 0 {
                assert(children[i] == rest[i - 1]);
            }
        }
    }
}

proof fn lemma_children_anchored(s: Seq<char>, op: char, p: int)
    requires
        0 <= p <= s.len(),
        utf8_len(s) <= usize::MAX,
    ensures
        err_anchored(spec_children(s, op, p), s),
        spec_children(s, op, p) matches Ok((cs, _)) ==> forall|i: int|
            0 <= i < cs.len() ==> tree_anchored(#[trigger] cs[i], s),
    decreases s.len() - p, 0int,
{
    if peek(s, p) == Some(op) {
        lemma_item_anchored(s, p + 1);
        lemma_item_advances(s, p + 1);
        if let Ok((c, q)) = spec_item(s, p + 1) {
            lemma_skip_ws(s, q);
            let q1 = skip_ws(s, q);
            lemma_children_anchored(s, op, q1);
            if let Ok((cs, r)) = spec_children(s, op, q1) {
                let all = seq![c] + cs;
                assert forall|i: int| 0 <= i < all.len() implies tree_anchored(#[trigger] all[i], s) by {
                    if i > 0 {
                        assert(all[i] == cs[i - 1]);
                    }
                }
            }
        }
    }
}

proof fn lemma_validate_children_anchored(children: Seq<ItemModel>, horizontal: bool, s: Seq<char>)
    requires
        forall|i: int| 0 <= i < children.len() ==> tree_anchored(#[trigger] children[i], s),
    ensures
        err_anchored(spec_validate_children(children, horizontal), s),
    decreases children,
{
    if children.len() > 0 {
        let rest = children.subrange(1, children.len() as int);
        assert(tree_anchored(children[0], s));
        lemma_validate_node_anchored(children[0], s);
        assert forall|i: int| 0 <= i < rest.len() implies tree_anchored(#[trigger] rest[i], s) by {
            assert(rest[i] == children[i + 1]);
        }
        lemma_validate_children_anchored(rest, horizontal, s);
    }
}

proof fn lemma_validate_node_anchored(it: ItemModel, s: Seq<char>)
    requires
        tree_anchored(it, s),
    ensures
        err_anchored(spec_validate_node(it.node), s),
    decreases it,
{
    match it.node {
        NodeModel::Panel { .. } => {},
        NodeModel::HSplit { children } => {
            lemma_validate_children_anchored(children, true, s);
        },
        NodeModel::VSplit { children } => {
            lemma_validate_children_anchored(children, false, s);
        },
    }
}

proof fn lemma_utf8_len_at_least_len(s: Seq<char>, k: int)
    requires
        0 <= k <= s.len(),
    ensures
        k <= byte_at(s, k),
    decreases k,
{
    if k > 0 {
        lemma_utf8_len_at_least_len(s, k - 1);
        crate::text::lemma_byte_at_step(s, k - 1);
    }
}

/// Every error of parsing and validation can be rendered against the input
/// it came from: [`crate::ParseError::format_with_source`] accepts it.
pub proof fn law_errors_render(s: Seq<char>)
    requires
        utf8_len(s) < usize::MAX,
    ensures
        spec_parse_and_validate(s) matches Err(e) ==> {
            &&& position_defined(s, e.span.start as nat)
            &&& e.span.start <= e.span.end
            &&& e.span.end <= utf8_len(s)
        },
{
    lemma_item_anchored(s, 0);
    lemma_item_advances(s, 0);
    if let Ok((it, q)) = spec_item(s, 0) {
        lemma_skip_ws(s, q);
        lemma_err_here_anchored(s, skip_ws(s, q), KindModel::TrailingInput, "unexpected input after layout"@);
        lemma_validate_node_anchored(it, s);
    }
    if let Err(e) = spec_parse_and_validate(s) {
        let b = e.span.start as int;
        lemma_char_index(s, b);
        let k = char_index(s, b);
        lemma_utf8_len_at_least_len(s, k);
        crate::error::lemma_count_newlines_bound(s, k);
    }
}

} // verus!
