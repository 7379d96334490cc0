//! The shape of every successfully parsed layout: spans are ordered and lie
//! in the input, every split has at least two children, and the children of
//! a split come in order, one after another, inside the split's span.
use vstd::prelude::*;

use crate::ast::{ItemModel, NodeModel, Span};
use crate::spec::{
    digits_end, lemma_scan_bounds, peek, skip_ws, spec_children, spec_group, spec_item,
    spec_number, spec_panel, spec_parse, spec_quoted_tail, spec_split_tail, spec_try_size,
    };
use crate::text::{byte_at, is_alpha, is_digit, is_space, is_word_stop, lemma_byte_at_end, lemma_byte_at_mono, utf8_len};

verus! {

/// An item's span is non-empty, and a split has at least two children whose
/// spans lie, in order and without overlap, inside its own.
pub open spec fn item_wf(it: ItemModel) -> bool
    decreases it,
{
    &&& it.span.start < it.span.end
    &&& match it.node {
        NodeModel::Panel { .. } => true,
        NodeModel::HSplit { children } => children.len() >= 2 && children_wf(
            children,
            it.span.start as int,
            it.span.end as int,
        ),
        NodeModel::VSplit { children } => children.len() >= 2 && children_wf(
            children,
            it.span.start as int,
            it.span.end as int,
        ),
    }
}

/// Each of `cs` is well formed, and their spans follow one another between `lo` and `hi`.
pub open spec fn children_wf(cs: Seq<ItemModel>, lo: int, hi: int) -> bool
    decreases cs,
{
    if cs.len() == 0 {
        true
    } else {
        &&& lo <= cs[0].span.start
        &&& cs[0].span.end <= hi
        &&& item_wf(cs[0])
        &&& children_wf(cs.subrange(1, cs.len() as int), cs[0].span.end as int, hi)
    }
}

proof fn lemma_children_wf_widen(cs: Seq<ItemModel>, lo: int, hi: int, lo2: int, hi2: int)
    requires
        children_wf(cs, lo, hi),
        lo2 <= lo,
        hi <= hi2,
    ensures
        children_wf(cs, lo2, hi2),
    decreases cs.len(),
{
    if cs.len() > 0 {
        lemma_children_wf_widen(
            cs.subrange(1, cs.len() as int),
            cs[0].span.end as int,
            hi,
            cs[0].span.end as int,
            hi2,
        );
    }
}

proof fn lemma_children_wf_cons(first: ItemModel, rest: Seq<ItemModel>, lo: int, hi: int)
    requires
        lo <= first.span.start,
        first.span.end <= hi,
        item_wf(first),
        children_wf(rest, first.span.end as int, hi),
    ensures
        children_wf(seq![first] + rest, lo, hi),
{
    let cs = seq![first] + rest;
    assert(cs.subrange(1, cs.len() as int) =~= rest);
}

/// A well-formed item stays well formed when its span grows.
proof fn lemma_item_wf_widen(it: ItemModel, span: Span)
    requires
        item_wf(it),
        span.start <= it.span.start,
        it.span.end <= span.end,
    ensures
        item_wf(ItemModel { span, ..it }),
{
    match it.node {
        NodeModel::Panel { .. } => {},
        NodeModel::HSplit { children } => {
            lemma_children_wf_widen(
                children,
                it.span.start as int,
                it.span.end as int,
                span.start as int,
                span.end as int,
            );
        },
        NodeModel::VSplit { children } => {
            lemma_children_wf_widen(
                children,
                it.span.start as int,
                it.span.end as int,
                span.start as int,
                span.end as int,
            );
        },
    }
}

pub proof fn lemma_skip_ws(s: Seq<char>, p: int)
    requires
        0 <= p <= s.len(),
    ensures
        p <= skip_ws(s, p) <= s.len(),
{
    lemma_scan_bounds(s, p, |c: char| is_space(c));
}

pub proof fn lemma_bytes(s: Seq<char>, p: int, q: int)
    requires
        0 <= p <= q <= s.len(),
    ensures
        byte_at(s, p) <= byte_at(s, q) <= utf8_len(s),
        p < q ==> byte_at(s, p) < byte_at(s, q),
{
    lemma_byte_at_mono(s, p, q);
    lemma_byte_at_mono(s, q, s.len() as int);
    lemma_byte_at_end(s);
}

proof fn lemma_quoted_tail_advances(s: Seq<char>, quote: char, start: int, i: int)
    requires
        0 <= i <= s.len(),
    ensures
        spec_quoted_tail(s, quote, start, i) matches Ok((_, q)) ==> i < q <= s.len(),
    decreases s.len() - i,
{
    if i < s.len() {
        if s[i] == '\\' {
            if i + 1 < s.len() {
                lemma_quoted_tail_advances(s, quote, start, i + 2);
            }
        } else if s[i] != quote {
            lemma_quoted_tail_advances(s, quote, start, i + 1);
        }
    }
}

pub proof fn lemma_panel_advances(s: Seq<char>, p: int)
    requires
        0 <= p <= s.len(),
    ensures
        spec_panel(s, p) matches Ok((node, q)) ==> skip_ws(s, p) < q <= s.len() && node is Panel,
{
    lemma_skip_ws(s, p);
    let p0 = skip_ws(s, p);
    if p0 < s.len() {
        lemma_quoted_tail_advances(s, s[p0], p0, p0 + 1);
        lemma_scan_bounds(s, p0, |c: char| !is_word_stop(c));
    }
}

pub proof fn lemma_try_size_advances(s: Seq<char>, p: int)
    requires
        0 <= p <= s.len(),
    ensures
        spec_try_size(s, p) matches Ok((_, q)) ==> p <= q <= s.len(),
{
    lemma_skip_ws(s, p);
    let p0 = skip_ws(s, p);
    if peek(s, p0) == Some('=') {
        lemma_skip_ws(s, p0 + 1);
        let p1 = skip_ws(s, p0 + 1);
        lemma_scan_bounds(s, p1, |c: char| is_digit(c));
        let q1 = digits_end(s, p1);
        if peek(s, q1) == Some('.') {
            lemma_scan_bounds(s, q1 + 1, |c: char| is_digit(c));
        }
        if let Ok((_, q)) = spec_number(s, p1) {
            lemma_scan_bounds(s, q, |c: char| is_alpha(c));
        }
    }
}

/// A successful item moves forward, stays in the input, and is well formed.
pub proof fn lemma_item_advances(s: Seq<char>, p: int)
    requires
        0 <= p <= s.len(),
        utf8_len(s) <= usize::MAX,
    ensures
        spec_item(s, p) matches Ok((it, q)) ==> {
            &&& p < q <= s.len()
            &&& item_wf(it)
            &&& byte_at(s, p) <= it.span.start
            &&& it.span.end == byte_at(s, q)
        },
    decreases s.len() - p, 1int,
{
    lemma_skip_ws(s, p);
    let p0 = skip_ws(s, p);
    if p0 < s.len() {
        lemma_bytes(s, p, p0);
        if s[p0] == '(' {
            lemma_skip_ws(s, p0 + 1);
            let p1 = skip_ws(s, p0 + 1);
            lemma_group_advances(s, p0, p1);
            if let Ok((g, q)) = spec_group(s, p0, p1) {
                lemma_try_size_advances(s, q);
                if let Ok((outer, q2)) = spec_try_size(s, q) {
                    lemma_bytes(s, p0, q);
                    lemma_bytes(s, q, q2);
                    let span = Span { start: byte_at(s, p0) as usize, end: byte_at(s, q2) as usize };
                    let size = if outer is Some {
                        outer
                    } else {
                        g.size
                    };
                    lemma_item_wf_widen(ItemModel { size, ..g }, span);
                }
            }
        } else {
            crate::spec::lemma_scan_idempotent(s, p, |c: char| is_space(c));
            lemma_panel_advances(s, p0);
            if let Ok((node, q)) = spec_panel(s, p0) {
                lemma_try_size_advances(s, q);
                if let Ok((_, q2)) = spec_try_size(s, q) {
                    lemma_bytes(s, p0, q2);
                }
            }
        }
    }
}

pub proof fn lemma_group_advances(s: Seq<char>, g: int, p: int)
    requires
        0 <= g < p <= s.len(),
        utf8_len(s) <= usize::MAX,
    ensures
        spec_group(s, g, p) matches Ok((it, q)) ==> {
            &&& p < q <= s.len()
            &&& item_wf(it)
            &&& byte_at(s, g) <= it.span.start
            &&& it.span.end <= byte_at(s, q)
        },
    decreases s.len() - p, 2int,
{
    if peek(s, p) != Some(')') {
        lemma_item_advances(s, p);
        if let Ok((first, q)) = spec_item(s, p) {
            lemma_skip_ws(s, q);
            let q1 = skip_ws(s, q);
            lemma_bytes(s, g, p);
            lemma_bytes(s, q, q1);
            if q1 < s.len() {
                let c = s[q1];
                lemma_bytes(s, q1, q1 + 1);
                if c == '|' || c == '/' {
                    lemma_split_tail_advances(s, c, byte_at(s, g), first, q1);
                    if let Ok((node, r)) = spec_split_tail(s, c, byte_at(s, g), first, q1) {
                        lemma_bytes(s, g, r);
                    }
                }
            }
        }
    }
}

proof fn lemma_split_tail_advances(s: Seq<char>, op: char, group_byte: nat, first: ItemModel, p: int)
    requires
        0 <= p < s.len(),
        s[p] == op,
        utf8_len(s) <= usize::MAX,
        group_byte <= first.span.start,
        first.span.end <= byte_at(s, p),
        item_wf(first),
    ensures
        spec_split_tail(s, op, group_byte, first, p) matches Ok((node, r)) ==> {
            &&& p < r <= s.len()
            &&& group_byte <= byte_at(s, r)
            &&& match node {
                NodeModel::Panel { .. } => false,
                NodeModel::HSplit { children } => children.len() >= 2 && children_wf(
                    children,
                    group_byte as int,
                    byte_at(s, r) as int,
                ),
                NodeModel::VSplit { children } => children.len() >= 2 && children_wf(
                    children,
                    group_byte as int,
                    byte_at(s, r) as int,
                ),
            }
        },
    decreases s.len() - p, 1int,
{
    lemma_children_advances(s, op, p);
    if let Ok((rest, r)) = spec_children(s, op, p) {
        lemma_skip_ws(s, r);
        let r1 = skip_ws(s, r);
        if r1 < s.len() {
            lemma_bytes(s, p, r);
            lemma_bytes(s, r, r1 + 1);
            lemma_children_wf_widen(rest, byte_at(s, p) as int, byte_at(s, r) as int, first.span.end as int, byte_at(s, r1 + 1) as int);
            lemma_children_wf_cons(first, rest, group_byte as int, byte_at(s, r1 + 1) as int);
        }
    }
}

pub proof fn lemma_children_advances(s: Seq<char>, op: char, p: int)
    requires
        0 <= p <= s.len(),
        utf8_len(s) <= usize::MAX,
    ensures
        spec_children(s, op, p) matches Ok((cs, r)) ==> {
            &&& p <= r <= s.len()
            &&& children_wf(cs, byte_at(s, p) as int, byte_at(s, r) as int)
            &&& (peek(s, p) == Some(op) ==> cs.len() >= 1 && p < r)
        },
    decreases s.len() - p, 0int,
{
    if peek(s, p) == Some(op) {
        lemma_item_advances(s, p + 1);
        if let Ok((c, q)) = spec_item(s, p + 1) {
            lemma_skip_ws(s, q);
            let q1 = skip_ws(s, q);
            lemma_children_advances(s, op, q1);
            if let Ok((cs, r)) = spec_children(s, op, q1) {
                lemma_bytes(s, p, p + 1);
                lemma_bytes(s, q, q1);
                lemma_bytes(s, q1, r);
                lemma_children_wf_widen(cs, byte_at(s, q1) as int, byte_at(s, r) as int, c.span.end as int, byte_at(s, r) as int);
                lemma_children_wf_cons(c, cs, byte_at(s, p) as int, byte_at(s, r) as int);
            }
        }
    }
}

/// A successful parse is well formed and its span lies in the input.
pub proof fn lemma_parse_well_formed(s: Seq<char>)
    requires
        utf8_len(s) <= usize::MAX,
    ensures
        spec_parse(s) matches Ok(it) ==> item_wf(it) && it.span.end <= utf8_len(s),
{
    lemma_item_advances(s, 0);
    if let Ok((it, q)) = spec_item(s, 0) {
        lemma_bytes(s, q, s.len() as int);
    }
}

} // verus!
