//! Parsing a layout inside a larger text: a layout wrapped in parentheses, or
//! preceded by white space, parses to the same tree with its spans moved.
use vstd::prelude::*;

use crate::ast::{ItemModel, NodeModel, SizeModel, Span};
use crate::error::ErrorModel;
use crate::spec::{
    alpha_end, byte_span, digits_end, lemma_scan_bounds, lemma_scan_idempotent, peek, scan_while, skip_ws,
    spec_children, spec_group, spec_item, spec_number, spec_panel, spec_parse, spec_quoted_tail,
    spec_split_tail, spec_try_size, word_end,
};
use crate::structure::{
    lemma_children_advances, lemma_group_advances, lemma_item_advances, lemma_panel_advances,
    lemma_try_size_advances,
};
use crate::text::{
    byte_at, is_alpha, is_digit, is_space, is_word_stop, lemma_byte_at_end, lemma_byte_at_mono,
    lemma_utf8_len_concat, utf8_len,
};

verus! {

pub open spec fn shift_span(span: Span, d: nat) -> Span {
    Span { start: (span.start + d) as usize, end: (span.end + d) as usize }
}

/// `it` with every span moved `d` bytes further.
pub open spec fn shift_item(it: ItemModel, d: nat) -> ItemModel
    decreases it,
{
    ItemModel { node: shift_node(it.node, d), size: it.size, span: shift_span(it.span, d) }
}

pub open spec fn shift_node(node: NodeModel, d: nat) -> NodeModel
    decreases node,
{
    match node {
        NodeModel::Panel { name } => NodeModel::Panel { name },
        NodeModel::HSplit { children } => NodeModel::HSplit { children: shift_items(children, d) },
        NodeModel::VSplit { children } => NodeModel::VSplit { children: shift_items(children, d) },
    }
}

pub open spec fn shift_items(items: Seq<ItemModel>, d: nat) -> Seq<ItemModel>
    decreases items,
{
    if items.len() == 0 {
        Seq::empty()
    } else {
        seq![shift_item(items[0], d)] + shift_items(items.subrange(1, items.len() as int), d)
    }
}

proof fn lemma_shift_items_cons(first: ItemModel, rest: Seq<ItemModel>, d: nat)
    ensures
        shift_items(seq![first] + rest, d) == seq![shift_item(first, d)] + shift_items(rest, d),
{
    let cs = seq![first] + rest;
    assert(cs.subrange(1, cs.len() as int) =~= rest);
}

/// The characters that may follow an embedded item: `)` or an operator.
pub open spec fn is_closer(c: char) -> bool {
    c == ')' || c == '|' || c == '/'
}

/// `s` occurs in `t` at position `k`, followed by nothing, by `)` or by an operator.
pub open spec fn embeds(s: Seq<char>, t: Seq<char>, k: int) -> bool {
    &&& 0 <= k
    &&& k + s.len() <= t.len()
    &&& t.subrange(k, k + s.len()) == s
    &&& k + s.len() < t.len() ==> is_closer(t[k + s.len()])
    &&& utf8_len(t) <= usize::MAX
}

proof fn lemma_embed_index(s: Seq<char>, t: Seq<char>, k: int, i: int)
    requires
        embeds(s, t, k),
        0 <= i < s.len(),
    ensures
        t[k + i] == s[i],
{
    assert(t.subrange(k, k + s.len())[i] == t[k + i]);
}

proof fn lemma_embed_peek(s: Seq<char>, t: Seq<char>, k: int, p: int)
    requires
        embeds(s, t, k),
        0 <= p <= s.len(),
    ensures
        p < s.len() ==> peek(t, p + k) == peek(s, p),
        p == s.len() ==> peek(t, p + k) is None || is_closer(peek(t, p + k)->0),
{
    if p < s.len() {
        lemma_embed_index(s, t, k, p);
    }
}

/// Byte offsets inside the embedded text move by the byte offset of its start.
proof fn lemma_embed_bytes(s: Seq<char>, t: Seq<char>, k: int, p: int)
    requires
        embeds(s, t, k),
        0 <= p <= s.len(),
    ensures
        byte_at(t, p + k) == byte_at(t, k) + byte_at(s, p),
        byte_at(t, k) + utf8_len(s) <= utf8_len(t),
{
    assert(t.take(p + k) =~= t.take(k) + s.take(p));
    lemma_utf8_len_concat(t.take(k), s.take(p));
    assert(t.take(k + s.len()) =~= t.take(k) + s);
    lemma_utf8_len_concat(t.take(k), s);
    lemma_byte_at_mono(t, k + s.len(), t.len() as int);
    lemma_byte_at_end(t);
}

proof fn lemma_embed_span(s: Seq<char>, t: Seq<char>, k: int, p: int, q: int)
    requires
        embeds(s, t, k),
        0 <= p <= q <= s.len(),
    ensures
        byte_span(t, p + k, q + k) == shift_span(byte_span(s, p, q), byte_at(t, k)),
{
    lemma_embed_bytes(s, t, k, p);
    lemma_embed_bytes(s, t, k, q);
    lemma_byte_at_mono(s, p, s.len() as int);
    lemma_byte_at_mono(s, q, s.len() as int);
    lemma_byte_at_end(s);
}

proof fn lemma_embed_scan(s: Seq<char>, t: Seq<char>, k: int, p: int, pred: spec_fn(char) -> bool)
    requires
        embeds(s, t, k),
        0 <= p <= s.len(),
        !pred(')'),
        !pred('|'),
        !pred('/'),
    ensures
        scan_while(t, p + k, pred) == scan_while(s, p, pred) + k,
    decreases s.len() - p,
{
    if p < s.len() {
        lemma_embed_index(s, t, k, p);
        if pred(s[p]) {
            lemma_embed_scan(s, t, k, p + 1, pred);
        }
    }
}

proof fn lemma_embed_skip_ws(s: Seq<char>, t: Seq<char>, k: int, p: int)
    requires
        embeds(s, t, k),
        0 <= p <= s.len(),
    ensures
        skip_ws(t, p + k) == skip_ws(s, p) + k,
        p <= skip_ws(s, p) <= s.len(),
{
    lemma_embed_scan(s, t, k, p, |c: char| is_space(c));
    lemma_scan_bounds(s, p, |c: char| is_space(c));
}

proof fn lemma_embed_quoted_tail(s: Seq<char>, t: Seq<char>, k: int, quote: char, start: int, i: int)
    requires
        embeds(s, t, k),
        0 <= i <= s.len(),
    ensures
        spec_quoted_tail(s, quote, start, i) matches Ok((name, q)) ==> spec_quoted_tail(
            t,
            quote,
            start + k,
            i + k,
        ) == Ok::<(Seq<char>, int), ErrorModel>((name, q + k)),
    decreases s.len() - i,
{
    if i < s.len() {
        lemma_embed_index(s, t, k, i);
        if s[i] == '\\' {
            if i + 1 < s.len() {
                lemma_embed_index(s, t, k, i + 1);
                lemma_embed_quoted_tail(s, t, k, quote, start, i + 2);
            }
        } else if s[i] != quote {
            lemma_embed_quoted_tail(s, t, k, quote, start, i + 1);
        }
    }
}

proof fn lemma_embed_panel(s: Seq<char>, t: Seq<char>, k: int, p: int)
    requires
        embeds(s, t, k),
        0 <= p <= s.len(),
    ensures
        spec_panel(s, p) matches Ok((node, q)) ==> spec_panel(t, p + k) == Ok::<
            (NodeModel, int),
            ErrorModel,
        >((node, q + k)),
{
    lemma_embed_skip_ws(s, t, k, p);
    let p0 = skip_ws(s, p);
    lemma_embed_peek(s, t, k, p0);
    if p0 < s.len() {
        lemma_embed_index(s, t, k, p0);
        lemma_embed_quoted_tail(s, t, k, s[p0], p0, p0 + 1);
        lemma_embed_scan(s, t, k, p0, |c: char| !is_word_stop(c));
        lemma_scan_bounds(s, p0, |c: char| !is_word_stop(c));
        let q = word_end(s, p0);
        assert(t.subrange(p0 + k, q + k) =~= s.subrange(p0, q)) by {
            assert forall|i: int| 0 <= i < q - p0 implies t.subrange(p0 + k, q + k)[i] == s.subrange(
                p0,
                q,
            )[i] by {
                lemma_embed_index(s, t, k, p0 + i);
            }
        }
    }
}

proof fn lemma_embed_try_size(s: Seq<char>, t: Seq<char>, k: int, p: int)
    requires
        embeds(s, t, k),
        0 <= p <= s.len(),
    ensures
        spec_try_size(s, p) matches Ok((size, q)) ==> spec_try_size(t, p + k) == Ok::<
            (Option<SizeModel>, int),
            ErrorModel,
        >((size, q + k)),
{
    lemma_embed_skip_ws(s, t, k, p);
    let p0 = skip_ws(s, p);
    lemma_embed_peek(s, t, k, p0);
    if p0 < s.len() && s[p0] == '=' {
        lemma_embed_skip_ws(s, t, k, p0 + 1);
        let p1 = skip_ws(s, p0 + 1);
        lemma_embed_scan(s, t, k, p1, |c: char| is_digit(c));
        lemma_scan_bounds(s, p1, |c: char| is_digit(c));
        let q1 = digits_end(s, p1);
        lemma_embed_peek(s, t, k, q1);
        if q1 < s.len() && s[q1] == '.' {
            lemma_embed_scan(s, t, k, q1 + 1, |c: char| is_digit(c));
            lemma_scan_bounds(s, q1 + 1, |c: char| is_digit(c));
        }
        let q2 = if peek(s, q1) == Some('.') {
            digits_end(s, q1 + 1)
        } else {
            q1
        };
        if p1 < s.len() {
            lemma_embed_index(s, t, k, p1);
        }
        assert(t.subrange(p1 + k, q2 + k) =~= s.subrange(p1, q2)) by {
            assert forall|i: int| 0 <= i < q2 - p1 implies t.subrange(p1 + k, q2 + k)[i] == s.subrange(
                p1,
                q2,
            )[i] by {
                lemma_embed_index(s, t, k, p1 + i);
            }
        }
        if let Ok((value, q)) = spec_number(s, p1) {
            lemma_embed_peek(s, t, k, q);
            lemma_embed_scan(s, t, k, q, |c: char| is_alpha(c));
            lemma_scan_bounds(s, q, |c: char| is_alpha(c));
            let e = alpha_end(s, q);
            assert(t.subrange(q + k, e + k) =~= s.subrange(q, e)) by {
                assert forall|i: int| 0 <= i < e - q implies t.subrange(q + k, e + k)[i] == s.subrange(
                    q,
                    e,
                )[i] by {
                    lemma_embed_index(s, t, k, q + i);
                }
            }
        }
    }
}

pub proof fn lemma_embed_item(s: Seq<char>, t: Seq<char>, k: int, p: int)
    requires
        embeds(s, t, k),
        0 <= p <= s.len(),
    ensures
        spec_item(s, p) matches Ok((it, q)) ==> spec_item(t, p + k) == Ok::<
            (ItemModel, int),
            ErrorModel,
        >((shift_item(it, byte_at(t, k)), q + k)),
    decreases s.len() - p, 1int,
{
    let d = byte_at(t, k);
    lemma_embed_skip_ws(s, t, k, p);
    let p0 = skip_ws(s, p);
    lemma_embed_peek(s, t, k, p0);
    if p0 < s.len() {
        if s[p0] == '(' {
            lemma_embed_skip_ws(s, t, k, p0 + 1);
            let p1 = skip_ws(s, p0 + 1);
            lemma_embed_group(s, t, k, p0, p1);
            if let Ok((g, q)) = spec_group(s, p0, p1) {
                lemma_embed_bound(s, t, k);
                lemma_group_advances(s, p0, p1);
                lemma_embed_try_size(s, t, k, q);
                if let Ok((outer, q2)) = spec_try_size(s, q) {
                    lemma_try_size_advances(s, q);
                    lemma_embed_span(s, t, k, p0, q2);
                }
            }
        } else {
            lemma_embed_panel(s, t, k, p0);
            if let Ok((node, q)) = spec_panel(s, p0) {
                lemma_scan_idempotent(s, p, |c: char| is_space(c));
                lemma_panel_advances(s, p0);
                lemma_embed_try_size(s, t, k, q);
                if let Ok((size, q2)) = spec_try_size(s, q) {
                    lemma_try_size_advances(s, q);
                    lemma_embed_span(s, t, k, p0, q2);
                }
            }
        }
    }
}

#[verifier::rlimit(40)]
proof fn lemma_embed_group(s: Seq<char>, t: Seq<char>, k: int, g: int, p: int)
    requires
        embeds(s, t, k),
        0 <= g < p <= s.len(),
    ensures
        spec_group(s, g, p) matches Ok((it, q)) ==> spec_group(t, g + k, p + k) == Ok::<
            (ItemModel, int),
            ErrorModel,
        >((shift_item(it, byte_at(t, k)), q + k)),
    decreases s.len() - p, 2int,
{
    let d = byte_at(t, k);
    lemma_embed_peek(s, t, k, p);
    lemma_embed_bound(s, t, k);
    if p < s.len() && s[p] != ')' {
        lemma_embed_item(s, t, k, p);
        lemma_item_advances(s, p);
        if let Ok((first, q)) = spec_item(s, p) {
            lemma_embed_skip_ws(s, t, k, q);
            let q1 = skip_ws(s, q);
            lemma_embed_peek(s, t, k, q1);
            assert(spec_item(t, p + k) == Ok::<(ItemModel, int), ErrorModel>(
                (shift_item(first, d), q + k),
            ));
            if q1 < s.len() {
                let c = s[q1];
                assert(peek(t, q1 + k) == Some(c));
                if c == '|' || c == '/' {
                    lemma_embed_bytes(s, t, k, g);
                    lemma_embed_split_tail(s, t, k, c, byte_at(s, g), first, q1);
                    lemma_children_advances(s, c, q1);
                    if let Ok((rest, r0)) = spec_children(s, c, q1) {
                        lemma_embed_skip_ws(s, t, k, r0);
                    }
                    if let Ok((node, r)) = spec_split_tail(s, c, byte_at(s, g), first, q1) {
                        assert(byte_at(t, g + k) == byte_at(s, g) + d);
                        assert(spec_split_tail(t, c, byte_at(t, g + k), shift_item(first, d), q1 + k)
                            == Ok::<(NodeModel, int), ErrorModel>((shift_node(node, d), r + k)));
                        lemma_embed_span(s, t, k, g, r);
                    }
                }
            }
        }
    } else if p == s.len() {
        // no item starts at the end of `s`
        lemma_scan_bounds(s, p, |c: char| is_space(c));
    }
}

#[verifier::rlimit(40)]
proof fn lemma_embed_split_tail(
    s: Seq<char>,
    t: Seq<char>,
    k: int,
    op: char,
    group_byte: nat,
    first: ItemModel,
    p: int,
)
    requires
        embeds(s, t, k),
        0 <= p < s.len(),
        op == '|' || op == '/',
    ensures
        spec_split_tail(s, op, group_byte, first, p) matches Ok((node, r)) ==> spec_split_tail(
            t,
            op,
            group_byte + byte_at(t, k),
            shift_item(first, byte_at(t, k)),
            p + k,
        ) == Ok::<(NodeModel, int), ErrorModel>((shift_node(node, byte_at(t, k)), r + k)),
    decreases s.len() - p, 1int,
{
    let d = byte_at(t, k);
    lemma_embed_children(s, t, k, op, p);
    if let Ok((rest, r)) = spec_children(s, op, p) {
        lemma_embed_bound(s, t, k);
        lemma_children_advances(s, op, p);
        lemma_embed_skip_ws(s, t, k, r);
        let r1 = skip_ws(s, r);
        lemma_embed_peek(s, t, k, r1);
        let other = if op == '|' {
            '/'
        } else {
            '|'
        };
        if r1 < s.len() && s[r1] == ')' {
            let children = seq![first] + rest;
            lemma_shift_items_cons(first, rest, d);
            assert(spec_children(t, op, p + k) == Ok::<(Seq<ItemModel>, int), ErrorModel>(
                (shift_items(rest, d), r + k),
            ));
            assert(skip_ws(t, r + k) == r1 + k);
            assert(peek(t, r1 + k) == Some(')'));
            assert(seq![shift_item(first, d)] + shift_items(rest, d) == shift_items(children, d));
        }
    }
}

proof fn lemma_embed_children(s: Seq<char>, t: Seq<char>, k: int, op: char, p: int)
    requires
        embeds(s, t, k),
        0 <= p <= s.len(),
        op == '|' || op == '/',
    ensures
        spec_children(s, op, p) matches Ok((cs, r)) ==> r < s.len() ==> spec_children(
            t,
            op,
            p + k,
        ) == Ok::<(Seq<ItemModel>, int), ErrorModel>((shift_items(cs, byte_at(t, k)), r + k)),
    decreases s.len() - p, 0int,
{
    let d = byte_at(t, k);
    lemma_embed_peek(s, t, k, p);
    if peek(s, p) == Some(op) {
        lemma_embed_item(s, t, k, p + 1);
        lemma_embed_bound(s, t, k);
        lemma_item_advances(s, p + 1);
        if let Ok((c, q)) = spec_item(s, p + 1) {
            lemma_embed_skip_ws(s, t, k, q);
            let q1 = skip_ws(s, q);
            lemma_embed_children(s, t, k, op, q1);
            if let Ok((cs, r)) = spec_children(s, op, q1) {
                lemma_shift_items_cons(c, cs, d);
            }
        }
    } else {
        assert(shift_items(Seq::<ItemModel>::empty(), d) =~= Seq::<ItemModel>::empty());
    }
}

proof fn lemma_embed_bound(s: Seq<char>, t: Seq<char>, k: int)
    requires
        embeds(s, t, k),
    ensures
        utf8_len(s) <= usize::MAX,
{
    lemma_embed_bytes(s, t, k, 0);
}


proof fn lemma_utf8_len_one(c: char)
    ensures
        utf8_len(seq![c]) == crate::text::utf8_width(c),
{
    assert(seq![c].drop_first() =~= Seq::<char>::empty());
    assert(utf8_len(Seq::<char>::empty()) == 0);
}

/// No item starts with `)`.
proof fn lemma_item_not_close(s: Seq<char>, p: int)
    requires
        0 <= p <= s.len(),
        spec_item(s, p) is Ok,
    ensures
        skip_ws(s, p) < s.len(),
        s[skip_ws(s, p)] != ')',
{
    lemma_scan_bounds(s, p, |c: char| is_space(c));
    lemma_scan_idempotent(s, p, |c: char| is_space(c));
    let p0 = skip_ws(s, p);
    if p0 < s.len() && s[p0] == ')' {
        assert(word_end(s, p0) == p0);
    }
}

/// An item starting after white space is the item starting where the white space ends.
proof fn lemma_item_after_space(s: Seq<char>, p: int)
    requires
        0 <= p <= s.len(),
    ensures
        spec_item(s, skip_ws(s, p)) == spec_item(s, p),
{
    lemma_scan_bounds(s, p, |c: char| is_space(c));
    lemma_scan_idempotent(s, p, |c: char| is_space(c));
}

/// A layout in parentheses is that same layout: `(x)` parses to the tree that `x`
/// parses to, every span one byte (the `(`) further on, except the outermost, which
/// covers the whole text.
#[verifier::rlimit(60)]
pub proof fn law_single_item_group(s: Seq<char>)
    requires
        utf8_len(s) + 2 <= usize::MAX,
    ensures
        spec_parse(s) matches Ok(it) ==> spec_parse(seq!['('] + s + seq![')']) == Ok::<
            ItemModel,
            ErrorModel,
        >(
            (ItemModel {
                node: shift_node(it.node, 1),
                size: it.size,
                span: Span { start: 0, end: (utf8_len(s) + 2) as usize },
            }),
        ),
{
    let t = seq!['('] + s + seq![')'];
    lemma_utf8_len_one('(');
    lemma_utf8_len_one(')');
    lemma_utf8_len_concat(seq!['('], s);
    lemma_utf8_len_concat(seq!['('] + s, seq![')']);
    assert(t.subrange(1, 1 + s.len() as int) =~= s);
    assert(t[1 + s.len() as int] == ')');
    assert(embeds(s, t, 1));
    assert(t.take(1) =~= seq!['(']);
    assert(byte_at(t, 1) == 1);
    if let Ok(it) = spec_parse(s) {
        lemma_item_advances(s, 0);
        let q = spec_item(s, 0)->Ok_0.1;
        lemma_scan_bounds(s, q, |c: char| is_space(c));
        assert(skip_ws(s, q) == s.len());
        lemma_item_not_close(s, 0);
        let p0 = skip_ws(s, 0);
        lemma_item_after_space(s, 0);
        lemma_embed_item(s, t, 1, p0);
        lemma_embed_skip_ws(s, t, 1, 0);
        lemma_embed_skip_ws(s, t, 1, q);
        lemma_embed_index(s, t, 1, p0);
        assert(skip_ws(t, 0) == 0);
        assert(peek(t, 0) == Some('('));
        assert(spec_item(t, p0 + 1) == Ok::<(ItemModel, int), ErrorModel>(
            (shift_item(it, 1), q + 1),
        ));
        assert(peek(t, s.len() as int + 1) == Some(')'));
        assert(spec_group(t, 0, p0 + 1) == Ok::<(ItemModel, int), ErrorModel>(
            (shift_item(it, 1), s.len() as int + 2),
        ));
        assert(skip_ws(t, s.len() as int + 2) == s.len() as int + 2);
        assert(spec_try_size(t, s.len() as int + 2) == Ok::<(Option<SizeModel>, int), ErrorModel>(
            (None, s.len() as int + 2),
        ));
        assert(t.take(0) =~= Seq::<char>::empty());
        assert(t.take(t.len() as int) =~= t);
        assert(byte_at(t, 0) == 0);
        assert(byte_at(t, t.len() as int) == utf8_len(s) + 2);
    }
}

proof fn lemma_skip_space_prefix(t: Seq<char>, i: int, k: int)
    requires
        0 <= i <= k <= t.len(),
        forall|j: int| 0 <= j < k ==> is_space(#[trigger] t[j]),
    ensures
        skip_ws(t, i) == skip_ws(t, k),
    decreases k - i,
{
    if i < k {
        lemma_skip_space_prefix(t, i + 1, k);
    }
}

/// White space before a layout does not change it: `w + x` parses to the tree that
/// `x` parses to, every span moved by the bytes of `w`.
pub proof fn law_leading_space(w: Seq<char>, s: Seq<char>)
    requires
        forall|i: int| 0 <= i < w.len() ==> is_space(#[trigger] w[i]),
        utf8_len(w + s) <= usize::MAX,
    ensures
        spec_parse(s) matches Ok(it) ==> spec_parse(w + s) == Ok::<ItemModel, ErrorModel>(
            shift_item(it, utf8_len(w)),
        ),
{
    let t = w + s;
    let k = w.len() as int;
    assert(t.subrange(k, k + s.len()) =~= s);
    assert(embeds(s, t, k));
    assert(t.take(k) =~= w);
    assert forall|j: int| 0 <= j < k implies is_space(#[trigger] t[j]) by {
        assert(t[j] == w[j]);
    }
    if let Ok(it) = spec_parse(s) {
        lemma_embed_bound(s, t, k);
        lemma_item_advances(s, 0);
        let q = spec_item(s, 0)->Ok_0.1;
        lemma_scan_bounds(s, q, |c: char| is_space(c));
        lemma_embed_item(s, t, k, 0);
        lemma_embed_skip_ws(s, t, k, 0);
        lemma_embed_skip_ws(s, t, k, q);
        lemma_skip_space_prefix(t, 0, k);
        lemma_item_after_space(t, 0);
        lemma_item_after_space(t, k);
        assert(spec_item(t, 0) == spec_item(t, k));
    }
}
} // verus!
