//! The language the parser accepts, stated from the other side: a printer
//! that writes a layout tree as text, with any white space around each
//! parenthesis, operator and `=` and at both ends, and the law that parsing
//! that text gives the tree back, spans aside. Beside it, laws on what
//! given pieces of text read as: bare names, decimal literals, and splits
//! that mix their operators.
use vstd::prelude::*;

use crate::ast::{ItemModel, NodeModel, SizeModel, Span, Unit};
use crate::error::{ErrorModel, KindModel};
use crate::nesting::is_closer;
use crate::quoting::{escape, lemma_quoted_tail_reads_name, quoted};
use crate::spec::{
    alpha_end, digits_end, lemma_scan_bounds, number_end, peek, scan_while, skip_ws,
    spec_children, spec_group, spec_item, spec_number, spec_panel, spec_parse, spec_split_tail,
    spec_try_size, spec_unit, spec_word, err_here, mixed_message,
};
use crate::text::{byte_at, is_alpha, is_digit, is_space, is_word_stop};

verus! {

/// How a unit is written after a size value.
pub open spec fn unit_text(unit: Unit) -> Seq<char> {
    match unit {
        Unit::Fr => seq!['f', 'r'],
        Unit::Col => seq!['c', 'o', 'l'],
        Unit::Row => seq!['r', 'o', 'w'],
        Unit::Px => seq!['p', 'x'],
        Unit::Percent => seq!['%'],
    }
}

/// Nothing but white space.
pub open spec fn all_space(w: Seq<char>) -> bool {
    forall|i: int| 0 <= i < w.len() ==> is_space(#[trigger] w[i])
}

/// The white space around one item of a printed layout and inside it.
pub struct Spacing {
    /// Before the item: after `(` or the operator before it, or at the start of the text.
    pub lead: Seq<char>,
    /// After the item: before the next operator or `)`, or at the end of the text.
    pub trail: Seq<char>,
    /// Between the item and the `=` of its size.
    pub before_eq: Seq<char>,
    /// Between that `=` and the size value.
    pub after_eq: Seq<char>,
    /// The spacing of each child of a split.
    pub children: Seq<Spacing>,
}

/// `sp` fits the shape of `it`, and all it holds is white space.
pub open spec fn spacing_ok(it: ItemModel, sp: Spacing) -> bool
    decreases it,
{
    &&& all_space(sp.lead)
    &&& all_space(sp.trail)
    &&& all_space(sp.before_eq)
    &&& all_space(sp.after_eq)
    &&& match it.node {
        NodeModel::Panel { .. } => true,
        NodeModel::HSplit { children } => sp.children.len() == children.len() && forall|i: int|
            0 <= i < children.len() ==> spacing_ok(#[trigger] children[i], sp.children[i]),
        NodeModel::VSplit { children } => sp.children.len() == children.len() && forall|i: int|
            0 <= i < children.len() ==> spacing_ok(#[trigger] children[i], sp.children[i]),
    }
}

/// A size as `=value unit`, with the white space of `sp` on both sides of `=`.
pub open spec fn print_size(size: Option<SizeModel>, sp: Spacing) -> Seq<char> {
    match size {
        Some(sz) => sp.before_eq + seq!['='] + sp.after_eq + sz.value + unit_text(sz.unit),
        None => Seq::empty(),
    }
}

/// A layout written as text: panel names bare where they can be, else between
/// `"` with `"` escaped; splits in parentheses with
/// their operator between children, sizes after `=`, and the white space of
/// `sp` around every parenthesis, operator and `=` inside the layout.
pub open spec fn print_item(it: ItemModel, sp: Spacing) -> Seq<char>
    decreases it,
{
    print_node(it.node, sp) + print_size(it.size, sp)
}

/// The node of a layout written as text, without its size.
pub open spec fn print_node(node: NodeModel, sp: Spacing) -> Seq<char>
    decreases node,
{
    match node {
        NodeModel::Panel { name } => if is_bare(name) {
            name
        } else {
            quoted(name, '"')
        },
        NodeModel::HSplit { children } => if children.len() == 0 {
            seq!['(', ')']
        } else {
            seq!['('] + sp.children[0].lead + print_item(children[0], sp.children[0])
                + sp.children[0].trail + print_tail(
                children.subrange(1, children.len() as int),
                sp.children.subrange(1, sp.children.len() as int),
                '|',
            ) + seq![')']
        },
        NodeModel::VSplit { children } => if children.len() == 0 {
            seq!['(', ')']
        } else {
            seq!['('] + sp.children[0].lead + print_item(children[0], sp.children[0])
                + sp.children[0].trail + print_tail(
                children.subrange(1, children.len() as int),
                sp.children.subrange(1, sp.children.len() as int),
                '/',
            ) + seq![')']
        },
    }
}

/// Each of `items` after `op`, with its spacing from `sps` around it.
pub open spec fn print_tail(items: Seq<ItemModel>, sps: Seq<Spacing>, op: char) -> Seq<char>
    decreases items,
{
    if items.len() == 0 {
        Seq::empty()
    } else {
        seq![op] + sps[0].lead + print_item(items[0], sps[0]) + sps[0].trail + print_tail(
            items.subrange(1, items.len() as int),
            sps.subrange(1, sps.len() as int),
            op,
        )
    }
}

/// A name that can be written without quotes: non-empty, and nothing in it
/// ends a bare name.
pub open spec fn is_bare(name: Seq<char>) -> bool {
    name.len() > 0 && forall|i: int| 0 <= i < name.len() ==> !is_word_stop(#[trigger] name[i])
}

/// A decimal literal: digits with at most one `.`, not `.` alone.
pub open spec fn literal_ok(v: Seq<char>) -> bool {
    &&& v.len() > 0
    &&& v != seq!['.']
    &&& forall|i: int| 0 <= i < v.len() ==> is_digit(#[trigger] v[i]) || v[i] == '.'
    &&& forall|i: int, j: int| #![trigger v[i], v[j]] 0 <= i < j < v.len() && v[i] == '.' ==> v[j] != '.'
}

/// The trees the printer writes back faithfully: panel names are bare words
/// or hold no backslash (they are then written between `"`, with `"` escaped),
/// size values are decimal literals, splits have two or more children.
pub open spec fn printable(it: ItemModel) -> bool
    decreases it,
{
    &&& (it.size matches Some(sz) ==> literal_ok(sz.value))
    &&& match it.node {
        NodeModel::Panel { name } => is_bare(name) || forall|i: int|
            0 <= i < name.len() ==> #[trigger] name[i] != '\\',
        NodeModel::HSplit { children } => children.len() >= 2 && forall|i: int|
            0 <= i < children.len() ==> printable(#[trigger] children[i]),
        NodeModel::VSplit { children } => children.len() >= 2 && forall|i: int|
            0 <= i < children.len() ==> printable(#[trigger] children[i]),
    }
}

/// `it` with every span erased.
pub open spec fn erase(it: ItemModel) -> ItemModel
    decreases it,
{
    ItemModel { node: erase_node(it.node), size: it.size, span: Span { start: 0, end: 0 } }
}

pub open spec fn erase_node(node: NodeModel) -> NodeModel
    decreases node,
{
    match node {
        NodeModel::Panel { name } => NodeModel::Panel { name },
        NodeModel::HSplit { children } => NodeModel::HSplit { children: erase_items(children) },
        NodeModel::VSplit { children } => NodeModel::VSplit { children: erase_items(children) },
    }
}

pub open spec fn erase_items(items: Seq<ItemModel>) -> Seq<ItemModel>
    decreases items,
{
    if items.len() == 0 {
        Seq::empty()
    } else {
        seq![erase(items[0])] + erase_items(items.subrange(1, items.len() as int))
    }
}

proof fn lemma_erase_items_cons(first: ItemModel, rest: Seq<ItemModel>)
    ensures
        erase_items(seq![first] + rest) == seq![erase(first)] + erase_items(rest),
{
    let cs = seq![first] + rest;
    assert(cs.subrange(1, cs.len() as int) =~= rest);
}

/// A scan that runs over `p..e` and stops at `e`.
proof fn lemma_scan_exact(s: Seq<char>, p: int, e: int, pred: spec_fn(char) -> bool)
    requires
        0 <= p <= e <= s.len(),
        forall|i: int| p <= i < e ==> #[trigger] pred(s[i]),
        e < s.len() ==> !pred(s[e]),
    ensures
        scan_while(s, p, pred) == e,
    decreases e - p,
{
    if p < e {
        lemma_scan_exact(s, p + 1, e, pred);
    }
}

/// The split node `op` makes of `children`.
pub open spec fn split_node(op: char, children: Seq<ItemModel>) -> NodeModel {
    if op == '|' {
        NodeModel::HSplit { children }
    } else {
        NodeModel::VSplit { children }
    }
}

/// In `t`, `w` stands at `e`, followed by nothing, by `)` or by an operator.
spec fn follows(t: Seq<char>, e: int, w: Seq<char>) -> bool {
    &&& 0 <= e
    &&& e + w.len() <= t.len()
    &&& t.subrange(e, e + w.len()) == w
    &&& e + w.len() < t.len() ==> is_closer(t[e + w.len()])
}

/// `u` stands in `t` at `k`.
spec fn stands_at(t: Seq<char>, k: int, u: Seq<char>) -> bool {
    &&& 0 <= k
    &&& k + u.len() <= t.len()
    &&& t.subrange(k, k + u.len()) == u
}

proof fn lemma_stands_index(t: Seq<char>, k: int, u: Seq<char>, i: int)
    requires
        stands_at(t, k, u),
        0 <= i < u.len(),
    ensures
        t[k + i] == u[i],
{
    assert(t.subrange(k, k + u.len())[i] == t[k + i]);
}

/// White space `w` at `e`, then a closer or the end: skipping white space from `e` passes `w`.
proof fn lemma_follow_skip(t: Seq<char>, e: int, w: Seq<char>)
    requires
        all_space(w),
        follows(t, e, w),
    ensures
        skip_ws(t, e) == e + w.len(),
        skip_ws(t, e + w.len()) == e + w.len(),
        e + w.len() < t.len() ==> !is_space(t[e + w.len()]) && !is_alpha(t[e + w.len()])
            && !is_digit(t[e + w.len()]) && t[e + w.len()] != '=' && t[e + w.len()] != '.'
            && is_word_stop(t[e + w.len()]),
{
    assert forall|i: int| e <= i < e + w.len() implies #[trigger] is_space(t[i]) by {
        assert(t.subrange(e, e + w.len())[i - e] == t[i]);
    }
    lemma_scan_exact(t, e, e + w.len(), |c: char| is_space(c));
    lemma_scan_exact(t, e + w.len(), e + w.len(), |c: char| is_space(c));
}

/// White space from `a` up to `b`, where something else stands.
proof fn lemma_spaces_to(t: Seq<char>, a: int, b: int)
    requires
        0 <= a <= b < t.len(),
        forall|i: int| a <= i < b ==> #[trigger] is_space(t[i]),
        !is_space(t[b]),
    ensures
        skip_ws(t, a) == b,
        skip_ws(t, b) == b,
{
    lemma_scan_exact(t, a, b, |c: char| is_space(c));
    lemma_scan_exact(t, b, b, |c: char| is_space(c));
}

/// `w` at `a`, followed by a character that is not white space.
proof fn lemma_ws_then(t: Seq<char>, a: int, w: Seq<char>)
    requires
        all_space(w),
        stands_at(t, a, w),
        a + w.len() < t.len(),
        !is_space(t[a + w.len()]),
    ensures
        skip_ws(t, a) == a + w.len(),
        skip_ws(t, a + w.len()) == a + w.len(),
{
    assert forall|i: int| a <= i < a + w.len() implies #[trigger] is_space(t[i]) by {
        lemma_stands_index(t, a, w, i - a);
    }
    lemma_spaces_to(t, a, a + w.len());
}

/// A unit written in `t` from `e` to `f`, not followed by a letter, reads back.
proof fn lemma_read_unit(t: Seq<char>, e: int, f: int, unit: Unit, value_byte: nat)
    requires
        stands_at(t, e, unit_text(unit)),
        f == e + unit_text(unit).len(),
        f < t.len() ==> !is_alpha(t[f]),
    ensures
        spec_unit(t, e, value_byte) == Ok::<(Unit, int), ErrorModel>((unit, f)),
{
    let u = unit_text(unit);
    assert forall|i: int| 0 <= i < u.len() implies t[e + i] == u[i] by {
        lemma_stands_index(t, e, u, i);
    }
    match unit {
        Unit::Fr => {
            assert(u != seq!['c', 'o', 'l'] && u != seq!['r', 'o', 'w'] && u != seq!['p', 'x']) by {
                assert(u[0] == 'f');
            }
        },
        Unit::Col => {
            assert(u != seq!['f', 'r'] && u != seq!['r', 'o', 'w'] && u != seq!['p', 'x']) by {
                assert(u[0] == 'c');
            }
        },
        Unit::Row => {
            assert(u != seq!['f', 'r'] && u != seq!['c', 'o', 'l'] && u != seq!['p', 'x']) by {
                assert(u[0] == 'r' && seq!['f', 'r'].len() == 2);
            }
        },
        Unit::Px => {
            assert(u != seq!['f', 'r'] && u != seq!['c', 'o', 'l'] && u != seq!['r', 'o', 'w']) by {
                assert(u[0] == 'p');
            }
        },
        Unit::Percent => {},
    }
    if unit != Unit::Percent {
        assert(forall|j: int| 0 <= j < u.len() ==> is_alpha(#[trigger] u[j])) by {
            assert(u.len() <= 3);
            assert(u.len() > 0 ==> is_alpha(u[0]));
            assert(u.len() > 1 ==> is_alpha(u[1]));
            assert(u.len() > 2 ==> is_alpha(u[2]));
        }
        assert forall|i: int| e <= i < f implies #[trigger] is_alpha(t[i]) by {
            assert(t[e + (i - e)] == u[i - e]);
        }
        lemma_scan_exact(t, e, f, |c: char| is_alpha(c));
        assert(t[e] != '%') by {
            assert(t[e + 0] == u[0]);
        }
        assert(alpha_end(t, e) == f);
        assert(peek(t, e) != Some('%'));
        assert(t.subrange(e, alpha_end(t, e)) =~= u);
    } else {
        assert(t[e + 0] == u[0]);
    }
}

/// A decimal literal written in `t` from `p1` to `e`, followed by a unit, reads back.
proof fn lemma_read_number(t: Seq<char>, p1: int, e: int, v: Seq<char>)
    requires
        literal_ok(v),
        stands_at(t, p1, v),
        e == p1 + v.len(),
        e < t.len(),
        !is_digit(t[e]),
        t[e] != '.',
    ensures
        spec_number(t, p1) == Ok::<(Seq<char>, int), ErrorModel>((v, e)),
{
    assert forall|i: int| 0 <= i < v.len() implies t[p1 + i] == v[i] by {
        lemma_stands_index(t, p1, v, i);
    }
    lemma_scan_bounds(t, p1, |c: char| is_digit(c));
    let q1 = digits_end(t, p1);
    if q1 > e {
        assert((|c: char| is_digit(c))(t[e]));
    }
    assert(q1 <= e);
    if q1 < e {
        assert(t[q1] == v[q1 - p1]);
        assert(t[q1] == '.');
        assert forall|i: int| q1 + 1 <= i < e implies #[trigger] is_digit(t[i]) by {
            assert(t[i] == v[i - p1]);
            assert(v[q1 - p1] == '.');
            assert(v[i - p1] != '.');
        }
        lemma_scan_exact(t, q1 + 1, e, |c: char| is_digit(c));
    }
    assert(number_end(t, p1) == e);
    assert(t.subrange(p1, e) =~= v);
    if e == p1 + 1 && t[p1] == '.' {
        assert(v =~= seq!['.']);
    }
}

/// A size written in `t` at `e` and followed by the trailing white space of
/// `sp` reads back, up to a position from which white space is skipped to the
/// end of that white space.
proof fn lemma_size_at(size: Option<SizeModel>, sp: Spacing, t: Seq<char>, e: int)
    requires
        all_space(sp.before_eq),
        all_space(sp.after_eq),
        all_space(sp.trail),
        size matches Some(sz) ==> literal_ok(sz.value),
        stands_at(t, e, print_size(size, sp)),
        follows(t, e + print_size(size, sp).len(), sp.trail),
    ensures
        spec_try_size(t, e) matches Ok((read, q)) && read == size && e <= q && skip_ws(t, q) == e
            + print_size(size, sp).len() + sp.trail.len(),
{
    let b = sp.before_eq;
    let a = sp.after_eq;
    let bl: int = b.len() as int;
    let al: int = a.len() as int;
    let sz_text = print_size(size, sp);
    let f = e + sz_text.len();
    lemma_follow_skip(t, f, sp.trail);
    match size {
        None => {},
        Some(sz) => {
            let v = sz.value;
            let u = unit_text(sz.unit);
            let eq = e + bl;
            let p1 = eq + 1 + al;
            let e2 = p1 + v.len();
            assert(sz_text =~= b + seq!['='] + a + v + u);
            let vl: int = v.len() as int;
            lemma_stands_part(t, e, sz_text, 0, bl);
            assert(sz_text.subrange(0, bl) =~= b);
            assert(t[eq] == '=') by {
                lemma_stands_index(t, e, sz_text, bl);
            }
            lemma_ws_then(t, e, b);
            lemma_stands_part(t, e, sz_text, bl + 1, bl + 1 + al);
            assert(sz_text.subrange(bl + 1, bl + 1 + al) =~= a);
            lemma_stands_part(t, e, sz_text, bl + 1 + al, bl + 1 + al + vl);
            assert(sz_text.subrange(bl + 1 + al, bl + 1 + al + vl) =~= v);
            lemma_stands_part(t, e, sz_text, bl + 1 + al + vl, sz_text.len() as int);
            assert(sz_text.subrange(bl + 1 + al + vl, sz_text.len() as int) =~= u);
            assert(t[p1] == v[0]) by {
                lemma_stands_index(t, p1, v, 0);
            }
            lemma_ws_then(t, eq + 1, a);
            assert(t[e2] == u[0]) by {
                lemma_stands_index(t, e2, u, 0);
            }
            lemma_read_number(t, p1, e2, v);
            lemma_read_unit(t, e2, f, sz.unit, byte_at(t, p1));
        },
    }
}

proof fn lemma_print_starts(it: ItemModel, sp: Spacing)
    requires
        printable(it),
    ensures
        print_item(it, sp).len() > 0,
        print_item(it, sp)[0] == '(' || print_item(it, sp)[0] == '"' || !is_word_stop(
            print_item(it, sp)[0],
        ),
{
    match it.node {
        NodeModel::Panel { name } => {
            if is_bare(name) {
                assert(print_item(it, sp)[0] == name[0]);
            } else {
                assert(print_item(it, sp)[0] == quoted(name, '"')[0]);
            }
        },
        _ => {},
    }
}

/// A name without backslashes, written between `"` with `"` escaped and
/// standing in `t` at `k`, reads back as a panel of that name.
proof fn lemma_quoted_at(name: Seq<char>, t: Seq<char>, k: int)
    requires
        forall|i: int| 0 <= i < name.len() ==> #[trigger] name[i] != '\\',
        stands_at(t, k, quoted(name, '"')),
    ensures
        spec_panel(t, k) == Ok::<(NodeModel, int), ErrorModel>(
            (NodeModel::Panel { name }, k + quoted(name, '"').len()),
        ),
{
    let qn = quoted(name, '"');
    let esc = escape(name, '"');
    let w = t.subrange(0, k + 1);
    let rest = t.subrange(k + qn.len(), t.len() as int);
    assert(qn =~= seq!['"'] + esc + seq!['"']);
    lemma_stands_index(t, k, qn, 0);
    let u = w + esc + seq!['"'] + rest;
    assert(t =~= u) by {
        assert forall|i: int| 0 <= i < t.len() implies t[i] == u[i] by {
            if k < i < k + qn.len() {
                lemma_stands_index(t, k, qn, i - k);
            }
        }
    }
    lemma_quoted_tail_reads_name(w, name, '"', rest, k);
    lemma_scan_exact(t, k, k, |c: char| is_space(c));
}

/// A printed item standing in `t` at `k`, after white space from `k0`, and
/// followed by its trailing white space reads back as itself, spans aside, up
/// to a position from which white space is skipped to the end of that white space.
proof fn lemma_item_at(it: ItemModel, sp: Spacing, t: Seq<char>, k0: int, k: int) -> (r: (
    ItemModel,
    int,
))
    requires
        printable(it),
        spacing_ok(it, sp),
        0 <= k0 <= k,
        forall|i: int| k0 <= i < k ==> #[trigger] is_space(t[i]),
        stands_at(t, k, print_item(it, sp)),
        follows(t, k + print_item(it, sp).len(), sp.trail),
    ensures
        spec_item(t, k0) == Ok::<(ItemModel, int), ErrorModel>(r),
        erase(r.0) == erase(it),
        k < r.1,
        skip_ws(t, r.1) == k + print_item(it, sp).len() + sp.trail.len(),
    decreases it, 1int,
{
    let s = print_item(it, sp);
    lemma_print_starts(it, sp);
    lemma_stands_index(t, k, s, 0);
    lemma_spaces_to(t, k0, k);
    match it.node {
        NodeModel::Panel { name } => {
            let nt = print_node(it.node, sp);
            let n = nt.len();
            let sz_text = print_size(it.size, sp);
            assert(s =~= nt + sz_text);
            lemma_stands_part(t, k, s, 0, n as int);
            assert(s.subrange(0, n as int) =~= nt);
            lemma_stands_part(t, k, s, n as int, s.len() as int);
            assert(s.subrange(n as int, s.len() as int) =~= sz_text);
            lemma_follow_skip(t, k + s.len(), sp.trail);
            if is_bare(name) {
                assert(nt == name);
                assert forall|i: int| 0 <= i < n implies !is_word_stop(#[trigger] t[k + i]) by {
                    lemma_stands_index(t, k, s, i);
                }
                if k + n < t.len() {
                    if sz_text.len() > 0 {
                        lemma_stands_index(t, k + n, sz_text, 0);
                        if sp.before_eq.len() > 0 {
                            assert(sz_text[0] == sp.before_eq[0]);
                        } else {
                            assert(sz_text[0] == '=');
                        }
                    } else {
                        assert(k + n == k + s.len());
                        if sp.trail.len() > 0 {
                            lemma_stands_index(t, k + n, sp.trail, 0);
                        }
                    }
                    assert(is_word_stop(t[k + n]));
                }
                assert forall|i: int| k <= i < k + n implies !is_word_stop(#[trigger] t[i]) by {
                    assert(t[k + (i - k)] == t[i]);
                }
                lemma_scan_exact(t, k, k + n, |c: char| !is_word_stop(c));
                assert(t.subrange(k, k + n) =~= name);
                assert(spec_word(t, k) == Ok::<(NodeModel, int), ErrorModel>(
                    (NodeModel::Panel { name }, k + n),
                ));
            } else {
                assert(nt == quoted(name, '"'));
                lemma_quoted_at(name, t, k);
            }
            assert(spec_panel(t, k) == Ok::<(NodeModel, int), ErrorModel>(
                (NodeModel::Panel { name }, k + n),
            ));
            lemma_size_at(it.size, sp, t, k + n);
            let q = spec_try_size(t, k + n)->Ok_0.1;
            (ItemModel { node: NodeModel::Panel { name }, size: it.size, span: Span {
                start: byte_at(t, k) as usize,
                end: byte_at(t, q) as usize,
            } }, q)
        },
        NodeModel::HSplit { children } => {
            lemma_split_at(it, children, '|', sp, t, k0, k)
        },
        NodeModel::VSplit { children } => {
            lemma_split_at(it, children, '/', sp, t, k0, k)
        },
    }
}

/// A group at `k`: its first item read up to `q`, from which white space is
/// skipped to `m`, where `op` stands; its other items read up to `r`, where `)` stands.
proof fn lemma_read_split(
    t: Seq<char>,
    k: int,
    p1: int,
    op: char,
    first: ItemModel,
    q: int,
    m: int,
    rest: Seq<ItemModel>,
    r: int,
)
    requires
        op == '|' || op == '/',
        0 <= k < p1 <= m < r < t.len(),
        t[p1] != ')',
        spec_item(t, p1) == Ok::<(ItemModel, int), ErrorModel>((first, q)),
        skip_ws(t, q) == m,
        t[m] == op,
        spec_children(t, op, m) == Ok::<(Seq<ItemModel>, int), ErrorModel>((rest, r)),
        t[r] == ')',
    ensures
        spec_group(t, k, p1) == Ok::<(ItemModel, int), ErrorModel>(
            (
                ItemModel {
                    node: split_node(op, seq![first] + rest),
                    size: None,
                    span: Span { start: byte_at(t, k) as usize, end: byte_at(t, r + 1) as usize },
                },
                r + 1,
            ),
        ),
{
    lemma_scan_exact(t, r, r, |c: char| is_space(c));
    assert(spec_split_tail(t, op, byte_at(t, k), first, m) == Ok::<(NodeModel, int), ErrorModel>(
        (split_node(op, seq![first] + rest), r + 1),
    ));
}

/// A group at `k`, after white space from `k0`, read up to `r`, followed by a size.
proof fn lemma_read_group_item(
    t: Seq<char>,
    k0: int,
    k: int,
    p1: int,
    node: NodeModel,
    r: int,
    size: Option<SizeModel>,
    q: int,
)
    requires
        0 <= k0 <= k < p1 <= t.len(),
        skip_ws(t, k0) == k,
        t[k] == '(',
        skip_ws(t, k + 1) == p1,
        spec_group(t, k, p1) matches Ok((g, q1)) && q1 == r && g.node == node && g.size is None,
        spec_try_size(t, r) == Ok::<(Option<SizeModel>, int), ErrorModel>((size, q)),
    ensures
        spec_item(t, k0) == Ok::<(ItemModel, int), ErrorModel>(
            (
                ItemModel {
                    node,
                    size,
                    span: Span { start: byte_at(t, k) as usize, end: byte_at(t, q) as usize },
                },
                q,
            ),
        ),
{
}

/// The layout of a printed split: `(`, the first child with its spacing,
/// the other children each after `op` with theirs, `)`, and the size.
proof fn lemma_split_layout(it: ItemModel, children: Seq<ItemModel>, op: char, sp: Spacing)
    requires
        printable(it),
        (op == '|' && it.node == NodeModel::HSplit { children }) || (op == '/' && it.node
            == NodeModel::VSplit { children }),
    ensures
        children.len() >= 2,
        ({
            let s = print_item(it, sp);
            let c = sp.children[0];
            let pc = print_item(children[0], c);
            let tail = print_tail(
                children.subrange(1, children.len() as int),
                sp.children.subrange(1, sp.children.len() as int),
                op,
            );
            let p1: int = 1 + c.lead.len() as int;
            let e: int = p1 + pc.len();
            let m: int = e + c.trail.len();
            let r: int = m + tail.len();
            &&& s[0] == '('
            &&& s.subrange(1, p1) == c.lead
            &&& s.subrange(p1, e) == pc
            &&& s.subrange(e, m) == c.trail
            &&& tail.len() > 0 && tail[0] == op
            &&& s.subrange(m, r) == tail
            &&& r < s.len() && s[r] == ')'
            &&& s.subrange(r + 1, s.len() as int) == print_size(it.size, sp)
        }),
{
    let s = print_item(it, sp);
    let c = sp.children[0];
    let first = children[0];
    let rest = children.subrange(1, children.len() as int);
    let pc = print_item(first, c);
    let tail = print_tail(rest, sp.children.subrange(1, sp.children.len() as int), op);
    let g = seq!['('] + c.lead + pc + c.trail + tail + seq![')'];
    assert(print_node(it.node, sp) == g);
    assert(s =~= g + print_size(it.size, sp));
    let p1: int = 1 + c.lead.len() as int;
    let e: int = p1 + pc.len();
    let m: int = e + c.trail.len();
    let r: int = m + tail.len();
    assert(s.subrange(1, p1) =~= c.lead);
    assert(s.subrange(p1, e) =~= pc);
    assert(s.subrange(e, m) =~= c.trail);
    assert(s.subrange(m, r) =~= tail);
    assert(s.subrange(r + 1, s.len() as int) =~= print_size(it.size, sp));
    assert(rest.len() > 0);
    assert(tail[0] == op);
}

/// Where `u` stands in `t` at `k`, a part of `u` stands at the matching place.
proof fn lemma_stands_part(t: Seq<char>, k: int, u: Seq<char>, a: int, b: int)
    requires
        stands_at(t, k, u),
        0 <= a <= b <= u.len(),
    ensures
        stands_at(t, k + a, u.subrange(a, b)),
{
    assert(t.subrange(k + a, k + b) =~= u.subrange(a, b)) by {
        assert forall|i: int| 0 <= i < b - a implies t.subrange(k + a, k + b)[i] == u.subrange(
            a,
            b,
        )[i] by {
            lemma_stands_index(t, k, u, a + i);
        }
    }
}

#[verifier::rlimit(40)]
proof fn lemma_split_at(
    it: ItemModel,
    children: Seq<ItemModel>,
    op: char,
    sp: Spacing,
    t: Seq<char>,
    k0: int,
    k: int,
) -> (r: (ItemModel, int))
    requires
        printable(it),
        spacing_ok(it, sp),
        (op == '|' && it.node == NodeModel::HSplit { children }) || (op == '/' && it.node
            == NodeModel::VSplit { children }),
        0 <= k0 <= k,
        skip_ws(t, k0) == k,
        stands_at(t, k, print_item(it, sp)),
        follows(t, k + print_item(it, sp).len(), sp.trail),
    ensures
        spec_item(t, k0) == Ok::<(ItemModel, int), ErrorModel>(r),
        erase(r.0) == erase(it),
        k < r.1,
        skip_ws(t, r.1) == k + print_item(it, sp).len() + sp.trail.len(),
    decreases it, 0int,
{
    lemma_split_layout(it, children, op, sp);
    let s = print_item(it, sp);
    let c = sp.children[0];
    let sps = sp.children.subrange(1, sp.children.len() as int);
    let first = children[0];
    let rest = children.subrange(1, children.len() as int);
    let pc = print_item(first, c);
    let pl: int = pc.len() as int;
    let ll: int = c.lead.len() as int;
    let tl: int = c.trail.len() as int;
    let tail = print_tail(rest, sps, op);
    let p1: int = k + 1 + ll;
    let e: int = p1 + pl;
    let m: int = e + tl;
    let r: int = m + tail.len();
    assert(printable(first));
    assert(spacing_ok(first, c));
    assert forall|i: int| 0 <= i < rest.len() implies printable(#[trigger] rest[i]) && spacing_ok(
        rest[i],
        sps[i],
    ) by {
        assert(rest[i] == children[i + 1]);
        assert(sps[i] == sp.children[i + 1]);
    }
    lemma_stands_index(t, k, s, 0);
    lemma_stands_part(t, k, s, 1, 1 + ll);
    lemma_stands_part(t, k, s, 1 + ll, 1 + ll + pl);
    lemma_stands_part(t, k, s, 1 + ll + pl, 1 + ll + pl + tl);
    lemma_stands_part(t, k, s, 1 + ll + pl + tl, r - k);
    lemma_stands_part(t, k, s, r - k + 1, s.len() as int);
    lemma_stands_index(t, k, s, r - k);
    lemma_stands_index(t, k, s, m - k);
    // the first child, after `(` and its leading white space, followed by its trailing white space and `op`
    lemma_print_starts(first, c);
    lemma_stands_index(t, p1, pc, 0);
    lemma_ws_then(t, k + 1, c.lead);
    assert(follows(t, e, c.trail));
    let (read_first, q) = lemma_item_at(first, c, t, p1, p1);
    // the other children
    lemma_tail_at(rest, sps, op, t, m);
    let read_rest = spec_children(t, op, m)->Ok_0.0;
    lemma_read_split(t, k, p1, op, read_first, q, m, read_rest, r);
    // the size
    assert(s.len() == r - k + 1 + print_size(it.size, sp).len());
    lemma_size_at(it.size, sp, t, r + 1);
    let q2 = spec_try_size(t, r + 1)->Ok_0.1;
    let children2 = seq![read_first] + read_rest;
    lemma_read_group_item(t, k0, k, p1, split_node(op, children2), r + 1, it.size, q2);
    // the tree read back, spans aside
    lemma_erase_items_cons(read_first, read_rest);
    assert(children =~= seq![first] + rest);
    lemma_erase_items_cons(first, rest);
    (ItemModel { node: split_node(op, children2), size: it.size, span: Span {
        start: byte_at(t, k) as usize,
        end: byte_at(t, q2) as usize,
    } }, q2)
}

/// One more child: `op` at `pos`, an item read up to `q`, white space to `q1`, then the others.
proof fn lemma_read_children_cons(
    t: Seq<char>,
    op: char,
    pos: int,
    c: ItemModel,
    q: int,
    q1: int,
    cs: Seq<ItemModel>,
    r: int,
)
    requires
        0 <= pos < q1 <= t.len(),
        t[pos] == op,
        spec_item(t, pos + 1) == Ok::<(ItemModel, int), ErrorModel>((c, q)),
        skip_ws(t, q) == q1,
        spec_children(t, op, q1) == Ok::<(Seq<ItemModel>, int), ErrorModel>((cs, r)),
    ensures
        spec_children(t, op, pos) == Ok::<(Seq<ItemModel>, int), ErrorModel>((seq![c] + cs, r)),
{
}

/// Children after the first, each after `op` with its spacing around it,
/// written in `t` from `pos` and closed by `)`.
proof fn lemma_tail_at(
    items: Seq<ItemModel>,
    sps: Seq<Spacing>,
    op: char,
    t: Seq<char>,
    pos: int,
)
    requires
        sps.len() == items.len(),
        forall|i: int| 0 <= i < items.len() ==> printable(#[trigger] items[i]) && spacing_ok(
            items[i],
            sps[i],
        ),
        op == '|' || op == '/',
        stands_at(t, pos, print_tail(items, sps, op)),
        pos + print_tail(items, sps, op).len() < t.len(),
        t[pos + print_tail(items, sps, op).len()] == ')',
    ensures
        spec_children(t, op, pos) matches Ok((read, r)) && r == pos + print_tail(items, sps, op).len()
            && erase_items(read) == erase_items(items),
    decreases items, 0int,
{
    let tail = print_tail(items, sps, op);
    if items.len() == 0 {
        assert(t[pos] == ')');
    } else {
        let first = items[0];
        let c = sps[0];
        let rest = items.subrange(1, items.len() as int);
        let sps2 = sps.subrange(1, sps.len() as int);
        let pc = print_item(first, c);
        let pl: int = pc.len() as int;
        let ll: int = c.lead.len() as int;
        let tl: int = c.trail.len() as int;
        let tail2 = print_tail(rest, sps2, op);
        assert(tail =~= seq![op] + c.lead + pc + c.trail + tail2);
        let k = pos + 1 + ll;
        let e = k + pl;
        let m = e + tl;
        assert(printable(first) && spacing_ok(first, c));
        lemma_stands_index(t, pos, tail, 0);
        lemma_stands_part(t, pos, tail, 1, 1 + ll);
        lemma_stands_part(t, pos, tail, 1 + ll, 1 + ll + pl);
        lemma_stands_part(t, pos, tail, 1 + ll + pl, 1 + ll + pl + tl);
        lemma_stands_part(t, pos, tail, 1 + ll + pl + tl, tail.len() as int);
        assert(tail.subrange(1, 1 + ll) =~= c.lead);
        assert(tail.subrange(1 + ll, 1 + ll + pl) =~= pc);
        assert(tail.subrange(1 + ll + pl, 1 + ll + pl + tl) =~= c.trail);
        assert(tail.subrange(1 + ll + pl + tl, tail.len() as int) =~= tail2);
        if tail2.len() > 0 {
            assert(tail2[0] == op);
            lemma_stands_index(t, m, tail2, 0);
        }
        assert(follows(t, e, c.trail));
        assert forall|i: int| pos + 1 <= i < k implies #[trigger] is_space(t[i]) by {
            lemma_stands_index(t, pos + 1, c.lead, i - pos - 1);
        }
        let (read_first, q) = lemma_item_at(first, c, t, pos + 1, k);
        assert forall|i: int| 0 <= i < rest.len() implies printable(#[trigger] rest[i])
            && spacing_ok(rest[i], sps2[i]) by {
            assert(rest[i] == items[i + 1]);
            assert(sps2[i] == sps[i + 1]);
        }
        lemma_tail_at(rest, sps2, op, t, m);
        let read_rest = spec_children(t, op, m)->Ok_0.0;
        lemma_read_children_cons(t, op, pos, read_first, q, m, read_rest, m + tail2.len());
        lemma_erase_items_cons(read_first, read_rest);
        assert(items =~= seq![first] + rest);
        lemma_erase_items_cons(first, rest);
    }
}

/// Parsing the text the printer writes for a printable tree, with any white
/// space around each parenthesis, operator and `=` and at both ends, gives
/// that tree back, spans aside.
pub proof fn law_print_parse_round_trip(it: ItemModel, sp: Spacing)
    requires
        printable(it),
        spacing_ok(it, sp),
    ensures
        spec_parse(sp.lead + print_item(it, sp) + sp.trail) matches Ok(read) && erase(read)
            == erase(it),
{
    let s = print_item(it, sp);
    let t = sp.lead + s + sp.trail;
    let k = sp.lead.len() as int;
    assert(stands_at(t, k, s)) by {
        assert(t.subrange(k, k + s.len()) =~= s);
    }
    assert(follows(t, k + s.len(), sp.trail)) by {
        assert(t.subrange(k + s.len(), k + s.len() + sp.trail.len()) =~= sp.trail);
    }
    assert forall|i: int| 0 <= i < k implies #[trigger] is_space(t[i]) by {
        assert(t[i] == sp.lead[i]);
    }
    let (read, q) = lemma_item_at(it, sp, t, 0, k);
}

proof fn lemma_erase_items_index(items: Seq<ItemModel>)
    ensures
        erase_items(items).len() == items.len(),
        forall|i: int| 0 <= i < items.len() ==> #[trigger] erase_items(items)[i] == erase(items[i]),
    decreases items,
{
    if items.len() > 0 {
        let rest = items.subrange(1, items.len() as int);
        lemma_erase_items_index(rest);
        assert forall|i: int| 0 <= i < items.len() implies #[trigger] erase_items(items)[i] == erase(
            items[i],
        ) by {
            if i > 0 {
                assert(rest[i - 1] == items[i]);
            }
        }
    }
}

/// The characters that end a bare panel name: white space, `|`, `/`, `(`,
/// `)`, `=`, `:` and the two quotes.
pub open spec fn ends_name(c: char) -> bool {
    is_space(c) || c == '|' || c == '/' || c == '(' || c == ')' || c == '=' || c == ':' || c == '"'
        || c == '\''
}

/// A bare panel name is read up to the first character that ends a name and
/// no further: a non-empty word `w` free of those characters is read whole,
/// whether the text ends after it or goes on with such a character.
pub proof fn law_bare_name(w: Seq<char>, c: char, rest: Seq<char>)
    requires
        w.len() > 0,
        forall|i: int| 0 <= i < w.len() ==> !ends_name(#[trigger] w[i]),
        ends_name(c),
    ensures
        spec_word(w + seq![c] + rest, 0) == Ok::<(NodeModel, int), ErrorModel>(
            (NodeModel::Panel { name: w }, w.len() as int),
        ),
        spec_word(w, 0) == Ok::<(NodeModel, int), ErrorModel>(
            (NodeModel::Panel { name: w }, w.len() as int),
        ),
{
    let t = w + seq![c] + rest;
    assert forall|i: int| 0 <= i < w.len() implies !is_word_stop(#[trigger] t[i]) by {
        assert(t[i] == w[i]);
    }
    assert(t[w.len() as int] == c);
    lemma_scan_exact(t, 0, w.len() as int, |c: char| !is_word_stop(c));
    assert(t.subrange(0, w.len() as int) =~= w);
    assert forall|i: int| 0 <= i < w.len() implies !is_word_stop(#[trigger] w[i]) by {}
    lemma_scan_exact(w, 0, w.len() as int, |c: char| !is_word_stop(c));
    assert(w.subrange(0, w.len() as int) =~= w);
}

/// The spacing with no white space anywhere, for a panel.
pub open spec fn tight() -> Spacing {
    Spacing {
        lead: Seq::empty(),
        trail: Seq::empty(),
        before_eq: Seq::empty(),
        after_eq: Seq::empty(),
        children: Seq::empty(),
    }
}

pub open spec fn panel(name: Seq<char>, size: Option<SizeModel>) -> ItemModel {
    ItemModel { node: NodeModel::Panel { name }, size, span: Span { start: 0, end: 0 } }
}

/// A non-empty word free of the characters that end a name, written as the
/// first panel of a `|` split, reads back as that panel: `(w|x)` is a
/// horizontal split of the panels `w` and `x`.
pub proof fn law_bare_name_in_split(w: Seq<char>)
    requires
        w.len() > 0,
        forall|i: int| 0 <= i < w.len() ==> !ends_name(#[trigger] w[i]),
    ensures
        spec_parse(seq!['('] + w + seq!['|', 'x', ')']) matches Ok(read) && read.node matches NodeModel::HSplit {
            children,
        } && children.len() == 2 && children[0].node == (NodeModel::Panel { name: w })
            && children[1].node == (NodeModel::Panel { name: seq!['x'] }),
{
    let x = seq!['x'];
    let pw = panel(w, None);
    let px = panel(x, None);
    let kids = seq![pw, px];
    let it = ItemModel { node: NodeModel::HSplit { children: kids }, size: None, span: Span { start: 0, end: 0 } };
    let sp = Spacing { children: seq![tight(), tight()], ..tight() };
    assert(is_bare(w));
    assert(is_bare(x)) by {
        assert(x[0] == 'x');
    }
    assert(printable(kids[0]) && printable(kids[1]));
    assert(forall|i: int| 0 <= i < kids.len() ==> printable(#[trigger] kids[i]));
    assert(printable(it));
    assert(all_space(Seq::<char>::empty()));
    assert(spacing_ok(pw, tight()) && spacing_ok(px, tight()));
    assert(forall|i: int| 0 <= i < kids.len() ==> spacing_ok(#[trigger] kids[i], sp.children[i]));
    assert(spacing_ok(it, sp));
    assert(print_item(pw, tight()) =~= w);
    assert(print_item(px, tight()) =~= x);
    let rest = kids.subrange(1, 2);
    assert(rest =~= seq![px]);
    assert(sp.children.subrange(1, 2) =~= seq![tight()]);
    assert(print_tail(rest.subrange(1, 1), seq![tight()].subrange(1, 1), '|') =~= Seq::<char>::empty());
    assert(print_tail(rest, seq![tight()], '|') =~= seq!['|'] + x);
    let t = seq!['('] + w + seq!['|', 'x', ')'];
    assert(print_item(it, sp) =~= t);
    assert(sp.lead + print_item(it, sp) + sp.trail =~= t);
    law_print_parse_round_trip(it, sp);
    let read = spec_parse(t)->Ok_0;
    if let NodeModel::HSplit { children } = read.node {
        lemma_erase_items_index(children);
        lemma_erase_items_index(kids);
        assert(erase_items(children) == erase_items(kids));
        assert(erase_items(children)[0] == erase(pw));
        assert(erase_items(children)[1] == erase(px));
    } else {
        assert(erase_node(read.node) == erase_node(it.node));
    }
}

/// A decimal literal: ASCII digits `0` to `9` with at most one `.`, not `.` alone.
pub open spec fn decimal_literal(v: Seq<char>) -> bool {
    &&& v.len() > 0
    &&& v != seq!['.']
    &&& forall|i: int| 0 <= i < v.len() ==> ('0' <= #[trigger] v[i] <= '9') || v[i] == '.'
    &&& forall|i: int, j: int| #![trigger v[i], v[j]] 0 <= i < j < v.len() && v[i] == '.' ==> v[j] != '.'
}

/// A size value is read as the whole decimal literal that stands there, up to
/// the first character that is neither an ASCII digit nor `.`.
pub proof fn law_number_literal(v: Seq<char>, c: char, rest: Seq<char>)
    requires
        decimal_literal(v),
        !('0' <= c <= '9'),
        c != '.',
    ensures
        spec_number(v + seq![c] + rest, 0) == Ok::<(Seq<char>, int), ErrorModel>((v, v.len() as int)),
{
    let t = v + seq![c] + rest;
    assert forall|i: int| 0 <= i < v.len() implies is_digit(#[trigger] v[i]) || v[i] == '.' by {}
    assert(literal_ok(v));
    assert(stands_at(t, 0, v)) by {
        assert(t.subrange(0, v.len() as int) =~= v);
    }
    assert(t[v.len() as int] == c);
    lemma_read_number(t, 0, v.len() as int, v);
}

/// A split that starts with one operator and then meets the other operator at
/// its own level is refused as mixing operators, whichever operator it started
/// with: `(a op b other ...` fails with kind `MixedOperators`, pointing at `other`.
pub proof fn law_mixed_operators(
    a: ItemModel,
    sa: Spacing,
    b: ItemModel,
    sb: Spacing,
    op: char,
    rest: Seq<char>,
)
    requires
        printable(a),
        spacing_ok(a, sa),
        printable(b),
        spacing_ok(b, sb),
        op == '|' || op == '/',
    ensures
        ({
            let other = if op == '|' {
                '/'
            } else {
                '|'
            };
            let front = seq!['('] + sa.lead + print_item(a, sa) + sa.trail + seq![op] + sb.lead
                + print_item(b, sb) + sb.trail;
            let t = front + seq![other] + rest;
            spec_parse(t) matches Err(e) && e.kind == KindModel::MixedOperators && e.span.start
                == byte_at(t, front.len() as int) as usize
        }),
{
    let other = if op == '|' {
        '/'
    } else {
        '|'
    };
    let pa = print_item(a, sa);
    let pb = print_item(b, sb);
    let front = seq!['('] + sa.lead + pa + sa.trail + seq![op] + sb.lead + pb + sb.trail;
    let t = front + seq![other] + rest;
    let k1: int = 1 + sa.lead.len() as int;
    let e1: int = k1 + pa.len();
    let m: int = e1 + sa.trail.len();
    let k2: int = m + 1 + sb.lead.len();
    let e2: int = k2 + pb.len();
    let o: int = e2 + sb.trail.len();
    assert(o == front.len());
    lemma_mixed_pieces(sa.lead, pa, sa.trail, op, sb.lead, pb, sb.trail, other, rest);
    // the first item, read from the first non-space position after `(`
    lemma_print_starts(a, sa);
    lemma_stands_index(t, k1, pa, 0);
    lemma_ws_then(t, 1, sa.lead);
    let (ra, qa) = lemma_item_at(a, sa, t, k1, k1);
    // the second item, after `op`
    lemma_print_starts(b, sb);
    lemma_stands_index(t, k2, pb, 0);
    assert forall|i: int| m + 1 <= i < k2 implies #[trigger] is_space(t[i]) by {
        lemma_stands_index(t, m + 1, sb.lead, i - m - 1);
    }
    let (rb, qb) = lemma_item_at(b, sb, t, m + 1, k2);
    lemma_follow_skip(t, e2, sb.trail);
    lemma_mixed_error(t, op, other, k1, ra, qa, m, rb, qb, o);
}

/// Where the pieces of `( a op b other rest` stand.
proof fn lemma_mixed_pieces(
    la: Seq<char>,
    pa: Seq<char>,
    ta: Seq<char>,
    op: char,
    lb: Seq<char>,
    pb: Seq<char>,
    tb: Seq<char>,
    other: char,
    rest: Seq<char>,
)
    requires
        op == '|' || op == '/',
        other == '|' || other == '/',
    ensures
        ({
            let t = seq!['('] + la + pa + ta + seq![op] + lb + pb + tb + seq![other] + rest;
            let k1: int = 1 + la.len() as int;
            let e1: int = k1 + pa.len();
            let m: int = e1 + ta.len();
            let k2: int = m + 1 + lb.len();
            let e2: int = k2 + pb.len();
            let o: int = e2 + tb.len();
            &&& t[0] == '('
            &&& stands_at(t, 1, la)
            &&& stands_at(t, k1, pa)
            &&& follows(t, e1, ta)
            &&& t[m] == op
            &&& stands_at(t, m + 1, lb)
            &&& stands_at(t, k2, pb)
            &&& follows(t, e2, tb)
            &&& o < t.len() && t[o] == other
        }),
{
    let t = seq!['('] + la + pa + ta + seq![op] + lb + pb + tb + seq![other] + rest;
    let k1: int = 1 + la.len() as int;
    let e1: int = k1 + pa.len();
    let m: int = e1 + ta.len();
    let k2: int = m + 1 + lb.len();
    let e2: int = k2 + pb.len();
    let o: int = e2 + tb.len();
    assert(t.subrange(1, k1) =~= la);
    assert(t.subrange(k1, e1) =~= pa);
    assert(t.subrange(e1, m) =~= ta);
    assert(t[m] == op);
    assert(t.subrange(m + 1, k2) =~= lb);
    assert(t.subrange(k2, e2) =~= pb);
    assert(t.subrange(e2, o) =~= tb);
    assert(t[o] == other);
}

/// `( a op b other`: the split reads `a` and `b`, then meets `other`.
proof fn lemma_mixed_error(
    t: Seq<char>,
    op: char,
    other: char,
    k1: int,
    ra: ItemModel,
    qa: int,
    m: int,
    rb: ItemModel,
    qb: int,
    o: int,
)
    requires
        (op == '|' && other == '/') || (op == '/' && other == '|'),
        0 < k1 <= m < o < t.len(),
        t[0] == '(',
        skip_ws(t, 1) == k1,
        t[k1] != ')',
        spec_item(t, k1) == Ok::<(ItemModel, int), ErrorModel>((ra, qa)),
        skip_ws(t, qa) == m,
        t[m] == op,
        spec_item(t, m + 1) == Ok::<(ItemModel, int), ErrorModel>((rb, qb)),
        skip_ws(t, qb) == o,
        skip_ws(t, o) == o,
        t[o] == other,
    ensures
        spec_parse(t) matches Err(e) && e.kind == KindModel::MixedOperators && e.span.start
            == byte_at(t, o) as usize,
{
    assert(spec_children(t, op, o) == Ok::<(Seq<ItemModel>, int), ErrorModel>((Seq::empty(), o)));
    assert(spec_children(t, op, m) == Ok::<(Seq<ItemModel>, int), ErrorModel>(
        (seq![rb] + Seq::<ItemModel>::empty(), o),
    ));
    assert(spec_split_tail(t, op, byte_at(t, 0), ra, m) == Err::<(NodeModel, int), ErrorModel>(
        err_here(t, o, KindModel::MixedOperators, mixed_message(op)),
    ));
    assert(spec_group(t, 0, k1) == Err::<(ItemModel, int), ErrorModel>(
        err_here(t, o, KindModel::MixedOperators, mixed_message(op)),
    ));
    lemma_scan_exact(t, 0, 0, |c: char| is_space(c));
    assert(skip_ws(t, 0) == 0);
    assert(spec_item(t, 0) == Err::<(ItemModel, int), ErrorModel>(
        err_here(t, o, KindModel::MixedOperators, mixed_message(op)),
    ));
}

} // verus!
