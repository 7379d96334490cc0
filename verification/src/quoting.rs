//! Quoted panel names: a name written between quotes, with its quote
//! characters escaped by a backslash, reads back as itself.
use vstd::prelude::*;

use crate::ast::{ItemModel, NodeModel, Span};
use crate::error::ErrorModel;
use crate::spec::{spec_parse, spec_quoted, spec_quoted_tail, spec_try_size, skip_ws, peek};
use crate::text::{byte_at, utf8_len};

verus! {

/// `name` with every `quote` character preceded by a backslash.
pub open spec fn escape(name: Seq<char>, quote: char) -> Seq<char>
    decreases name.len(),
{
    if name.len() == 0 {
        Seq::empty()
    } else {
        (if name[0] == quote {
            seq!['\\', quote]
        } else {
            seq![name[0]]
        }) + escape(name.drop_first(), quote)
    }
}

/// `name` written between `quote` characters, its quotes escaped.
pub open spec fn quoted(name: Seq<char>, quote: char) -> Seq<char> {
    seq![quote] + escape(name, quote) + seq![quote]
}

pub proof fn lemma_quoted_tail_reads_name(
    w: Seq<char>,
    name: Seq<char>,
    quote: char,
    rest: Seq<char>,
    start: int,
)
    requires
        forall|i: int| 0 <= i < name.len() ==> #[trigger] name[i] != '\\',
        quote != '\\',
    ensures
        spec_quoted_tail(w + escape(name, quote) + seq![quote] + rest, quote, start, w.len() as int)
            == Ok::<(Seq<char>, int), ErrorModel>(
            (name, w.len() + escape(name, quote).len() + 1int),
        ),
    decreases name.len(),
{
    let t = w + escape(name, quote) + seq![quote] + rest;
    let i = w.len() as int;
    if name.len() == 0 {
        assert(escape(name, quote) =~= Seq::<char>::empty());
        assert(t[i] == quote);
        assert(name =~= Seq::<char>::empty());
    } else {
        let tail = name.drop_first();
        assert forall|j: int| 0 <= j < tail.len() implies #[trigger] tail[j] != '\\' by {
            assert(tail[j] == name[j + 1]);
        }
        assert(name[0] != '\\');
        if name[0] == quote {
            let w2 = w + seq!['\\', quote];
            assert(escape(name, quote) == seq!['\\', quote] + escape(tail, quote));
            assert(t =~= w2 + escape(tail, quote) + seq![quote] + rest);
            assert(t[i] == '\\');
            assert(t[i + 1] == quote);
            lemma_quoted_tail_reads_name(w2, tail, quote, rest, start);
            assert(seq![quote] + tail =~= name);
        } else {
            let w2 = w + seq![name[0]];
            assert(escape(name, quote) == seq![name[0]] + escape(tail, quote));
            assert(t =~= w2 + escape(tail, quote) + seq![quote] + rest);
            assert(t[i] == name[0]);
            lemma_quoted_tail_reads_name(w2, tail, quote, rest, start);
            assert(seq![name[0]] + tail =~= name);
        }
    }
}

/// A name without backslashes, quoted with its quote characters escaped,
/// reads back as itself, whatever follows the closing quote; and as a whole
/// layout it is a single panel of that name spanning the text.
pub proof fn law_quoted_round_trip(name: Seq<char>, quote: char, rest: Seq<char>)
    requires
        quote == '"' || quote == '\'',
        forall|i: int| 0 <= i < name.len() ==> #[trigger] name[i] != '\\',
    ensures
        spec_quoted(quoted(name, quote) + rest, 0) == Ok::<(NodeModel, int), ErrorModel>(
            (NodeModel::Panel { name }, quoted(name, quote).len() as int),
        ),
        spec_parse(quoted(name, quote)) == Ok::<ItemModel, ErrorModel>(
            (ItemModel {
                node: NodeModel::Panel { name },
                size: None,
                span: Span { start: 0, end: utf8_len(quoted(name, quote)) as usize },
            }),
        ),
{
    let t = quoted(name, quote) + rest;
    assert(t =~= seq![quote] + escape(name, quote) + seq![quote] + rest);
    assert(t[0] == quote);
    lemma_quoted_tail_reads_name(seq![quote], name, quote, rest, 0);
    let u = quoted(name, quote);
    assert(u =~= seq![quote] + escape(name, quote) + seq![quote] + Seq::<char>::empty());
    lemma_quoted_tail_reads_name(seq![quote], name, quote, Seq::empty(), 0);
    assert(u[0] == quote);
    assert(skip_ws(u, 0) == 0);
    assert(skip_ws(u, u.len() as int) == u.len());
    assert(peek(u, u.len() as int) is None);
    assert(spec_try_size(u, u.len() as int) == Ok::<(Option<crate::ast::SizeModel>, int), ErrorModel>(
        (None, u.len() as int),
    ));
    assert(u.take(0) =~= Seq::<char>::empty());
    assert(u.take(u.len() as int) =~= u);
    assert(utf8_len(Seq::<char>::empty()) == 0);
    assert(byte_at(u, 0) == 0);
}

} // verus!
