//! Recursive-descent parser for Panel Layout Notation, proved to compute
//! [`crate::spec::spec_parse`].
use vstd::prelude::*;

use crate::ast::{
    items_model, lemma_items_model_push, Item, ItemModel, Node, NodeModel, Size, SizeModel, Span,
    Unit,
};
use crate::error::{ErrorKind, ErrorModel, ParseError};
use crate::spec::{
    alpha_end, digits_end, err_at, number_end, err_here, lemma_scan_bounds, skip_ws, spec_children,
    spec_group, spec_item, spec_number, spec_panel, spec_parse, spec_quoted, spec_quoted_tail,
    spec_split_tail, spec_try_size, spec_unit, spec_word, word_end,
};
use crate::structure::{item_wf, lemma_parse_well_formed};
use crate::text::{
    byte_at, char_len_utf8, chars_of, is_ascii_alphabetic, is_ascii_digit, is_space,
    is_whitespace, is_word_terminator, lemma_byte_at_end, lemma_byte_at_mono, lemma_byte_at_step,
    lemma_str_len, push_char, string_from_chars, string_of, utf8_len,
};

verus! {

fn unclosed_string_message(quote: char) -> (m: String)
    ensures
        m@ == "unclosed string — expected closing "@.push(quote),
{
    let mut m = string_of("unclosed string — expected closing ");
    push_char(&mut m, quote);
    m
}

/// The model of a parse result.
pub open spec fn parse_result(r: Result<Item, ParseError>) -> Result<ItemModel, ErrorModel> {
    match r {
        Ok(it) => Ok(it@),
        Err(e) => Err(e@),
    }
}

/// Models of partial results, with the position reached on success.
pub open spec fn item_result(r: Result<Item, ParseError>, q: int) -> Result<(ItemModel, int), ErrorModel> {
    match r {
        Ok(it) => Ok((it@, q)),
        Err(e) => Err(e@),
    }
}

pub open spec fn node_result(r: Result<Node, ParseError>, q: int) -> Result<(NodeModel, int), ErrorModel> {
    match r {
        Ok(n) => Ok((n@, q)),
        Err(e) => Err(e@),
    }
}

pub open spec fn text_result(r: Result<String, ParseError>, q: int) -> Result<(Seq<char>, int), ErrorModel> {
    match r {
        Ok(t) => Ok((t@, q)),
        Err(e) => Err(e@),
    }
}

pub open spec fn unit_result(r: Result<Unit, ParseError>, q: int) -> Result<(Unit, int), ErrorModel> {
    match r {
        Ok(u) => Ok((u, q)),
        Err(e) => Err(e@),
    }
}

pub open spec fn size_result(r: Result<Option<Size>, ParseError>, q: int) -> Result<
    (Option<SizeModel>, int),
    ErrorModel,
> {
    match r {
        Ok(Some(sz)) => Ok((Some(sz@), q)),
        Ok(None) => Ok((None, q)),
        Err(e) => Err(e@),
    }
}

/// `acc` followed by the characters of a successful result.
pub open spec fn prefixed_text(acc: Seq<char>, r: Result<(Seq<char>, int), ErrorModel>) -> Result<
    (Seq<char>, int),
    ErrorModel,
> {
    match r {
        Ok((rest, q)) => Ok((acc + rest, q)),
        Err(e) => Err(e),
    }
}

/// `acc` followed by the items of a successful result.
pub open spec fn prefixed_items(acc: Seq<ItemModel>, r: Result<(Seq<ItemModel>, int), ErrorModel>) -> Result<
    (Seq<ItemModel>, int),
    ErrorModel,
> {
    match r {
        Ok((rest, q)) => Ok((acc + rest, q)),
        Err(e) => Err(e),
    }
}

/// Parse a PLN layout string into an AST.
///
/// The result is [`spec_parse`] of the input's characters; a layout is well
/// formed and lies within the input.
pub fn parse(input: &str) -> (r: Result<Item, ParseError>)
    ensures
        parse_result(r) == spec_parse(input@),
        r matches Ok(item) ==> item_wf(item@) && item@.span.end <= utf8_len(input@),
        utf8_len(input@) <= usize::MAX,
{
    let chars = chars_of(input);
    let byte_len = input.as_bytes().len();
    proof {
        lemma_str_len(input);
        assert(utf8_len(Seq::<char>::empty()) == 0);
        lemma_parse_well_formed(input@);
        assert(chars@.take(0) =~= Seq::<char>::empty());
    }
    let mut parser = Parser { chars, pos: 0, byte_pos: 0, byte_len };
    let item = match parser.parse_item() {
        Ok(it) => it,
        Err(e) => return Err(e),
    };
    parser.skip_whitespace();
    if parser.pos < parser.chars.len() {
        return Err(parser.error(ErrorKind::TrailingInput, "unexpected input after layout"));
    }
    Ok(item)
}

struct Parser {
    chars: Vec<char>,
    pos: usize,
    byte_pos: usize,
    byte_len: usize,
}

impl Parser {
    /// `pos` is a character position, `byte_pos` its byte offset, and
    /// `byte_len` the byte length of the input.
    spec fn wf(&self) -> bool {
        &&& self.pos <= self.chars@.len()
        &&& self.byte_pos == byte_at(self.chars@, self.pos as int)
        &&& self.byte_len == utf8_len(self.chars@)
    }

    /// The parser reads `s` and has not moved back from `p`.
    spec fn reads_from(&self, s: Seq<char>, p: int) -> bool {
        &&& self.wf()
        &&& self.chars@ == s
        &&& p <= self.pos
    }

    proof fn lemma_byte_bounds(&self)
        requires
            self.wf(),
        ensures
            self.byte_pos <= self.byte_len,
            self.pos < self.chars@.len() ==> self.byte_pos < self.byte_len,
    {
        lemma_byte_at_mono(self.chars@, self.pos as int, self.chars@.len() as int);
        lemma_byte_at_end(self.chars@);
    }

    fn peek(&self) -> (r: Option<char>)
        requires
            self.wf(),
        ensures
            r == crate::spec::peek(self.chars@, self.pos as int),
    {
        if self.pos < self.chars.len() {
            Some(self.chars[self.pos])
        } else {
            None
        }
    }

    fn advance(&mut self) -> (c: char)
        requires
            old(self).wf(),
            old(self).pos < old(self).chars@.len(),
        ensures
            final(self).reads_from(old(self).chars@, old(self).pos as int),
            final(self).pos == old(self).pos + 1,
            c == old(self).chars@[old(self).pos as int],
    {
        let c = self.chars[self.pos];
        let len = self.chars.len();
        assert(self.pos < len);
        proof {
            lemma_byte_at_step(self.chars@, self.pos as int);
            lemma_byte_at_mono(self.chars@, self.pos + 1, self.chars@.len() as int);
            lemma_byte_at_end(self.chars@);
        }
        self.pos = self.pos + 1;
        self.byte_pos = self.byte_pos + char_len_utf8(c);
        c
    }

    fn skip_whitespace(&mut self)
        requires
            old(self).wf(),
        ensures
            final(self).reads_from(old(self).chars@, old(self).pos as int),
            final(self).pos == skip_ws(old(self).chars@, old(self).pos as int),
    {
        let ghost s = self.chars@;
        let ghost p0 = self.pos as int;
        while self.pos < self.chars.len() && is_whitespace(self.chars[self.pos])
            invariant
                self.reads_from(s, p0),
                skip_ws(s, p0) == skip_ws(s, self.pos as int),
            decreases s.len() - self.pos,
        {
            self.advance();
        }
    }

    fn error(&self, kind: ErrorKind, message: &str) -> (e: ParseError)
        requires
            self.wf(),
        ensures
            e@ == err_here(self.chars@, self.pos as int, kind@, message@),
    {
        proof {
            self.lemma_byte_bounds();
        }
        self.error_at(self.byte_pos, kind, message)
    }

    fn error_at(&self, position: usize, kind: ErrorKind, message: &str) -> (e: ParseError)
        requires
            self.wf(),
            position <= self.byte_len,
        ensures
            e@ == err_at(self.chars@, position as nat, kind@, message@),
    {
        let end = if position < self.byte_len {
            position + 1
        } else {
            self.byte_len
        };
        ParseError { message: string_of(message), span: Span { start: position, end }, kind }
    }

    fn parse_word(&mut self) -> (r: Result<Node, ParseError>)
        requires
            old(self).wf(),
        ensures
            final(self).reads_from(old(self).chars@, old(self).pos as int),
            node_result(r, final(self).pos as int) == spec_word(
                old(self).chars@,
                old(self).pos as int,
            ),
            r is Err ==> final(self).pos == old(self).pos,
    {
        let ghost s = self.chars@;
        let start = self.pos;
        while self.pos < self.chars.len() && !is_word_terminator(self.chars[self.pos])
            invariant
                self.reads_from(s, start as int),
                word_end(s, start as int) == word_end(s, self.pos as int),
            decreases s.len() - self.pos,
        {
            self.advance();
        }
        if self.pos == start {
            return Err(self.error(ErrorKind::UnexpectedEof, "expected a panel name"));
        }
        let name = string_from_chars(self.chars.as_slice(), start, self.pos);
        Ok(Node::Panel { name })
    }

    fn parse_quoted(&mut self) -> (r: Result<Node, ParseError>)
        requires
            old(self).wf(),
            old(self).pos < old(self).chars@.len(),
        ensures
            final(self).reads_from(old(self).chars@, old(self).pos as int),
            node_result(r, final(self).pos as int) == spec_quoted(
                old(self).chars@,
                old(self).pos as int,
            ),
            r is Err ==> final(self).pos == old(self).chars@.len(),
    {
        let ghost s = self.chars@;
        let start = self.pos;
        let start_byte = self.byte_pos;
        let quote = self.advance();
        let mut name = String::new();
        loop
            invariant
                s == old(self).chars@,
                start == old(self).pos,
                self.reads_from(s, start + 1),
                start_byte == byte_at(s, start as int),
                quote == s[start as int],
                spec_quoted_tail(s, quote, start as int, start + 1) == prefixed_text(
                    name@,
                    spec_quoted_tail(s, quote, start as int, self.pos as int),
                ),
            decreases s.len() - self.pos,
        {
            let ghost i = self.pos as int;
            let ghost before = name@;
            match self.peek() {
                None => {
                    return Err(
                        ParseError {
                            message: unclosed_string_message(quote),
                            span: Span { start: start_byte, end: self.byte_pos },
                            kind: ErrorKind::UnclosedString,
                        },
                    );
                },
                Some(c) => {
                    if c == '\\' {
                        self.advance();
                        match self.peek() {
                            Some(escaped) => {
                                if escaped == quote {
                                    push_char(&mut name, escaped);
                                } else {
                                    push_char(&mut name, '\\');
                                    push_char(&mut name, escaped);
                                }
                                self.advance();
                                proof {
                                    let unescaped = if escaped == quote {
                                        seq![escaped]
                                    } else {
                                        seq!['\\', escaped]
                                    };
                                    assert(name@ =~= before + unescaped);
                                    match spec_quoted_tail(s, quote, start as int, i + 2) {
                                        Ok((rest, q)) => {
                                            assert(before + (unescaped + rest) =~= name@ + rest);
                                        },
                                        Err(e) => {},
                                    }
                                }
                            },
                            None => {
                                return Err(
                                    ParseError {
                                        message: unclosed_string_message(quote),
                                        span: Span { start: start_byte, end: self.byte_pos },
                                        kind: ErrorKind::UnclosedString,
                                    },
                                );
                            },
                        }
                    } else if c == quote {
                        self.advance();
                        proof {
                            assert(name@ + Seq::<char>::empty() =~= name@);
                        }
                        return Ok(Node::Panel { name });
                    } else {
                        push_char(&mut name, c);
                        self.advance();
                        proof {
                            match spec_quoted_tail(s, quote, start as int, i + 1) {
                                Ok((rest, q)) => {
                                    assert(before + (seq![c] + rest) =~= name@ + rest);
                                },
                                Err(e) => {},
                            }
                        }
                    }
                },
            }
        }
    }

    fn parse_panel(&mut self) -> (r: Result<Node, ParseError>)
        requires
            old(self).wf(),
        ensures
            final(self).reads_from(old(self).chars@, old(self).pos as int),
            node_result(r, final(self).pos as int) == spec_panel(
                old(self).chars@,
                old(self).pos as int,
            ),
    {
        self.skip_whitespace();
        match self.peek() {
            Some(c) => {
                if c == '"' || c == '\'' {
                    self.parse_quoted()
                } else {
                    self.parse_word()
                }
            },
            None => Err(self.error(ErrorKind::UnexpectedEof, "expected a panel name")),
        }
    }

    fn parse_number(&mut self) -> (r: Result<String, ParseError>)
        requires
            old(self).wf(),
        ensures
            final(self).reads_from(old(self).chars@, old(self).pos as int),
            text_result(r, final(self).pos as int) == spec_number(
                old(self).chars@,
                old(self).pos as int,
            ),
            r is Err ==> final(self).pos == number_end(old(self).chars@, old(self).pos as int),
    {
        let ghost s = self.chars@;
        let start = self.pos;
        let start_byte = self.byte_pos;
        // Integer part
        while self.pos < self.chars.len() && is_ascii_digit(self.chars[self.pos])
            invariant
                self.reads_from(s, start as int),
                digits_end(s, start as int) == digits_end(s, self.pos as int),
            decreases s.len() - self.pos,
        {
            self.advance();
        }
        // Decimal part
        if self.pos < self.chars.len() && self.chars[self.pos] == '.' {
            self.advance();
            let ghost frac = self.pos as int;
            while self.pos < self.chars.len() && is_ascii_digit(self.chars[self.pos])
                invariant
                    self.reads_from(s, frac),
                    start < frac,
                    digits_end(s, frac) == digits_end(s, self.pos as int),
                decreases s.len() - self.pos,
            {
                self.advance();
            }
        }
        if self.pos == start {
            return Err(self.error(ErrorKind::InvalidNumber, "expected a number"));
        }
        if self.pos == start + 1 && self.chars[start] == '.' {
            proof {
                lemma_byte_at_mono(s, start as int, s.len() as int);
                lemma_byte_at_end(s);
            }
            return Err(self.error_at(start_byte, ErrorKind::InvalidNumber, "invalid number"));
        }
        Ok(string_from_chars(self.chars.as_slice(), start, self.pos))
    }

    fn parse_unit(&mut self, value_start: usize) -> (r: Result<Unit, ParseError>)
        requires
            old(self).wf(),
        ensures
            final(self).reads_from(old(self).chars@, old(self).pos as int),
            unit_result(r, final(self).pos as int) == spec_unit(
                old(self).chars@,
                old(self).pos as int,
                value_start as nat,
            ),
            r is Err ==> final(self).pos == alpha_end(old(self).chars@, old(self).pos as int),
    {
        let ghost s = self.chars@;
        let unit_start = self.pos;
        let unit_start_byte = self.byte_pos;
        // Special case: %
        if self.pos < self.chars.len() && self.chars[self.pos] == '%' {
            self.advance();
            return Ok(Unit::Percent);
        }
        // Read alphabetic unit name
        while self.pos < self.chars.len() && is_ascii_alphabetic(self.chars[self.pos])
            invariant
                self.reads_from(s, unit_start as int),
                alpha_end(s, unit_start as int) == alpha_end(s, self.pos as int),
            decreases s.len() - self.pos,
        {
            self.advance();
        }
        let n = self.pos - unit_start;
        let ghost u = s.subrange(unit_start as int, self.pos as int);
        let c = self.chars.as_slice();
        if n == 2 && c[unit_start] == 'f' && c[unit_start + 1] == 'r' {
            assert(u =~= seq!['f', 'r']);
            Ok(Unit::Fr)
        } else if n == 3 && c[unit_start] == 'c' && c[unit_start + 1] == 'o' && c[unit_start + 2]
            == 'l' {
            assert(u =~= seq!['c', 'o', 'l']);
            Ok(Unit::Col)
        } else if n == 3 && c[unit_start] == 'r' && c[unit_start + 1] == 'o' && c[unit_start + 2]
            == 'w' {
            assert(u =~= seq!['r', 'o', 'w']);
            Ok(Unit::Row)
        } else if n == 2 && c[unit_start] == 'p' && c[unit_start + 1] == 'x' {
            assert(u =~= seq!['p', 'x']);
            Ok(Unit::Px)
        } else if n == 0 {
            assert(u.len() == 0);
            Err(
                ParseError {
                    message: string_of("size value requires a unit (fr, col, row, px, %)"),
                    span: Span { start: value_start, end: self.byte_pos },
                    kind: ErrorKind::InvalidUnit(String::new()),
                },
            )
        } else {
            assert(u != seq!['f', 'r'] && u != seq!['c', 'o', 'l'] && u != seq!['r', 'o', 'w']
                && u != seq!['p', 'x']) by {
                if u == seq!['f', 'r'] {
                    assert(u[0] == 'f' && u[1] == 'r');
                }
                if u == seq!['c', 'o', 'l'] {
                    assert(u[0] == 'c' && u[1] == 'o' && u[2] == 'l');
                }
                if u == seq!['r', 'o', 'w'] {
                    assert(u[0] == 'r' && u[1] == 'o' && u[2] == 'w');
                }
                if u == seq!['p', 'x'] {
                    assert(u[0] == 'p' && u[1] == 'x');
                }
            }
            let other = string_from_chars(c, unit_start, self.pos);
            let mut message = string_of("unknown unit '");
            crate::text::push_str(&mut message, other.as_str());
            crate::text::push_str(&mut message, "' — expected fr, col, row, px, or %");
            Err(
                ParseError {
                    message,
                    span: Span { start: unit_start_byte, end: self.byte_pos },
                    kind: ErrorKind::InvalidUnit(other),
                },
            )
        }
    }

    fn try_parse_size(&mut self) -> (r: Result<Option<Size>, ParseError>)
        requires
            old(self).wf(),
        ensures
            final(self).reads_from(old(self).chars@, old(self).pos as int),
            size_result(r, final(self).pos as int) == spec_try_size(
                old(self).chars@,
                old(self).pos as int,
            ),
    {
        self.skip_whitespace();
        if !(self.pos < self.chars.len() && self.chars[self.pos] == '=') {
            return Ok(None);
        }
        self.advance();  // consume '='
        self.skip_whitespace();
        let number_start = self.byte_pos;
        let value = match self.parse_number() {
            Ok(v) => v,
            Err(e) => return Err(e),
        };
        let unit = match self.parse_unit(number_start) {
            Ok(u) => u,
            Err(e) => return Err(e),
        };
        Ok(Some(Size { value, unit }))
    }

    fn parse_item(&mut self) -> (r: Result<Item, ParseError>)
        requires
            old(self).wf(),
        ensures
            final(self).reads_from(old(self).chars@, old(self).pos as int),
            item_result(r, final(self).pos as int) == spec_item(
                old(self).chars@,
                old(self).pos as int,
            ),
        decreases old(self).chars@.len() - old(self).pos, 1int,
    {
        let ghost s = self.chars@;
        let ghost p = self.pos as int;
        self.skip_whitespace();
        let start = self.byte_pos;
        match self.peek() {
            Some(c) => {
                if c == '(' {
                    proof {
                        lemma_scan_bounds(s, p, |c: char| is_space(c));
                    }
                    // Groups may carry a size from inside (single-item) or outside (split)
                    let mut item = match self.parse_group() {
                        Ok(it) => it,
                        Err(e) => return Err(e),
                    };
                    // A group can also have an outer size: ((a|b)=3fr / c)
                    let outer = match self.try_parse_size() {
                        Ok(sz) => sz,
                        Err(e) => return Err(e),
                    };
                    if let Some(outer_size) = outer {
                        item.size = Some(outer_size);
                    }
                    item.span.start = start;
                    item.span.end = self.byte_pos;
                    Ok(item)
                } else {
                    let node = match self.parse_panel() {
                        Ok(n) => n,
                        Err(e) => return Err(e),
                    };
                    let size = match self.try_parse_size() {
                        Ok(sz) => sz,
                        Err(e) => return Err(e),
                    };
                    Ok(Item { node, size, span: Span { start, end: self.byte_pos } })
                }
            },
            None => Err(self.error(ErrorKind::UnexpectedEof, "expected a panel or group")),
        }
    }

    fn parse_group(&mut self) -> (r: Result<Item, ParseError>)
        requires
            old(self).wf(),
            crate::spec::peek(old(self).chars@, old(self).pos as int) == Some('('),
        ensures
            final(self).reads_from(old(self).chars@, old(self).pos as int),
            item_result(r, final(self).pos as int) == spec_group(
                old(self).chars@,
                old(self).pos as int,
                skip_ws(old(self).chars@, old(self).pos + 1),
            ),
        decreases old(self).chars@.len() - old(self).pos, 0int,
    {
        let ghost s = self.chars@;
        let ghost g = self.pos as int;
        let group_start = self.byte_pos;
        self.advance();  // consume '('
        self.skip_whitespace();
        let ghost p1 = self.pos as int;
        if self.pos < self.chars.len() && self.chars[self.pos] == ')' {
            proof {
                self.lemma_byte_bounds();
            }
            return Err(
                ParseError {
                    message: string_of("empty group"),
                    span: Span { start: group_start, end: self.byte_pos + 1 },
                    kind: ErrorKind::EmptyGroup,
                },
            );
        }
        let first = match self.parse_item() {
            Ok(it) => it,
            Err(e) => return Err(e),
        };
        self.skip_whitespace();
        // Check for operator
        match self.peek() {
            Some(c) => {
                if c == ')' {
                    // Single-item group: collapse to the inner item (preserving its size)
                    self.advance();
                    Ok(first)
                } else if c == '|' || c == '/' {
                    let node = match self.parse_split_tail(first, c, group_start) {
                        Ok(n) => n,
                        Err(e) => return Err(e),
                    };
                    Ok(Item { node, size: None, span: Span { start: group_start, end: self.byte_pos } })
                } else {
                    Err(self.error(ErrorKind::UnexpectedChar(c), "expected '|', '/', or ')'"))
                }
            },
            None => Err(
                ParseError {
                    message: string_of("unclosed group — expected ')'"),
                    span: Span { start: group_start, end: self.byte_pos },
                    kind: ErrorKind::UnclosedGroup,
                },
            ),
        }
    }

    fn parse_split_tail(&mut self, first: Item, operator: char, group_start: usize) -> (r: Result<
        Node,
        ParseError,
    >)
        requires
            old(self).wf(),
        ensures
            final(self).reads_from(old(self).chars@, old(self).pos as int),
            node_result(r, final(self).pos as int) == spec_split_tail(
                old(self).chars@,
                operator,
                group_start as nat,
                first@,
                old(self).pos as int,
            ),
            r is Err ==> (spec_children(old(self).chars@, operator, old(self).pos as int) matches Ok(
                (_, q),
            ) ==> final(self).pos == skip_ws(old(self).chars@, q)),
        decreases old(self).chars@.len() - old(self).pos, 0int,
    {
        let ghost s = self.chars@;
        let ghost p0 = self.pos as int;
        let ghost first_model = first@;
        let mut children: Vec<Item> = Vec::new();
        children.push(first);
        proof {
            lemma_items_model_push(Seq::<Item>::empty(), children@[0]);
            assert(Seq::<Item>::empty().push(children@[0]) =~= children@);
            assert(items_model(Seq::<Item>::empty()) =~= Seq::<ItemModel>::empty());
        }
        loop
            invariant
                s == old(self).chars@,
                p0 == old(self).pos,
                self.reads_from(s, p0),
                items_model(children@).len() >= 1,
                items_model(children@)[0] == first_model,
                spec_children(s, operator, p0) == prefixed_items(
                    items_model(children@).drop_first(),
                    spec_children(s, operator, self.pos as int),
                ),
            ensures
                crate::spec::peek(s, self.pos as int) != Some(operator),
            decreases s.len() - self.pos,
        {
            if !(self.pos < self.chars.len() && self.chars[self.pos] == operator) {
                break;
            }
            let ghost p = self.pos as int;
            let ghost before = items_model(children@);
            self.advance();  // consume operator
            let child = match self.parse_item() {
                Ok(it) => it,
                Err(e) => return Err(e),
            };
            let ghost child_model = child@;
            let ghost cs = children@;
            children.push(child);
            proof {
                lemma_items_model_push(cs, children@.last());
                assert(children@ =~= cs.push(children@.last()));
            }
            self.skip_whitespace();
            proof {
                assert(items_model(children@) == before.push(child_model));
                match spec_children(s, operator, self.pos as int) {
                    Ok((rest, q)) => {
                        assert(before.drop_first() + (seq![child_model] + rest) =~= before.push(
                            child_model,
                        ).drop_first() + rest);
                    },
                    Err(e) => {},
                }
            }
        }
        // Check for mixed operators
        self.skip_whitespace();
        let other_operator = if operator == '|' {
            '/'
        } else {
            '|'
        };
        if self.pos < self.chars.len() && self.chars[self.pos] == other_operator {
            let message = if operator == '|' {
                "mixed operators — group uses '|' but found '/'"
            } else {
                "mixed operators — group uses '/' but found '|'"
            };
            return Err(self.error(ErrorKind::MixedOperators, message));
        }
        match self.peek() {
            Some(c) => {
                if c == ')' {
                    self.advance();
                } else {
                    return Err(self.error(ErrorKind::UnexpectedChar(c), "expected operator or ')'"));
                }
            },
            None => {
                return Err(
                    ParseError {
                        message: string_of("unclosed group — expected ')'"),
                        span: Span { start: group_start, end: self.byte_pos },
                        kind: ErrorKind::UnclosedGroup,
                    },
                );
            },
        }
        proof {
            assert(items_model(children@) =~= seq![first_model] + items_model(children@).drop_first());
        }
        if operator == '|' {
            Ok(Node::HSplit { children })
        } else {
            Ok(Node::VSplit { children })
        }
    }
}

} // verus!
