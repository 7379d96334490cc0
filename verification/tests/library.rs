use pln_parse::error::byte_offset_to_position;
use pln_parse::{parse, parse_and_validate, ErrorKind, Item, Node, ParseError, Span, Unit};

fn ok(input: &str) -> Item {
    parse(input).unwrap_or_else(|error| panic!("parse failed for '{}': {}", input, error.message))
}

fn err(input: &str) -> ParseError {
    match parse(input) {
        Ok(_) => panic!("parse succeeded for '{}'", input),
        Err(error) => error,
    }
}

fn span(start: usize, end: usize) -> Span {
    Span { start, end }
}

fn children(item: &Item) -> &Vec<Item> {
    match &item.node {
        Node::HSplit { children } | Node::VSplit { children } => children,
        Node::Panel { .. } => panic!("expected a split"),
    }
}

fn name(item: &Item) -> &str {
    match &item.node {
        Node::Panel { name } => name.as_str(),
        _ => panic!("expected a panel"),
    }
}

/// The tree without spans, for comparing layouts.
fn shape(item: &Item) -> String {
    let size = match &item.size {
        Some(size) => format!("={}{:?}", size.value, size.unit),
        None => String::new(),
    };
    match &item.node {
        Node::Panel { name } => format!("[{}]{}", name, size),
        Node::HSplit { children } => {
            let parts: Vec<String> = children.iter().map(shape).collect();
            format!("({}){}", parts.join("|"), size)
        }
        Node::VSplit { children } => {
            let parts: Vec<String> = children.iter().map(shape).collect();
            format!("({}){}", parts.join("/"), size)
        }
    }
}

/// All spans of the tree, in pre-order.
fn spans(item: &Item, out: &mut Vec<Span>) {
    out.push(item.span);
    if let Node::HSplit { children } | Node::VSplit { children } = &item.node {
        for child in children {
            spans(child, out);
        }
    }
}

// -- Laws on concrete values --

#[test]
fn parenthesized_layout_is_the_same_layout() {
    for input in ["x=2fr", "(a|b)", "(a=2fr|(b/c))=3fr", "'q p'"] {
        let inner = ok(input);
        let wrapped = ok(&format!("({})", input));
        assert_eq!(shape(&inner), shape(&wrapped));
        assert_eq!(wrapped.span, span(0, input.len() + 2));
        let mut inner_spans = Vec::new();
        spans(&inner, &mut inner_spans);
        let mut wrapped_spans = Vec::new();
        spans(&wrapped, &mut wrapped_spans);
        for (a, b) in inner_spans.iter().zip(wrapped_spans.iter()).skip(1) {
            assert_eq!(b.start, a.start + 1);
            assert_eq!(b.end, a.end + 1);
        }
    }
}

#[test]
fn leading_space_moves_spans_only() {
    let plain = ok("(a|b=2fr)");
    let spaced = ok("\t \u{3000}(a|b=2fr)");
    assert_eq!(shape(&plain), shape(&spaced));
    let mut plain_spans = Vec::new();
    spans(&plain, &mut plain_spans);
    let mut spaced_spans = Vec::new();
    spans(&spaced, &mut spaced_spans);
    for (a, b) in plain_spans.iter().zip(spaced_spans.iter()) {
        assert_eq!(b.start, a.start + 5);
        assert_eq!(b.end, a.end + 5);
    }
}

#[test]
fn splits_have_ordered_nested_children() {
    let item = ok("((files=20% | editor1 | editor2)=3fr / terminal)");
    let top = children(&item);
    assert_eq!(top.len(), 2);
    assert!(item.span.start <= top[0].span.start);
    assert!(top[0].span.end <= top[1].span.start);
    assert!(top[1].span.end <= item.span.end);
    let inner = children(&top[0]);
    assert_eq!(inner.len(), 3);
    assert!(top[0].span.start <= inner[0].span.start);
    assert!(inner[0].span.end <= inner[1].span.start);
    assert!(inner[1].span.end <= inner[2].span.start);
    assert!(inner[2].span.end <= top[0].span.end);
    assert!(item.span.end <= "((files=20% | editor1 | editor2)=3fr / terminal)".len());
}

#[test]
fn validation_accepts_exactly_fitting_units() {
    assert!(parse_and_validate("(a=1col|(b=2row/c)|d=4px)").is_ok());
    let error = parse_and_validate("(a|(b=2row/c)|d=1row)").unwrap_err();
    assert_eq!(error.span, span(14, 20));
    assert!(parse_and_validate("(a=1row/b)").is_ok());
}

// -- Spans and exact results --

#[test]
fn panel_span_covers_trailing_space_before_operator() {
    let item = ok("(a |b)");
    let parts = children(&item);
    assert_eq!(parts[0].span, span(1, 3));
    assert_eq!(parts[1].span, span(4, 5));
    assert_eq!(item.span, span(0, 6));
}

#[test]
fn spans_are_byte_offsets() {
    let item = ok("(ä|b)");
    let parts = children(&item);
    assert_eq!(name(&parts[0]), "ä");
    assert_eq!(parts[0].span, span(1, 3));
    assert_eq!(parts[1].span, span(4, 5));
    assert_eq!(item.span, span(0, 6));
}

#[test]
fn outer_size_replaces_inner_size() {
    let item = ok("((a=2fr)=3fr|b)");
    let size = children(&item)[0].size.as_ref().unwrap();
    assert_eq!(size.value, "3");
    assert_eq!(size.unit, Unit::Fr);
}

#[test]
fn inner_size_kept_without_outer() {
    let item = ok("((a=2px)|b)");
    let size = children(&item)[0].size.as_ref().unwrap();
    assert_eq!(size.value, "2");
    assert_eq!(size.unit, Unit::Px);
}

#[test]
fn decimal_literals_kept_as_written() {
    let item = ok("(a=.5fr|b=5.px|c=12.25%)");
    let parts = children(&item);
    assert_eq!(parts[0].size.as_ref().unwrap().value, ".5");
    assert_eq!(parts[0].size.as_ref().unwrap().value.parse::<f64>().unwrap(), 0.5);
    assert_eq!(parts[1].size.as_ref().unwrap().value, "5.");
    assert_eq!(parts[1].size.as_ref().unwrap().value.parse::<f64>().unwrap(), 5.0);
    assert_eq!(parts[2].size.as_ref().unwrap().value, "12.25");
    assert_eq!(parts[2].size.as_ref().unwrap().unit, Unit::Percent);
}

#[test]
fn quoted_names_keep_other_escapes() {
    assert_eq!(name(&ok(r#""a\b""#)), r"a\b");
    assert_eq!(name(&ok(r#""""#)), "");
    assert_eq!(name(&ok(r#"'say "hi"'"#)), "say \"hi\"");
}

#[test]
fn bare_word_stops_at_special_characters() {
    let item = ok("(a-b|c.d)");
    let parts = children(&item);
    assert_eq!(name(&parts[0]), "a-b");
    assert_eq!(name(&parts[1]), "c.d");
}

// -- Each error kind --

#[test]
fn unexpected_char_in_group() {
    let error = err("(a b)");
    assert_eq!(error.kind, ErrorKind::UnexpectedChar('b'));
    assert_eq!(error.message, "expected '|', '/', or ')'");
    assert_eq!(error.span, span(3, 4));
}

#[test]
fn unexpected_char_in_split() {
    let error = err("(a|b c)");
    assert_eq!(error.kind, ErrorKind::UnexpectedChar('c'));
    assert_eq!(error.message, "expected operator or ')'");
    assert_eq!(error.span, span(5, 6));
}

#[test]
fn unexpected_eof_messages() {
    let error = err("");
    assert_eq!(error.message, "expected a panel or group");
    assert_eq!(error.span, span(0, 0));
    let error = err("(a|");
    assert_eq!(error.kind, ErrorKind::UnexpectedEof);
    assert_eq!(error.span, span(3, 3));
    let error = err("=2fr");
    assert_eq!(error.kind, ErrorKind::UnexpectedEof);
    assert_eq!(error.message, "expected a panel name");
    assert_eq!(error.span, span(0, 1));
}

#[test]
fn mixed_operators_message() {
    let error = err("(a|b/c)");
    assert_eq!(error.message, "mixed operators — group uses '|' but found '/'");
    assert_eq!(error.span, span(4, 5));
    let error = err("(a/b|c)");
    assert_eq!(error.message, "mixed operators — group uses '/' but found '|'");
}

#[test]
fn unclosed_group_spans() {
    let error = err("(a|b");
    assert_eq!(error.message, "unclosed group — expected ')'");
    assert_eq!(error.span, span(0, 4));
    let error = err("(a");
    assert_eq!(error.kind, ErrorKind::UnclosedGroup);
    assert_eq!(error.span, span(0, 2));
}

#[test]
fn unclosed_string_spans() {
    let error = err("\"hello");
    assert_eq!(error.message, "unclosed string — expected closing \"");
    assert_eq!(error.span, span(0, 6));
    let error = err("'ab\\");
    assert_eq!(error.kind, ErrorKind::UnclosedString);
    assert_eq!(error.message, "unclosed string — expected closing '");
    assert_eq!(error.span, span(0, 4));
}

#[test]
fn invalid_unit_details() {
    let error = err("(a=2xx|b)");
    assert_eq!(error.kind, ErrorKind::InvalidUnit("xx".to_string()));
    assert_eq!(error.message, "unknown unit 'xx' — expected fr, col, row, px, or %");
    assert_eq!(error.span, span(4, 6));
    let error = err("(a=2|b)");
    assert_eq!(error.kind, ErrorKind::InvalidUnit(String::new()));
    assert_eq!(error.message, "size value requires a unit (fr, col, row, px, %)");
    assert_eq!(error.span, span(3, 4));
}

#[test]
fn invalid_number_details() {
    let error = err("(a=|b)");
    assert_eq!(error.kind, ErrorKind::InvalidNumber);
    assert_eq!(error.message, "expected a number");
    assert_eq!(error.span, span(3, 4));
    let error = err("(a=.fr|b)");
    assert_eq!(error.kind, ErrorKind::InvalidNumber);
    assert_eq!(error.message, "invalid number");
    assert_eq!(error.span, span(3, 4));
    let error = err("a=");
    assert_eq!(error.span, span(2, 2));
}

#[test]
fn empty_group_spans() {
    assert_eq!(err("()").span, span(0, 2));
    assert_eq!(err("( )").span, span(0, 3));
}

#[test]
fn trailing_input_details() {
    let error = err("(a|b) extra");
    assert_eq!(error.message, "unexpected input after layout");
    assert_eq!(error.span, span(6, 7));
    assert_eq!(err("left|right").kind, ErrorKind::TrailingInput);
}

#[test]
fn invalid_unit_for_split_details() {
    let error = parse_and_validate("(header=80col/body)").unwrap_err();
    assert_eq!(
        error.kind,
        ErrorKind::InvalidUnitForSplit { unit: "col".to_string(), split: "vertical (/)".to_string() }
    );
    assert_eq!(error.message, "'col' unit is not valid in a vertical (/) split");
    assert_eq!(error.span, span(1, 13));
    let error = parse_and_validate("(a|b=5row)").unwrap_err();
    assert_eq!(error.message, "'row' unit is not valid in a horizontal (|) split");
}

// -- Rendering --

#[test]
fn format_single_line() {
    let source = "(a|b/c)";
    let error = err(source);
    assert_eq!(
        error.format_with_source(source),
        "error: mixed operators — group uses '|' but found '/'\n  --> input:1:5\n   |\n  1 | (a|b/c)\n   |     ^\n"
    );
}

#[test]
fn format_second_line() {
    let source = "(a|\r\nb/c)";
    let error = err(source);
    assert_eq!(error.span, span(6, 7));
    assert_eq!(
        error.format_with_source(source),
        "error: mixed operators — group uses '|' but found '/'\n  --> input:2:2\n   |\n  2 | b/c)\n   |  ^\n"
    );
}

#[test]
fn format_wide_caret() {
    let source = "(a|b";
    let error = err(source);
    assert_eq!(
        error.format_with_source(source),
        "error: unclosed group — expected ')'\n  --> input:1:1\n   |\n  1 | (a|b\n   | ^^^^\n"
    );
}

#[test]
fn byte_offset_past_end_is_clamped() {
    assert_eq!(byte_offset_to_position("ab", 10), (1, 11));
    assert_eq!(byte_offset_to_position("a\nb", 10), (2, 9));
    assert_eq!(byte_offset_to_position("", 0), (1, 1));
}

#[test]
fn every_error_renders() {
    for source in [
        "", "(", "()", "(a", "(a|", "(a b)", "(a|b c)", "(a|b/c)", "\"x", "(a=", "(a=.)",
        "(a=2)", "(a=2q)", "(a) b", "(ä|b/c)", "x\ny\n(", "(a=1row|b)",
    ] {
        let error = parse_and_validate(source).unwrap_err();
        let report = error.format_with_source(source);
        assert!(report.starts_with("error: "));
        assert!(report.ends_with("^\n"));
    }
}

#[test]
fn format_counts_bytes_in_line() {
    let source = "(ä|b/c)";
    let error = err(source);
    assert_eq!(error.span, span(5, 6));
    assert_eq!(
        error.format_with_source(source),
        "error: mixed operators — group uses '|' but found '/'\n  --> input:1:6\n   |\n  1 | (ä|b/c)\n   |      ^\n"
    );
}

#[test]
fn colon_ends_a_bare_panel_name() {
    let error = err("a:b");
    assert_eq!(error.kind, ErrorKind::TrailingInput);
    assert_eq!(error.span, span(1, 2));
    let error = err("(a:b|c)");
    assert_eq!(error.kind, ErrorKind::UnexpectedChar(':'));
    assert_eq!(error.span, span(2, 3));
    assert_eq!(name(&ok("'a:b'")), "a:b");
}

#[test]
fn escaped_quoted_names_read_back() {
    for (quote, raw) in [('"', "it\"s \"x\""), ('\'', "it's"), ('"', "plain name"), ('\'', "")] {
        let escaped = raw.replace(quote, &format!("\\{}", quote));
        let text = format!("{}{}{}", quote, escaped, quote);
        let item = ok(&text);
        assert_eq!(name(&item), raw);
        assert_eq!(item.span, span(0, text.len()));
        assert!(item.size.is_none());
    }
}

/// The tree written back with `w` around every parenthesis, operator and `=`.
fn print(item: &Item, w: &str) -> String {
    let size = match &item.size {
        Some(size) => {
            let unit = match size.unit {
                Unit::Fr => "fr",
                Unit::Col => "col",
                Unit::Row => "row",
                Unit::Px => "px",
                Unit::Percent => "%",
            };
            format!("{}={}{}{}", w, w, size.value, unit)
        }
        None => String::new(),
    };
    match &item.node {
        Node::Panel { name } => {
            let bare = !name.is_empty()
                && !name.chars().any(|c| c.is_whitespace() || "|/()=:\"'".contains(c));
            if bare {
                format!("{}{}", name, size)
            } else {
                format!("\"{}\"{}", name.replace('"', "\\\""), size)
            }
        }
        Node::HSplit { children } | Node::VSplit { children } => {
            let op = if matches!(item.node, Node::HSplit { .. }) { "|" } else { "/" };
            let parts: Vec<String> = children.iter().map(|c| print(c, w)).collect();
            format!("({}{}{}){}", w, parts.join(&format!("{}{}{}", w, op, w)), w, size)
        }
    }
}

#[test]
fn printed_layouts_read_back() {
    for text in [
        "a",
        "a=2fr",
        "(a|b)",
        "(a=1fr|(b/c=2.5row)=50%)",
        "((files=20%|editor1|editor2)=3fr/terminal=.5px)",
        "(x/y/z)=10col",
        "(ä|naïve=7.px)",
        "(\"my panel\"=1fr|\"\"|\"it's\")",
        "(\"say \\\"hi\\\"\"|(\"a:b\"/c))=2px",
    ] {
        let item = ok(text);
        assert_eq!(print(&item, ""), text);
        for w in [" ", "  ", "\t\n ", "\u{3000}"] {
            let spaced = format!("{}{}{}", w, print(&item, w), w);
            assert_eq!(shape(&ok(&spaced)), shape(&item), "{:?}", spaced);
        }
    }
    assert_eq!(shape(&ok("(a=1fr|(b/c=2.5row)=50%)")), "([a]=1Fr|([b]/[c]=2.5Row)=50Percent)");
    assert_eq!(print(&ok("(a=1fr|b)"), " "), "( a = 1fr | b )");
    let compact = shape(&ok("(a=1fr|(b/c=2.5row)=50%)"));
    for mixed in [
        " ( a =\t1fr|\n( b/ c = 2.5row ) = 50% ) \n",
        "(a =1fr |(  b /c=  2.5row)\r\n=50%)",
        "\u{3000}(a= 1fr|(b/c =2.5row )= 50%)\t",
    ] {
        assert_eq!(shape(&ok(mixed)), compact, "{:?}", mixed);
    }
}

#[test]
fn cloned_layouts_are_equal() {
    let item = ok("((files=20% | \"my editor\") / terminal=2fr)");
    let copy = item.clone();
    assert_eq!(copy, item);
    assert_eq!(copy.node.clone(), item.node);
}
