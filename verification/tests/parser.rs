use pln_parse::error::ErrorKind;
use pln_parse::parser::parse;
use pln_parse::{Item, Node, ParseError, Size, Unit};

/// The numeric value of a size's decimal literal.
fn value(size: &Size) -> f64 {
    size.value.parse::<f64>().unwrap()
}

fn parse_ok(input: &str) -> Item {
    parse(input).unwrap_or_else(|error| panic!("parse failed for '{}': {}", input, error.message))
}

fn parse_err(input: &str) -> ParseError {
    parse(input).unwrap_err()
}

// -- Basic panels --

#[test]
fn bare_panel() {
    let item = parse_ok("editor");
    assert!(matches!(item.node, Node::Panel { ref name } if name == "editor"));
    assert!(item.size.is_none());
}

#[test]
fn double_quoted_panel() {
    let item = parse_ok("\"Left Panel\"");
    assert!(matches!(item.node, Node::Panel { ref name } if name == "Left Panel"));
}

#[test]
fn single_quoted_panel() {
    let item = parse_ok("'Right Panel'");
    assert!(matches!(item.node, Node::Panel { ref name } if name == "Right Panel"));
}

#[test]
fn quoted_with_escape() {
    let item = parse_ok(r#""it\"s a panel""#);
    assert!(matches!(item.node, Node::Panel { ref name } if name == "it\"s a panel"));
}

#[test]
fn single_quoted_with_escape() {
    let item = parse_ok(r"'it\'s a panel'");
    assert!(matches!(item.node, Node::Panel { ref name } if name == "it's a panel"));
}

// -- Splits --

#[test]
fn horizontal_split() {
    let item = parse_ok("(left|right)");
    match &item.node {
        Node::HSplit { children } => {
            assert_eq!(children.len(), 2);
            assert!(matches!(&children[0].node, Node::Panel { name } if name == "left"));
            assert!(matches!(&children[1].node, Node::Panel { name } if name == "right"));
        }
        other => panic!("expected HSplit, got {:?}", other),
    }
}

#[test]
fn vertical_split() {
    let item = parse_ok("(top/bottom)");
    match &item.node {
        Node::VSplit { children } => {
            assert_eq!(children.len(), 2);
            assert!(matches!(&children[0].node, Node::Panel { name } if name == "top"));
            assert!(matches!(&children[1].node, Node::Panel { name } if name == "bottom"));
        }
        other => panic!("expected VSplit, got {:?}", other),
    }
}

#[test]
fn three_way_split() {
    let item = parse_ok("(a|b|c)");
    match &item.node {
        Node::HSplit { children } => assert_eq!(children.len(), 3),
        other => panic!("expected HSplit, got {:?}", other),
    }
}

// -- Single-item groups --

#[test]
fn single_item_group() {
    let item = parse_ok("(panel)");
    assert!(matches!(item.node, Node::Panel { ref name } if name == "panel"));
}

#[test]
fn sized_single_item_group() {
    let item = parse_ok("(panel=2fr)");
    assert!(matches!(item.node, Node::Panel { ref name } if name == "panel"));
    let size = item.size.unwrap();
    assert_eq!(value(&size), 2.0);
    assert_eq!(size.unit, Unit::Fr);
}

#[test]
fn redundant_parens() {
    let item = parse_ok("((left)|right)");
    match &item.node {
        Node::HSplit { children } => {
            assert_eq!(children.len(), 2);
            assert!(matches!(&children[0].node, Node::Panel { name } if name == "left"));
        }
        other => panic!("expected HSplit, got {:?}", other),
    }
}

// -- Sizes --

#[test]
fn size_fr() {
    let item = parse_ok("(left=2fr|right)");
    match &item.node {
        Node::HSplit { children } => {
            let size = children[0].size.as_ref().unwrap();
            assert_eq!(value(size), 2.0);
            assert_eq!(size.unit, Unit::Fr);
        }
        other => panic!("expected HSplit, got {:?}", other),
    }
}

#[test]
fn size_col() {
    let item = parse_ok("(sidebar=80col|main)");
    match &item.node {
        Node::HSplit { children } => {
            let size = children[0].size.as_ref().unwrap();
            assert_eq!(value(size), 80.0);
            assert_eq!(size.unit, Unit::Col);
        }
        other => panic!("expected HSplit, got {:?}", other),
    }
}

#[test]
fn size_row() {
    let item = parse_ok("(header=5row/body)");
    match &item.node {
        Node::VSplit { children } => {
            let size = children[0].size.as_ref().unwrap();
            assert_eq!(value(size), 5.0);
            assert_eq!(size.unit, Unit::Row);
        }
        other => panic!("expected VSplit, got {:?}", other),
    }
}

#[test]
fn size_px() {
    let item = parse_ok("(sidebar=200px|main)");
    match &item.node {
        Node::HSplit { children } => {
            let size = children[0].size.as_ref().unwrap();
            assert_eq!(value(size), 200.0);
            assert_eq!(size.unit, Unit::Px);
        }
        other => panic!("expected HSplit, got {:?}", other),
    }
}

#[test]
fn size_percent() {
    let item = parse_ok("(left=30%|right)");
    match &item.node {
        Node::HSplit { children } => {
            let size = children[0].size.as_ref().unwrap();
            assert_eq!(value(size), 30.0);
            assert_eq!(size.unit, Unit::Percent);
        }
        other => panic!("expected HSplit, got {:?}", other),
    }
}

#[test]
fn size_decimal() {
    let item = parse_ok("(left=1.5fr|right)");
    match &item.node {
        Node::HSplit { children } => {
            let size = children[0].size.as_ref().unwrap();
            assert_eq!(value(size), 1.5);
        }
        other => panic!("expected HSplit, got {:?}", other),
    }
}

// -- Nesting --

#[test]
fn nested_split() {
    let item = parse_ok("(editor|(terminal/files))");
    match &item.node {
        Node::HSplit { children } => {
            assert_eq!(children.len(), 2);
            assert!(
                matches!(&children[1].node, Node::VSplit { children } if children.len() == 2)
            );
        }
        other => panic!("expected HSplit, got {:?}", other),
    }
}

#[test]
fn nested_with_sizes() {
    let item = parse_ok("(editor=3fr|(terminal=2fr/files))");
    match &item.node {
        Node::HSplit { children } => {
            assert_eq!(value(children[0].size.as_ref().unwrap()), 3.0);
            match &children[1].node {
                Node::VSplit { children } => {
                    assert_eq!(value(children[0].size.as_ref().unwrap()), 2.0);
                    assert!(children[1].size.is_none());
                }
                other => panic!("expected VSplit, got {:?}", other),
            }
        }
        other => panic!("expected HSplit, got {:?}", other),
    }
}

#[test]
fn sized_group() {
    let item = parse_ok("((files=20%|editor1|editor2)=3fr/terminal)");
    match &item.node {
        Node::VSplit { children } => {
            assert_eq!(value(children[0].size.as_ref().unwrap()), 3.0);
            assert!(
                matches!(&children[0].node, Node::HSplit { children } if children.len() == 3)
            );
        }
        other => panic!("expected VSplit, got {:?}", other),
    }
}

// -- Whitespace --

#[test]
fn whitespace_ignored() {
    let item = parse_ok("( left | right )");
    assert!(matches!(&item.node, Node::HSplit { children } if children.len() == 2));
}

#[test]
fn leading_trailing_whitespace() {
    let item = parse_ok("  (left|right)  ");
    assert!(matches!(&item.node, Node::HSplit { children } if children.len() == 2));
}

// -- Spec examples --

#[test]
fn spec_equal_horizontal() {
    parse_ok("(left|right)");
}

#[test]
fn spec_equal_vertical() {
    parse_ok("(top/bottom)");
}

#[test]
fn spec_nested() {
    parse_ok("(editor|(terminal/files))");
}

#[test]
fn spec_unequal() {
    parse_ok("(left=2fr|right)");
}

#[test]
fn spec_fixed_sidebar() {
    parse_ok("(sidebar=80col|main)");
}

#[test]
fn spec_three_way_fixed() {
    parse_ok("(nav=60col|content|panel=40col)");
}

#[test]
fn spec_percentage() {
    parse_ok("(left=30%|right)");
}

#[test]
fn spec_nested_with_sizes() {
    parse_ok("(editor=3fr|(terminal=2fr/files))");
}

#[test]
fn spec_ide_layout() {
    parse_ok("((files=20% | editor1 | editor2)=3fr / terminal)");
}

#[test]
fn spec_quoted_names() {
    parse_ok("(\"Left Panel\"=2fr | \"Right Panel\")");
}

// -- Error cases --

#[test]
fn error_mixed_operators() {
    let error = parse_err("(a|b/c)");
    assert_eq!(error.kind, ErrorKind::MixedOperators);
}

#[test]
fn error_unclosed_group() {
    let error = parse_err("(a|b");
    assert_eq!(error.kind, ErrorKind::UnclosedGroup);
}

#[test]
fn error_unclosed_string() {
    let error = parse_err("\"hello");
    assert_eq!(error.kind, ErrorKind::UnclosedString);
}

#[test]
fn error_invalid_unit() {
    let error = parse_err("(a=2xx|b)");
    assert!(matches!(error.kind, ErrorKind::InvalidUnit(_)));
}

#[test]
fn error_missing_unit() {
    let error = parse_err("(a=2|b)");
    assert!(matches!(error.kind, ErrorKind::InvalidUnit(_)));
}

#[test]
fn error_empty_input() {
    let error = parse_err("");
    assert_eq!(error.kind, ErrorKind::UnexpectedEof);
}

#[test]
fn error_trailing_input() {
    let error = parse_err("(a|b) extra");
    assert_eq!(error.kind, ErrorKind::TrailingInput);
}

#[test]
fn error_empty_group() {
    let error = parse_err("()");
    assert_eq!(error.kind, ErrorKind::EmptyGroup);
}
