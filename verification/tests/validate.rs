use pln_parse::parser;
use pln_parse::validate::validate;
use pln_parse::ParseError;

fn parse_and_validate(input: &str) -> Result<(), ParseError> {
    let item = parser::parse(input).unwrap();
    validate(&item)
}

#[test]
fn col_in_hsplit_is_valid() {
    assert!(parse_and_validate("(sidebar=80col|main)").is_ok());
}

#[test]
fn row_in_vsplit_is_valid() {
    assert!(parse_and_validate("(header=5row/body)").is_ok());
}

#[test]
fn col_in_vsplit_is_invalid() {
    assert!(parse_and_validate("(header=80col/body)").is_err());
}

#[test]
fn row_in_hsplit_is_invalid() {
    assert!(parse_and_validate("(sidebar=5row|main)").is_err());
}

#[test]
fn nested_validation() {
    assert!(parse_and_validate("(editor|(header=80col/body))").is_err());
}

#[test]
fn fr_px_percent_always_valid() {
    assert!(parse_and_validate("(a=2fr|b=200px|c=30%)").is_ok());
    assert!(parse_and_validate("(a=2fr/b=200px/c=30%)").is_ok());
}
