//! Panel Layout Notation: parsing and validation of split-panel layouts.
use vstd::prelude::*;

pub mod ast;
pub mod error;
pub mod nesting;
pub mod parser;
pub mod printing;
pub mod quoting;
pub mod rendering;
pub mod spec;
pub mod structure;
pub mod text;
pub mod validate;

pub use ast::{Item, Node, Size, Span, Unit};
pub use error::{ErrorKind, ParseError};

use ast::ItemModel;
use error::ErrorModel;
use parser::parse_result;
use spec::spec_parse;
use structure::item_wf;
use text::utf8_len;
use validate::{spec_validate_node, units_fit};

verus! {

/// What [`parse_and_validate`] gives for the characters `s`: the parse,
/// unless it fails or its tree misuses a unit.
pub open spec fn spec_parse_and_validate(s: Seq<char>) -> Result<ItemModel, ErrorModel> {
    match spec_parse(s) {
        Err(e) => Err(e),
        Ok(item) => match spec_validate_node(item.node) {
            Err(e) => Err(e),
            Ok(_) => Ok(item),
        },
    }
}

/// Parse a PLN layout string into an AST.
pub fn parse(input: &str) -> (r: Result<Item, ParseError>)
    ensures
        parse_result(r) == spec_parse(input@),
        r matches Ok(item) ==> item_wf(item@) && item@.span.end <= utf8_len(input@),
{
    parser::parse(input)
}

/// Parse and validate a PLN layout string.
///
/// This runs both parsing and semantic validation (e.g. checking that
/// col/row units are used in the correct split direction).
pub fn parse_and_validate(input: &str) -> (r: Result<Item, ParseError>)
    ensures
        parse_result(r) == spec_parse_and_validate(input@),
        r matches Ok(item) ==> {
            &&& item_wf(item@)
            &&& item@.span.end <= utf8_len(input@)
            &&& units_fit(item@.node)
        },
{
    let item = match parser::parse(input) {
        Ok(it) => it,
        Err(e) => return Err(e),
    };
    match validate::validate(&item) {
        Ok(_) => {},
        Err(e) => return Err(e),
    }
    Ok(item)
}

} // verus!
