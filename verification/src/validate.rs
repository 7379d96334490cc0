//! Semantic validation: `col` sizes belong in `|` splits, `row` sizes in `/` splits.
use vstd::prelude::*;

use crate::ast::{items_model, lemma_items_model_len, Item, ItemModel, Node, NodeModel, Unit};
use crate::error::{ErrorKind, ErrorModel, KindModel, ParseError};
use crate::text::{push_str, string_of};

verus! {

/// The error for `item` when its size uses `invalid_unit` inside a split of
/// direction `split`, if it does.
pub open spec fn unit_error(item: ItemModel, split: Seq<char>, invalid_unit: Unit, unit_name: Seq<char>) -> Result<
    (),
    ErrorModel,
> {
    match item.size {
        Some(size) => if size.unit == invalid_unit {
            Err(
                ErrorModel {
                    message: "'"@ + unit_name + "' unit is not valid in a "@ + split + " split"@,
                    span: item.span,
                    kind: KindModel::InvalidUnitForSplit { unit: unit_name, split },
                },
            )
        } else {
            Ok(())
        },
        None => Ok(()),
    }
}

/// Checks of the children of a split, in order; `horizontal` tells the split's direction.
pub open spec fn spec_validate_children(children: Seq<ItemModel>, horizontal: bool) -> Result<
    (),
    ErrorModel,
>
    decreases children,
{
    if children.len() == 0 {
        Ok(())
    } else {
        let first = children[0];
        let check = if horizontal {
            unit_error(first, "horizontal (|)"@, Unit::Row, "row"@)
        } else {
            unit_error(first, "vertical (/)"@, Unit::Col, "col"@)
        };
        match check {
            Err(e) => Err(e),
            Ok(_) => match spec_validate_node(first.node) {
                Err(e) => Err(e),
                Ok(_) => spec_validate_children(children.subrange(1, children.len() as int), horizontal),
            },
        }
    }
}

/// The first unit misuse in a pre-order walk of `node`, if any.
pub open spec fn spec_validate_node(node: NodeModel) -> Result<(), ErrorModel>
    decreases node,
{
    match node {
        NodeModel::Panel { .. } => Ok(()),
        NodeModel::HSplit { children } => spec_validate_children(children, true),
        NodeModel::VSplit { children } => spec_validate_children(children, false),
    }
}

/// No item in the tree carries a unit that its enclosing split's direction rules out:
/// no `row` directly inside a `|` split, no `col` directly inside a `/` split.
pub open spec fn units_fit(node: NodeModel) -> bool
    decreases node,
{
    match node {
        NodeModel::Panel { .. } => true,
        NodeModel::HSplit { children } => forall|i: int|
            0 <= i < children.len() ==> !has_unit(#[trigger] children[i], Unit::Row) && units_fit(
                children[i].node,
            ),
        NodeModel::VSplit { children } => forall|i: int|
            0 <= i < children.len() ==> !has_unit(#[trigger] children[i], Unit::Col) && units_fit(
                children[i].node,
            ),
    }
}

pub open spec fn has_unit(item: ItemModel, unit: Unit) -> bool {
    item.size matches Some(size) && size.unit == unit
}

pub open spec fn check_result(r: Result<(), ParseError>) -> Result<(), ErrorModel> {
    match r {
        Ok(_) => Ok(()),
        Err(e) => Err(e@),
    }
}

/// Validate that col/row units are used in the correct split direction.
pub fn validate(item: &Item) -> (r: Result<(), ParseError>)
    ensures
        check_result(r) == spec_validate_node(item@.node),
        r is Ok <==> units_fit(item@.node),
{
    proof {
        lemma_validate_iff_units_fit(item@.node);
    }
    validate_node(&item.node)
}

fn validate_node(node: &Node) -> (r: Result<(), ParseError>)
    ensures
        check_result(r) == spec_validate_node(node@),
    decreases node,
{
    match node {
        Node::Panel { .. } => Ok(()),
        Node::HSplit { children } => validate_children(children, "horizontal (|)", Unit::Row, "row"),
        Node::VSplit { children } => validate_children(children, "vertical (/)", Unit::Col, "col"),
    }
}

fn validate_children(children: &Vec<Item>, split_direction: &str, invalid_unit: Unit, unit_name: &str) -> (r:
    Result<(), ParseError>)
    requires
        (split_direction@ == "horizontal (|)"@ && invalid_unit == Unit::Row && unit_name@ == "row"@)
            || (split_direction@ == "vertical (/)"@ && invalid_unit == Unit::Col && unit_name@
            == "col"@),
    ensures
        check_result(r) == spec_validate_children(items_model(children@), invalid_unit == Unit::Row),
    decreases children,
{
    let ghost horizontal = invalid_unit == Unit::Row;
    let ghost models = items_model(children@);
    proof {
        lemma_items_model_len(children@);
        assert(models.subrange(0, models.len() as int) =~= models);
    }
    let n = children.len();
    let mut i: usize = 0;
    while i < n
        invariant
            n == children@.len(),
            models == items_model(children@),
            models.len() == n,
            forall|k: int| 0 <= k < n ==> #[trigger] models[k] == children@[k]@,
            horizontal == (invalid_unit == Unit::Row),
            (split_direction@ == "horizontal (|)"@ && invalid_unit == Unit::Row && unit_name@
                == "row"@) || (split_direction@ == "vertical (/)"@ && invalid_unit == Unit::Col
                && unit_name@ == "col"@),
            0 <= i <= n,
            spec_validate_children(models, horizontal) == spec_validate_children(
                models.subrange(i as int, n as int),
                horizontal,
            ),
        decreases n - i,
    {
        let child = &children[i];
        proof {
            let rest = models.subrange(i as int, n as int);
            assert(rest[0] == child@);
            assert(rest.subrange(1, rest.len() as int) =~= models.subrange(i + 1, n as int));
        }
        match check_unit(child, split_direction, invalid_unit, unit_name) {
            Ok(_) => {},
            Err(e) => return Err(e),
        }
        match validate_node(&child.node) {
            Ok(_) => {},
            Err(e) => return Err(e),
        }
        i += 1;
    }
    Ok(())
}

fn check_unit(item: &Item, split_direction: &str, invalid_unit: Unit, unit_name: &str) -> (r: Result<
    (),
    ParseError,
>)
    ensures
        check_result(r) == unit_error(item@, split_direction@, invalid_unit, unit_name@),
{
    match &item.size {
        Some(size) => {
            if size.unit == invalid_unit {
                let mut message = string_of("'");
                push_str(&mut message, unit_name);
                push_str(&mut message, "' unit is not valid in a ");
                push_str(&mut message, split_direction);
                push_str(&mut message, " split");
                return Err(
                    ParseError {
                        message,
                        span: item.span,
                        kind: ErrorKind::InvalidUnitForSplit {
                            unit: string_of(unit_name),
                            split: string_of(split_direction),
                        },
                    },
                );
            }
        },
        None => {},
    }
    Ok(())
}

proof fn lemma_children_iff(children: Seq<ItemModel>, horizontal: bool)
    ensures
        spec_validate_children(children, horizontal) is Ok <==> forall|i: int|
            0 <= i < children.len() ==> !has_unit(
                #[trigger] children[i],
                if horizontal {
                    Unit::Row
                } else {
                    Unit::Col
                },
            ) && units_fit(children[i].node),
    decreases children,
{
    let forbidden = if horizontal {
        Unit::Row
    } else {
        Unit::Col
    };
    if children.len() > 0 {
        let rest = children.subrange(1, children.len() as int);
        lemma_validate_iff_units_fit(children[0].node);
        lemma_children_iff(rest, horizontal);
        if spec_validate_children(children, horizontal) is Ok {
            assert forall|i: int| 0 <= i < children.len() implies !has_unit(
                #[trigger] children[i],
                forbidden,
            ) && units_fit(children[i].node) by {
                if i > 0 {
                    assert(rest[i - 1] == children[i]);
                }
            }
        }
        if forall|i: int|
            0 <= i < children.len() ==> !has_unit(#[trigger] children[i], forbidden) && units_fit(
                children[i].node,
            ) {
            assert forall|i: int| 0 <= i < rest.len() implies !has_unit(
                #[trigger] rest[i],
                forbidden,
            ) && units_fit(rest[i].node) by {
                assert(rest[i] == children[i + 1]);
            }
            assert(!has_unit(children[0], forbidden));
        }
    }
}

/// Validation succeeds exactly on trees whose units fit their splits.
pub proof fn lemma_validate_iff_units_fit(node: NodeModel)
    ensures
        spec_validate_node(node) is Ok <==> units_fit(node),
    decreases node,
{
    match node {
        NodeModel::Panel { .. } => {},
        NodeModel::HSplit { children } => {
            lemma_children_iff(children, true);
        },
        NodeModel::VSplit { children } => {
            lemma_children_iff(children, false);
        },
    }
}

/// `e` reports a misused unit in `node`: some item directly inside a `|`
/// split carries `row`, or directly inside a `/` split carries `col`, and `e`
/// names that unit and that split's direction and points at that item.
pub open spec fn reports_misuse(node: NodeModel, e: ErrorModel) -> bool
    decreases node,
{
    match node {
        NodeModel::Panel { .. } => false,
        NodeModel::HSplit { children } => exists|i: int|
            0 <= i < children.len() && ({
                ||| (has_unit(#[trigger] children[i], Unit::Row) && e.span == children[i].span
                    && e.kind == KindModel::InvalidUnitForSplit {
                    unit: "row"@,
                    split: "horizontal (|)"@,
                })
                ||| reports_misuse(children[i].node, e)
            }),
        NodeModel::VSplit { children } => exists|i: int|
            0 <= i < children.len() && ({
                ||| (has_unit(#[trigger] children[i], Unit::Col) && e.span == children[i].span
                    && e.kind == KindModel::InvalidUnitForSplit {
                    unit: "col"@,
                    split: "vertical (/)"@,
                })
                ||| reports_misuse(children[i].node, e)
            }),
    }
}

/// The misuse an error of `children` reports, for a split of direction `horizontal`.
pub open spec fn reports_child_misuse(children: Seq<ItemModel>, horizontal: bool, e: ErrorModel) -> bool {
    exists|i: int|
        0 <= i < children.len() && ({
            ||| (horizontal && has_unit(#[trigger] children[i], Unit::Row) && e.span
                == children[i].span && e.kind == KindModel::InvalidUnitForSplit {
                unit: "row"@,
                split: "horizontal (|)"@,
            })
            ||| (!horizontal && has_unit(children[i], Unit::Col) && e.span == children[i].span
                && e.kind == KindModel::InvalidUnitForSplit { unit: "col"@, split: "vertical (/)"@ })
            ||| reports_misuse(children[i].node, e)
        })
}

proof fn lemma_children_misuse(children: Seq<ItemModel>, horizontal: bool)
    ensures
        spec_validate_children(children, horizontal) matches Err(e) ==> reports_child_misuse(
            children,
            horizontal,
            e,
        ),
    decreases children, 0int,
{
    if children.len() > 0 {
        let first = children[0];
        let rest = children.subrange(1, children.len() as int);
        if let Err(e) = spec_validate_children(children, horizontal) {
            let check = if horizontal {
                unit_error(first, "horizontal (|)"@, Unit::Row, "row"@)
            } else {
                unit_error(first, "vertical (/)"@, Unit::Col, "col"@)
            };
            if check is Err {
                assert(has_unit(children[0], if horizontal { Unit::Row } else { Unit::Col }));
                assert(reports_child_misuse(children, horizontal, e));
            } else if spec_validate_node(first.node) is Err {
                lemma_node_misuse(first.node);
                assert(reports_misuse(children[0].node, e));
                assert(reports_child_misuse(children, horizontal, e));
            } else {
                lemma_children_misuse(rest, horizontal);
                let j = choose|j: int|
                    0 <= j < rest.len() && ({
                        ||| (horizontal && has_unit(#[trigger] rest[j], Unit::Row) && e.span
                            == rest[j].span && e.kind == KindModel::InvalidUnitForSplit {
                            unit: "row"@,
                            split: "horizontal (|)"@,
                        })
                        ||| (!horizontal && has_unit(rest[j], Unit::Col) && e.span
                            == rest[j].span && e.kind == KindModel::InvalidUnitForSplit {
                            unit: "col"@,
                            split: "vertical (/)"@,
                        })
                        ||| reports_misuse(rest[j].node, e)
                    });
                assert(rest[j] == children[j + 1]);
                assert(reports_child_misuse(children, horizontal, e));
            }
        }
    }
}

proof fn lemma_node_misuse(node: NodeModel)
    ensures
        spec_validate_node(node) matches Err(e) ==> reports_misuse(node, e),
    decreases node, 1int,
{
    match node {
        NodeModel::Panel { .. } => {},
        NodeModel::HSplit { children } => {
            lemma_children_misuse(children, true);
        },
        NodeModel::VSplit { children } => {
            lemma_children_misuse(children, false);
        },
    }
}

/// A failed validation reports an actual misuse: an item of the tree that
/// carries `row` directly inside a `|` split (the error then names `row` and
/// the horizontal split) or `col` directly inside a `/` split (the error then
/// names `col` and the vertical split), and the error's span is that item's.
pub proof fn law_validation_names_misuse(node: NodeModel)
    ensures
        spec_validate_node(node) matches Err(e) ==> reports_misuse(node, e),
{
    lemma_node_misuse(node);
}

} // verus!
