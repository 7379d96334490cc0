//! The layout tree that parsing produces, and its mathematical model.
use vstd::prelude::*;

verus! {

/// A byte-offset span in the source text.
#[derive(Debug, Clone, Copy, PartialEq, Eq, Structural)]
pub struct Span {
    pub start: usize,
    pub end: usize,
}

/// Size units.
#[derive(Debug, Clone, Copy, PartialEq, Eq, Structural)]
pub enum Unit {
    Fr,
    Col,
    Row,
    Px,
    Percent,
}

/// A size annotation. `value` is the decimal literal as written
/// (digits, optionally with one `.`, never `.` alone); its numeric
/// value is that of the literal.
#[derive(Debug, Clone, PartialEq)]
pub struct Size {
    pub value: String,
    pub unit: Unit,
}

/// A layout item: a node with an optional size annotation.
#[derive(Debug, PartialEq)]
pub struct Item {
    pub node: Node,
    pub size: Option<Size>,
    pub span: Span,
}

/// A layout node: either a leaf panel or a split group.
#[derive(Debug, PartialEq)]
pub enum Node {
    Panel { name: String },
    HSplit { children: Vec<Item> },
    VSplit { children: Vec<Item> },
}

/// Model of a [`Size`].
pub struct SizeModel {
    pub value: Seq<char>,
    pub unit: Unit,
}

/// Model of an [`Item`].
pub struct ItemModel {
    pub node: NodeModel,
    pub size: Option<SizeModel>,
    pub span: Span,
}

/// Model of a [`Node`].
pub enum NodeModel {
    Panel { name: Seq<char> },
    HSplit { children: Seq<ItemModel> },
    VSplit { children: Seq<ItemModel> },
}

impl View for Size {
    type V = SizeModel;

    open spec fn view(&self) -> SizeModel {
        SizeModel { value: self.value@, unit: self.unit }
    }
}

pub open spec fn size_model(s: Option<Size>) -> Option<SizeModel> {
    match s {
        Some(sz) => Some(sz@),
        None => None,
    }
}

pub open spec fn item_model(it: Item) -> ItemModel
    decreases it,
{
    ItemModel { node: node_model(it.node), size: size_model(it.size), span: it.span }
}

pub open spec fn node_model(n: Node) -> NodeModel
    decreases n,
{
    match n {
        Node::Panel { name } => NodeModel::Panel { name: name@ },
        Node::HSplit { children } => NodeModel::HSplit { children: items_model(children@) },
        Node::VSplit { children } => NodeModel::VSplit { children: items_model(children@) },
    }
}

pub open spec fn items_model(items: Seq<Item>) -> Seq<ItemModel>
    decreases items,
{
    if items.len() == 0 {
        Seq::empty()
    } else {
        items_model(items.subrange(0, items.len() - 1)).push(item_model(items[items.len() - 1]))
    }
}

impl View for Item {
    type V = ItemModel;

    open spec fn view(&self) -> ItemModel {
        item_model(*self)
    }
}

impl View for Node {
    type V = NodeModel;

    open spec fn view(&self) -> NodeModel {
        node_model(*self)
    }
}

fn clone_size(size: &Option<Size>) -> (r: Option<Size>)
    ensures
        size_model(r) == size_model(*size),
{
    match size {
        Some(sz) => Some(Size { value: sz.value.clone(), unit: sz.unit }),
        None => None,
    }
}

fn clone_item(it: &Item) -> (r: Item)
    ensures
        r@ == it@,
    decreases it, 2int,
{
    Item { node: clone_node(&it.node), size: clone_size(&it.size), span: it.span }
}

fn clone_node(node: &Node) -> (r: Node)
    ensures
        r@ == node@,
    decreases node, 1int,
{
    match node {
        Node::Panel { name } => Node::Panel { name: name.clone() },
        Node::HSplit { children } => Node::HSplit { children: clone_items(children, Ghost(*node)) },
        Node::VSplit { children } => Node::VSplit { children: clone_items(children, Ghost(*node)) },
    }
}

fn clone_items(items: &Vec<Item>, Ghost(parent): Ghost<Node>) -> (r: Vec<Item>)
    requires
        parent matches Node::HSplit { children } ==> children == *items,
        parent matches Node::VSplit { children } ==> children == *items,
        !(parent is Panel),
    ensures
        items_model(r@) == items_model(items@),
    decreases parent, 0int,
{
    let mut out: Vec<Item> = Vec::new();
    let mut i: usize = 0;
    while i < items.len()
        invariant
            i <= items.len(),
            items_model(out@) == items_model(items@.subrange(0, i as int)),
            parent matches Node::HSplit { children } ==> children == *items,
            parent matches Node::VSplit { children } ==> children == *items,
            !(parent is Panel),
        decreases items.len() - i,
    {
        proof {
            assert(decreases_to!(parent => items@[i as int]));
        }
        let c = clone_item(&items[i]);
        proof {
            lemma_items_model_push(out@, c);
            lemma_items_model_push(items@.subrange(0, i as int), items@[i as int]);
            assert(items@.subrange(0, i + 1) =~= items@.subrange(0, i as int).push(items@[i as int]));
        }
        out.push(c);
        i = i + 1;
    }
    assert(items@.subrange(0, items.len() as int) =~= items@);
    out
}

impl Clone for Item {
    fn clone(&self) -> (r: Self)
        ensures
            r@ == self@,
    {
        clone_item(self)
    }
}

impl Clone for Node {
    fn clone(&self) -> (r: Self)
        ensures
            r@ == self@,
    {
        clone_node(self)
    }
}

pub proof fn lemma_items_model_push(items: Seq<Item>, it: Item)
    ensures
        items_model(items.push(it)) == items_model(items).push(item_model(it)),
{
    assert(items.push(it).subrange(0, items.len() as int) =~= items);
}

pub proof fn lemma_items_model_len(items: Seq<Item>)
    ensures
        items_model(items).len() == items.len(),
        forall|i: int| 0 <= i < items.len() ==> #[trigger] items_model(items)[i] == item_model(items[i]),
    decreases items.len(),
{
    if items.len() > 0 {
        let init = items.subrange(0, items.len() - 1);
        lemma_items_model_len(init);
        assert forall|i: int| 0 <= i < items.len() implies #[trigger] items_model(items)[i] == item_model(items[i]) by {
            if i < items.len() - 1 {
                assert(init[i] == items[i]);
            }
        }
    }
}

} // verus!
