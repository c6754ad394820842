//! Documents and their leaves, and the mathematical trees that contracts
//! compare them by.

use crate::path::decimal;
use vstd::prelude::*;

verus! {

/// A JSON number as `serde_json` holds it. The library never looks inside one;
/// it only carries numbers from the leaves of a document into rows and back.
#[verifier::external_type_specification]
#[verifier::external_body]
pub struct ExNumber(serde_json::Number);

/// `Number::clone` returns a number equal to its argument: the type is a plain
/// value whose derived `Clone` copies its one field.
pub assume_specification[ <serde_json::Number as Clone>::clone ](
    n: &serde_json::Number,
) -> (r: serde_json::Number)
    ensures
        r == *n,
;

/// A leaf of a document.
#[derive(Debug, PartialEq)]
pub enum Scalar {
    Null,
    Bool(bool),
    Number(serde_json::Number),
    Text(String),
}

/// A nested document as it is read: containers keep their entries in
/// document order, and an object may repeat a key.
#[derive(Debug, PartialEq)]
pub enum Document {
    Leaf(Scalar),
    Array(Vec<Document>),
    Object(Vec<(Vec<u8>, Document)>),
}

/// The mathematical shape of a document. An object is the map from its keys
/// to its children; where a key occurs twice, the later entry counts.
pub ghost enum Tree {
    Leaf(Scalar),
    List(Seq<Tree>),
    Node(Map<Seq<u8>, Tree>),
}

/// The empty document: a single null.
pub open spec fn null_tree() -> Tree {
    Tree::Leaf(Scalar::Null)
}

/// The tree of a document.
pub open spec fn tree_of(d: Document) -> Tree
    decreases d,
{
    match d {
        Document::Leaf(s) => Tree::Leaf(s),
        Document::Array(items) => Tree::List(trees_of(items@)),
        Document::Object(entries) => Tree::Node(entries_tree(entries@)),
    }
}

/// The trees of the elements of an array, in order.
pub open spec fn trees_of(items: Seq<Document>) -> Seq<Tree>
    decreases items,
{
    if items.len() == 0 {
        Seq::empty()
    } else {
        trees_of(items.drop_last()).push(tree_of(items.last()))
    }
}

/// The map that the entries of an object stand for.
pub open spec fn entries_tree(entries: Seq<(Vec<u8>, Document)>) -> Map<Seq<u8>, Tree>
    decreases entries,
{
    if entries.len() == 0 {
        Map::empty()
    } else {
        entries_tree(entries.drop_last()).insert(entries.last().0@, tree_of(entries.last().1))
    }
}

/// The tree of a document once every array is read as an object keyed by
/// the decimal positions of its elements: `[x, y]` becomes
/// `{"0": x, "1": y}`.
pub open spec fn normal_form(d: Document) -> Tree
    decreases d,
{
    match d {
        Document::Leaf(s) => Tree::Leaf(s),
        Document::Array(items) => Tree::Node(items_normal_form(items@)),
        Document::Object(entries) => Tree::Node(entries_normal_form(entries@)),
    }
}

/// The map from decimal positions to the normal forms of the elements.
pub open spec fn items_normal_form(items: Seq<Document>) -> Map<Seq<u8>, Tree>
    decreases items,
{
    if items.len() == 0 {
        Map::empty()
    } else {
        items_normal_form(items.drop_last()).insert(
            decimal((items.len() - 1) as nat),
            normal_form(items.last()),
        )
    }
}

/// The map from keys to the normal forms of the children.
pub open spec fn entries_normal_form(entries: Seq<(Vec<u8>, Document)>) -> Map<Seq<u8>, Tree>
    decreases entries,
{
    if entries.len() == 0 {
        Map::empty()
    } else {
        entries_normal_form(entries.drop_last()).insert(
            entries.last().0@,
            normal_form(entries.last().1),
        )
    }
}

impl View for Document {
    type V = Tree;

    open spec fn view(&self) -> Tree {
        tree_of(*self)
    }
}

impl Scalar {
    /// A copy of this scalar.
    pub fn duplicate(&self) -> (r: Scalar)
        ensures
            r == *self,
    {
        match self {
            Scalar::Null => Scalar::Null,
            Scalar::Bool(b) => Scalar::Bool(*b),
            Scalar::Number(n) => Scalar::Number(n.clone()),
            Scalar::Text(t) => Scalar::Text(t.clone()),
        }
    }
}

impl Document {
    /// The empty document: a single null.
    pub fn null() -> (d: Document)
        ensures
            d == Document::Leaf(Scalar::Null),
            d@ == null_tree(),
    {
        Document::Leaf(Scalar::Null)
    }
}

} // verus!
