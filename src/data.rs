//! The flat table that comes in and the forest that folding makes of it.

use crate::value::Value;
use vstd::prelude::*;

verus! {

/// A flat table, extracted from a format such as CSV: column names, and rows of values
/// aligned with them by position.
#[derive(Debug)]
pub struct FlatData {
    pub keys: Vec<String>,
    pub records: Vec<Vec<Value>>,
}

/// The types that a column's values can be read as.
#[derive(Debug, PartialEq, Eq, Copy, Clone)]
pub enum ValueType {
    Text,
    Number,
}

/// One element of the hierarchy: the index of its row in the table, and its children in order.
#[derive(Debug, PartialEq, Eq)]
pub struct Node {
    pub record: usize,
    pub children: Vec<Node>,
}

/// The hierarchy that folding recovers from a table: its trees, in order, over the rows
/// and column names of that table.
#[derive(Debug)]
pub struct FoldedData<'a> {
    /// Names of the attributes stored positionally on every row.
    pub attribute_keys: &'a Vec<String>,
    /// The rows that the nodes stand for.
    pub records: &'a Vec<Vec<Value>>,
    /// The nodes that have no parent.
    pub top_level_nodes: Vec<Node>,
}

/// The rows of a node's subtree, in pre-order.
pub open spec fn preorder(n: Node) -> Seq<int>
    decreases n, 0int,
{
    seq![n.record as int] + preorder_all(n.children@)
}

/// The rows of a sequence of subtrees, in pre-order.
pub open spec fn preorder_all(ns: Seq<Node>) -> Seq<int>
    decreases ns, ns.len(),
{
    if ns.len() == 0 {
        Seq::empty()
    } else {
        preorder_all(ns.drop_last()) + preorder(ns.last())
    }
}

} // verus!
