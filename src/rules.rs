//! The configuration that drives folding and the output format.

use crate::data::ValueType;
use std::collections::HashMap;
use vstd::prelude::*;

verus! {

/// Locates a row's parent by looking up a value that names it, such as a "parent part number"
/// column that references another row's part number. Not supported yet.
#[derive(Debug)]
pub struct AbsoluteParentLocator {}

/// How rows are turned into a hierarchy.
#[derive(Debug)]
pub struct Rules {
    /// The type to read each named column as; columns not named are text.
    pub type_mapping: Option<HashMap<String, ValueType>>,
    pub child_identification_policy: ChildIdentificationPolicy,
    /// Determines the format for the output.
    pub output_rules: OutputRules,
}

/// The two ways children can be identified:
/// by a level column that gives each row's depth, where every row that follows a row and is
/// deeper than it belongs under it; or by a lookup of the parent through a key.
#[derive(Debug)]
pub enum ChildIdentificationPolicy {
    OrderedLevelKey(String),
    Absolute(AbsoluteParentLocator),
}

/// The output formats.
#[derive(Debug)]
pub enum OutputRules {
    ItemSync(ItemSyncFormatRules),
}

/// Which columns give the id, the name and the quantity of an item.
#[derive(Debug)]
pub struct ItemSyncFormatRules {
    pub id_key: String,
    /// If `None` then the id is reused for the name.
    pub name_key: Option<String>,
    /// If `None` then quantity will default to 1.
    pub quantity_key: Option<String>,
}

} // verus!
