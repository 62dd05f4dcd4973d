//! Choosing how to fold a flat table, by the rules.

use crate::data::{FlatData, FoldedData};
use crate::error::Error;
use crate::ordered_level_key::{fold, folds_to};
use crate::rules::{ChildIdentificationPolicy, Rules};
use vstd::prelude::*;

verus! {

/// Converts the flat representation of an item hierarchy into the folded one, by the policy
/// that the rules give. Locating parents by lookup is not supported yet and fails as
/// unimplemented.
pub fn transform<'d>(flat_data: &'d FlatData, rules: &Rules) -> (r: Result<FoldedData<'d>, Error>)
    ensures
        match rules.child_identification_policy {
            ChildIdentificationPolicy::OrderedLevelKey(key) => folds_to(*flat_data, key@, r)
                && (r matches Ok(f) ==> *f.attribute_keys == flat_data.keys && *f.records
                == flat_data.records),
            ChildIdentificationPolicy::Absolute(_) => r matches Err(e) && e is Unimplemented,
        },
{
    match &rules.child_identification_policy {
        ChildIdentificationPolicy::OrderedLevelKey(key) => fold(flat_data, key.as_str()),
        ChildIdentificationPolicy::Absolute(_) => Err(
            Error::unimplemented("Currently don't support absolute parent location"),
        ),
    }
}

} // verus!
