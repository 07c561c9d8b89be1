//! The envelope of `zfs` output in JSON.

use vstd::prelude::*;

verus! {

/// What a command prints: datasets by name.
#[derive(Debug)]
pub struct ZfsOutput {
    pub datasets: Vec<(String, DatasetInfo)>,
}

/// The properties of a dataset, by name.
#[derive(Debug)]
pub struct DatasetInfo {
    pub properties: Vec<(String, PropertyValue)>,
}

/// The value of a property.
#[derive(Debug)]
pub struct PropertyValue {
    pub value: String,
}

} // verus!
