//! The project record the management system tracks.

use vstd::prelude::*;

verus! {

/// A project: a stored identifier and its describing fields.
#[derive(Debug, PartialEq)]
pub struct Project {
    pub id: i32,
    pub name: String,
    pub description: String,
}

} // verus!
