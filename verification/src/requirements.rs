//! A wanted skill and the points it needs.

use vstd::prelude::*;

verus! {

/// A named skill attribute and the least number of points wanted of it.
#[derive(Debug, Clone, PartialEq, Eq)]
pub struct Requirement {
    pub name: String,
    pub points: i32,
}

} // verus!
