//! Targeting strategies and threats.

use vstd::prelude::*;

verus! {

#[derive(Clone, Copy, PartialEq, Eq, Structural, Debug)]
pub enum Targeting {
    First,
    Close,
}

/// Towers that target mobs can alert the mobs by adding threat components to them.
#[derive(Clone, Copy, PartialEq, Eq, Structural, Debug)]
pub struct Threat {}

} // verus!
