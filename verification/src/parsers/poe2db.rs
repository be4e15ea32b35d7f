//! The table of the base items: what rolls on each, and how often.

#![allow(non_snake_case)]

use vstd::prelude::*;

verus! {

/// What is known of a base item.
#[derive(Debug, Clone)]
pub struct ItemRoot {
    pub opt: Opt,
    /// The tiers that roll on the base item.
    pub normal: Vec<Modifier>,
}

/// The class and the domain of a base item.
#[derive(Debug, Clone)]
pub struct Opt {
    pub ItemClassesCode: String,
    pub ModDomainsID: u32,
}

/// A tier that rolls on a base item.
#[derive(Debug, Clone)]
pub struct Modifier {
    /// The id of the tier.
    pub Code: String,
    /// The weight of the tier.
    pub DropChance: u32,
}

} // verus!
