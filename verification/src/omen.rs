//! The omens of the affixes, by the currency that they go with: each
//! narrows the tiers that the currency touches to prefixes or to suffixes.

use crate::catalog::Catalog;
use crate::crafting::filter_affix;
use crate::hashvec::OpaqueIndex;
use crate::item_state::has_affix;
use crate::types::{Affix, Tier};
use vstd::prelude::*;

verus! {

/// The next annulment removes prefixes only.
pub struct SinistralAnnulment;

impl SinistralAnnulment {
    /// The tiers that the omen leaves of the candidates.
    pub fn filter_mods(cat: &Catalog, candidate_mods: &[OpaqueIndex<Tier>]) -> (kept: Vec<
        OpaqueIndex<Tier>,
    >)
        requires
            cat.has_tiers(candidate_mods@),
        ensures
            kept@ == candidate_mods@.filter(has_affix(cat, Affix::Prefix)),
    {
        filter_affix(cat, candidate_mods, Affix::Prefix)
    }
}

/// The next annulment removes suffixes only.
pub struct DextralAnnulment;

impl DextralAnnulment {
    /// The tiers that the omen leaves of the candidates.
    pub fn filter_mods(cat: &Catalog, candidate_mods: &[OpaqueIndex<Tier>]) -> (kept: Vec<
        OpaqueIndex<Tier>,
    >)
        requires
            cat.has_tiers(candidate_mods@),
        ensures
            kept@ == candidate_mods@.filter(has_affix(cat, Affix::Suffix)),
    {
        filter_affix(cat, candidate_mods, Affix::Suffix)
    }
}

/// The next regal adds a prefix.
pub struct SinistralCoronation;

impl SinistralCoronation {
    /// The tiers that the omen leaves of the candidates.
    pub fn filter_mods(cat: &Catalog, candidate_mods: &[OpaqueIndex<Tier>]) -> (kept: Vec<
        OpaqueIndex<Tier>,
    >)
        requires
            cat.has_tiers(candidate_mods@),
        ensures
            kept@ == candidate_mods@.filter(has_affix(cat, Affix::Prefix)),
    {
        filter_affix(cat, candidate_mods, Affix::Prefix)
    }
}

/// The next regal adds a suffix.
pub struct DextralCoronation;

impl DextralCoronation {
    /// The tiers that the omen leaves of the candidates.
    pub fn filter_mods(cat: &Catalog, candidate_mods: &[OpaqueIndex<Tier>]) -> (kept: Vec<
        OpaqueIndex<Tier>,
    >)
        requires
            cat.has_tiers(candidate_mods@),
        ensures
            kept@ == candidate_mods@.filter(has_affix(cat, Affix::Suffix)),
    {
        filter_affix(cat, candidate_mods, Affix::Suffix)
    }
}

/// The next perfect essence removes prefixes only.
pub struct SinistralCrystallisation;

impl SinistralCrystallisation {
    /// The tiers that the omen leaves of the candidates.
    pub fn filter_mods(cat: &Catalog, candidate_mods: &[OpaqueIndex<Tier>]) -> (kept: Vec<
        OpaqueIndex<Tier>,
    >)
        requires
            cat.has_tiers(candidate_mods@),
        ensures
            kept@ == candidate_mods@.filter(has_affix(cat, Affix::Prefix)),
    {
        filter_affix(cat, candidate_mods, Affix::Prefix)
    }
}

/// The next perfect essence removes suffixes only.
pub struct DextralCrystallisation;

impl DextralCrystallisation {
    /// The tiers that the omen leaves of the candidates.
    pub fn filter_mods(cat: &Catalog, candidate_mods: &[OpaqueIndex<Tier>]) -> (kept: Vec<
        OpaqueIndex<Tier>,
    >)
        requires
            cat.has_tiers(candidate_mods@),
        ensures
            kept@ == candidate_mods@.filter(has_affix(cat, Affix::Suffix)),
    {
        filter_affix(cat, candidate_mods, Affix::Suffix)
    }
}

} // verus!
