//! The currencies: when each can be used on an item, and what it does to it.

pub mod essence;
pub mod grades;
pub mod laws;
pub mod names;
pub mod orbs;
pub mod steps;

use crate::catalog::Catalog;
use crate::hashvec::OpaqueIndex;
use crate::item_state::{within_level, ItemState};
use crate::types::{OmenSet, Tier};
use vstd::prelude::*;

pub use essence::{Desecrate, Essence, PerfectEssence};
pub use grades::{
    GreaterAugmentation, GreaterChaos, GreaterExalt, GreaterRegal, GreaterTransmute,
    PerfectAugmentation, PerfectChaos, PerfectExalt, PerfectRegal, PerfectTransmute,
};
use orbs::no_omens;
pub use orbs::{Alchemy, Annulment, Augmentation, Chaos, Exalt, Regal, Transmute};

verus! {

/// Why a currency did not do all of its work.
#[derive(Debug, Clone, Copy, PartialEq, Eq, Structural)]
pub enum CraftError {
    /// A roll or a removal found nothing to choose from.
    NoCandidates,
}

/// What every currency can be asked: whether it can be used on an item, and
/// to be used on it.
pub trait Currency {
    /// What the currency itself holds is of the catalog.
    spec fn wf(&self, cat: &Catalog) -> bool;

    /// The currency can be used on the item, with this pool and these omens.
    spec fn usable(
        &self,
        cat: &Catalog,
        item: &ItemState,
        pool: Seq<OpaqueIndex<Tier>>,
        omens: OmenSet,
    ) -> bool;

    /// The currency may make `after` of `before`. With `done` false it
    /// stopped where a roll or a removal found nothing to choose from.
    spec fn crafts(
        &self,
        cat: &Catalog,
        before: &ItemState,
        pool: Seq<OpaqueIndex<Tier>>,
        omens: OmenSet,
        after: &ItemState,
        done: bool,
    ) -> bool;

    /// Whatever the rolls give, the currency leaves this item in a state
    /// that the rules allow, if it was in one and the pool is at its level.
    spec fn sound_on(
        &self,
        cat: &Catalog,
        item: &ItemState,
        pool: Seq<OpaqueIndex<Tier>>,
        omens: OmenSet,
    ) -> bool;

    /// A currency that can be used leaves an item that the rules allow in a
    /// state that they allow.
    proof fn lemma_keeps_valid(
        &self,
        cat: &Catalog,
        before: &ItemState,
        pool: Seq<OpaqueIndex<Tier>>,
        omens: OmenSet,
        after: &ItemState,
        done: bool,
    )
        requires
            self.wf(cat),
            self.usable(cat, before, pool, omens),
            self.crafts(cat, before, pool, omens, after, done),
            self.sound_on(cat, before, pool, omens),
            before.valid(cat),
            within_level(cat, pool, before.item_level),
        ensures
            after.valid(cat),
    ;

    /// A currency that can be used never lowers the rarity, and leaves the
    /// base and the level of the item as they are.
    proof fn lemma_keeps_frame(
        &self,
        cat: &Catalog,
        before: &ItemState,
        pool: Seq<OpaqueIndex<Tier>>,
        omens: OmenSet,
        after: &ItemState,
        done: bool,
    )
        requires
            self.usable(cat, before, pool, omens),
            self.crafts(cat, before, pool, omens, after, done),
        ensures
            before.rarity.rank() <= after.rarity.rank(),
            after.base_type == before.base_type,
            after.item_level == before.item_level,
    ;

    /// Whether what the currency itself holds is of the catalog.
    fn is_wf(&self, cat: &Catalog) -> (wf: bool)
        ensures
            wf == self.wf(cat),
    ;

    /// The name of the currency.
    fn name(&self) -> &str;

    /// Whether this currency can be used on the item, with this pool and
    /// these omens.
    fn can_be_used(
        &self,
        cat: &Catalog,
        item: &ItemState,
        candidate_tiers: &[OpaqueIndex<Tier>],
        omens: &OmenSet,
    ) -> (usable: bool)
        requires
            cat.wf(),
            self.wf(cat),
            item.wf(cat),
            cat.has_tiers(candidate_tiers@),
        ensures
            usable == self.usable(cat, item, candidate_tiers@, *omens),
    ;

    /// Uses this currency on the item. It stops with an error where a roll
    /// or a removal finds nothing to choose from.
    fn craft(
        &self,
        cat: &Catalog,
        item: &mut ItemState,
        candidate_tiers: &[OpaqueIndex<Tier>],
        omens: &OmenSet,
    ) -> (done: Result<(), CraftError>)
        requires
            cat.wf(),
            self.wf(cat),
            old(item).wf(cat),
            cat.has_tiers(candidate_tiers@),
            self.usable(cat, old(item), candidate_tiers@, *omens),
        ensures
            final(item).wf(cat),
            self.crafts(cat, old(item), candidate_tiers@, *omens, final(item), done is Ok),
            old(item).rarity.rank() <= final(item).rarity.rank(),
            old(item).valid(cat) && within_level(cat, candidate_tiers@, old(item).item_level)
                && self.sound_on(cat, old(item), candidate_tiers@, *omens) ==> final(item).valid(
                cat,
            ),
    ;
}

/// Every kind of currency.
#[derive(Debug, PartialEq)]
pub enum CurrencyType {
    Transmute,
    GreaterTransmute,
    PerfectTransmute,
    Augmentation,
    GreaterAugmentation,
    PerfectAugmentation,
    Regal,
    GreaterRegal,
    PerfectRegal,
    Exalt,
    GreaterExalt,
    PerfectExalt,
    Annulment,
    Alchemy,
    Chaos,
    GreaterChaos,
    PerfectChaos,
    Essence(Essence),
    PerfectEssence(PerfectEssence),
    Desecrate,
}

impl Clone for CurrencyType {
    fn clone(&self) -> (copy: Self)
        ensures
            self.same_as(&copy),
    {
        match self {
            CurrencyType::Transmute => CurrencyType::Transmute,
            CurrencyType::GreaterTransmute => CurrencyType::GreaterTransmute,
            CurrencyType::PerfectTransmute => CurrencyType::PerfectTransmute,
            CurrencyType::Augmentation => CurrencyType::Augmentation,
            CurrencyType::GreaterAugmentation => CurrencyType::GreaterAugmentation,
            CurrencyType::PerfectAugmentation => CurrencyType::PerfectAugmentation,
            CurrencyType::Regal => CurrencyType::Regal,
            CurrencyType::GreaterRegal => CurrencyType::GreaterRegal,
            CurrencyType::PerfectRegal => CurrencyType::PerfectRegal,
            CurrencyType::Exalt => CurrencyType::Exalt,
            CurrencyType::GreaterExalt => CurrencyType::GreaterExalt,
            CurrencyType::PerfectExalt => CurrencyType::PerfectExalt,
            CurrencyType::Annulment => CurrencyType::Annulment,
            CurrencyType::Alchemy => CurrencyType::Alchemy,
            CurrencyType::Chaos => CurrencyType::Chaos,
            CurrencyType::GreaterChaos => CurrencyType::GreaterChaos,
            CurrencyType::PerfectChaos => CurrencyType::PerfectChaos,
            CurrencyType::Essence(essence) => CurrencyType::Essence(essence.clone()),
            CurrencyType::PerfectEssence(essence) => CurrencyType::PerfectEssence(essence.clone()),
            CurrencyType::Desecrate => CurrencyType::Desecrate,
        }
    }
}

impl Currency for CurrencyType {
    open spec fn wf(&self, cat: &Catalog) -> bool {
        match self {
            CurrencyType::Transmute => Transmute.wf(cat),
            CurrencyType::GreaterTransmute => GreaterTransmute.wf(cat),
            CurrencyType::PerfectTransmute => PerfectTransmute.wf(cat),
            CurrencyType::Augmentation => Augmentation.wf(cat),
            CurrencyType::GreaterAugmentation => GreaterAugmentation.wf(cat),
            CurrencyType::PerfectAugmentation => PerfectAugmentation.wf(cat),
            CurrencyType::Regal => Regal.wf(cat),
            CurrencyType::GreaterRegal => GreaterRegal.wf(cat),
            CurrencyType::PerfectRegal => PerfectRegal.wf(cat),
            CurrencyType::Exalt => Exalt.wf(cat),
            CurrencyType::GreaterExalt => GreaterExalt.wf(cat),
            CurrencyType::PerfectExalt => PerfectExalt.wf(cat),
            CurrencyType::Annulment => Annulment.wf(cat),
            CurrencyType::Alchemy => Alchemy.wf(cat),
            CurrencyType::Chaos => Chaos.wf(cat),
            CurrencyType::GreaterChaos => GreaterChaos.wf(cat),
            CurrencyType::PerfectChaos => PerfectChaos.wf(cat),
            CurrencyType::Essence(essence) => essence.wf(cat),
            CurrencyType::PerfectEssence(essence) => essence.wf(cat),
            CurrencyType::Desecrate => Desecrate.wf(cat),
        }
    }

    open spec fn usable(
        &self,
        cat: &Catalog,
        item: &ItemState,
        pool: Seq<OpaqueIndex<Tier>>,
        omens: OmenSet,
    ) -> bool {
        match self {
            CurrencyType::Transmute => Transmute.usable(cat, item, pool, omens),
            CurrencyType::GreaterTransmute => GreaterTransmute.usable(cat, item, pool, omens),
            CurrencyType::PerfectTransmute => PerfectTransmute.usable(cat, item, pool, omens),
            CurrencyType::Augmentation => Augmentation.usable(cat, item, pool, omens),
            CurrencyType::GreaterAugmentation => GreaterAugmentation.usable(cat, item, pool, omens),
            CurrencyType::PerfectAugmentation => PerfectAugmentation.usable(cat, item, pool, omens),
            CurrencyType::Regal => Regal.usable(cat, item, pool, omens),
            CurrencyType::GreaterRegal => GreaterRegal.usable(cat, item, pool, omens),
            CurrencyType::PerfectRegal => PerfectRegal.usable(cat, item, pool, omens),
            CurrencyType::Exalt => Exalt.usable(cat, item, pool, omens),
            CurrencyType::GreaterExalt => GreaterExalt.usable(cat, item, pool, omens),
            CurrencyType::PerfectExalt => PerfectExalt.usable(cat, item, pool, omens),
            CurrencyType::Annulment => Annulment.usable(cat, item, pool, omens),
            CurrencyType::Alchemy => Alchemy.usable(cat, item, pool, omens),
            CurrencyType::Chaos => Chaos.usable(cat, item, pool, omens),
            CurrencyType::GreaterChaos => GreaterChaos.usable(cat, item, pool, omens),
            CurrencyType::PerfectChaos => PerfectChaos.usable(cat, item, pool, omens),
            CurrencyType::Essence(essence) => essence.usable(cat, item, pool, omens),
            CurrencyType::PerfectEssence(essence) => essence.usable(cat, item, pool, omens),
            CurrencyType::Desecrate => Desecrate.usable(cat, item, pool, omens),
        }
    }

    open spec fn crafts(
        &self,
        cat: &Catalog,
        before: &ItemState,
        pool: Seq<OpaqueIndex<Tier>>,
        omens: OmenSet,
        after: &ItemState,
        done: bool,
    ) -> bool {
        match self {
            CurrencyType::Transmute => Transmute.crafts(cat, before, pool, omens, after, done),
            CurrencyType::GreaterTransmute => GreaterTransmute.crafts(cat, before, pool, omens, after, done),
            CurrencyType::PerfectTransmute => PerfectTransmute.crafts(cat, before, pool, omens, after, done),
            CurrencyType::Augmentation => Augmentation.crafts(cat, before, pool, omens, after, done),
            CurrencyType::GreaterAugmentation => GreaterAugmentation.crafts(cat, before, pool, omens, after, done),
            CurrencyType::PerfectAugmentation => PerfectAugmentation.crafts(cat, before, pool, omens, after, done),
            CurrencyType::Regal => Regal.crafts(cat, before, pool, omens, after, done),
            CurrencyType::GreaterRegal => GreaterRegal.crafts(cat, before, pool, omens, after, done),
            CurrencyType::PerfectRegal => PerfectRegal.crafts(cat, before, pool, omens, after, done),
            CurrencyType::Exalt => Exalt.crafts(cat, before, pool, omens, after, done),
            CurrencyType::GreaterExalt => GreaterExalt.crafts(cat, before, pool, omens, after, done),
            CurrencyType::PerfectExalt => PerfectExalt.crafts(cat, before, pool, omens, after, done),
            CurrencyType::Annulment => Annulment.crafts(cat, before, pool, omens, after, done),
            CurrencyType::Alchemy => Alchemy.crafts(cat, before, pool, omens, after, done),
            CurrencyType::Chaos => Chaos.crafts(cat, before, pool, omens, after, done),
            CurrencyType::GreaterChaos => GreaterChaos.crafts(cat, before, pool, omens, after, done),
            CurrencyType::PerfectChaos => PerfectChaos.crafts(cat, before, pool, omens, after, done),
            CurrencyType::Essence(essence) => essence.crafts(cat, before, pool, omens, after, done),
            CurrencyType::PerfectEssence(essence) => essence.crafts(cat, before, pool, omens, after, done),
            CurrencyType::Desecrate => Desecrate.crafts(cat, before, pool, omens, after, done),
        }
    }

    open spec fn sound_on(
        &self,
        cat: &Catalog,
        item: &ItemState,
        pool: Seq<OpaqueIndex<Tier>>,
        omens: OmenSet,
    ) -> bool {
        match self {
            CurrencyType::Transmute => Transmute.sound_on(cat, item, pool, omens),
            CurrencyType::GreaterTransmute => GreaterTransmute.sound_on(cat, item, pool, omens),
            CurrencyType::PerfectTransmute => PerfectTransmute.sound_on(cat, item, pool, omens),
            CurrencyType::Augmentation => Augmentation.sound_on(cat, item, pool, omens),
            CurrencyType::GreaterAugmentation => GreaterAugmentation.sound_on(cat, item, pool, omens),
            CurrencyType::PerfectAugmentation => PerfectAugmentation.sound_on(cat, item, pool, omens),
            CurrencyType::Regal => Regal.sound_on(cat, item, pool, omens),
            CurrencyType::GreaterRegal => GreaterRegal.sound_on(cat, item, pool, omens),
            CurrencyType::PerfectRegal => PerfectRegal.sound_on(cat, item, pool, omens),
            CurrencyType::Exalt => Exalt.sound_on(cat, item, pool, omens),
            CurrencyType::GreaterExalt => GreaterExalt.sound_on(cat, item, pool, omens),
            CurrencyType::PerfectExalt => PerfectExalt.sound_on(cat, item, pool, omens),
            CurrencyType::Annulment => Annulment.sound_on(cat, item, pool, omens),
            CurrencyType::Alchemy => Alchemy.sound_on(cat, item, pool, omens),
            CurrencyType::Chaos => Chaos.sound_on(cat, item, pool, omens),
            CurrencyType::GreaterChaos => GreaterChaos.sound_on(cat, item, pool, omens),
            CurrencyType::PerfectChaos => PerfectChaos.sound_on(cat, item, pool, omens),
            CurrencyType::Essence(essence) => essence.sound_on(cat, item, pool, omens),
            CurrencyType::PerfectEssence(essence) => essence.sound_on(cat, item, pool, omens),
            CurrencyType::Desecrate => Desecrate.sound_on(cat, item, pool, omens),
        }
    }

    proof fn lemma_keeps_valid(
        &self,
        cat: &Catalog,
        before: &ItemState,
        pool: Seq<OpaqueIndex<Tier>>,
        omens: OmenSet,
        after: &ItemState,
        done: bool,
    ) {
        match self {
            CurrencyType::Transmute => Transmute.lemma_keeps_valid(cat, before, pool, omens, after, done),
            CurrencyType::GreaterTransmute => GreaterTransmute.lemma_keeps_valid(cat, before, pool, omens, after, done),
            CurrencyType::PerfectTransmute => PerfectTransmute.lemma_keeps_valid(cat, before, pool, omens, after, done),
            CurrencyType::Augmentation => Augmentation.lemma_keeps_valid(cat, before, pool, omens, after, done),
            CurrencyType::GreaterAugmentation => GreaterAugmentation.lemma_keeps_valid(cat, before, pool, omens, after, done),
            CurrencyType::PerfectAugmentation => PerfectAugmentation.lemma_keeps_valid(cat, before, pool, omens, after, done),
            CurrencyType::Regal => Regal.lemma_keeps_valid(cat, before, pool, omens, after, done),
            CurrencyType::GreaterRegal => GreaterRegal.lemma_keeps_valid(cat, before, pool, omens, after, done),
            CurrencyType::PerfectRegal => PerfectRegal.lemma_keeps_valid(cat, before, pool, omens, after, done),
            CurrencyType::Exalt => Exalt.lemma_keeps_valid(cat, before, pool, omens, after, done),
            CurrencyType::GreaterExalt => GreaterExalt.lemma_keeps_valid(cat, before, pool, omens, after, done),
            CurrencyType::PerfectExalt => PerfectExalt.lemma_keeps_valid(cat, before, pool, omens, after, done),
            CurrencyType::Annulment => Annulment.lemma_keeps_valid(cat, before, pool, omens, after, done),
            CurrencyType::Alchemy => Alchemy.lemma_keeps_valid(cat, before, pool, omens, after, done),
            CurrencyType::Chaos => Chaos.lemma_keeps_valid(cat, before, pool, omens, after, done),
            CurrencyType::GreaterChaos => GreaterChaos.lemma_keeps_valid(cat, before, pool, omens, after, done),
            CurrencyType::PerfectChaos => PerfectChaos.lemma_keeps_valid(cat, before, pool, omens, after, done),
            CurrencyType::Essence(essence) => essence.lemma_keeps_valid(cat, before, pool, omens, after, done),
            CurrencyType::PerfectEssence(essence) => essence.lemma_keeps_valid(cat, before, pool, omens, after, done),
            CurrencyType::Desecrate => Desecrate.lemma_keeps_valid(cat, before, pool, omens, after, done),
        }
    }

    proof fn lemma_keeps_frame(
        &self,
        cat: &Catalog,
        before: &ItemState,
        pool: Seq<OpaqueIndex<Tier>>,
        omens: OmenSet,
        after: &ItemState,
        done: bool,
    ) {
        match self {
            CurrencyType::Transmute => Transmute.lemma_keeps_frame(cat, before, pool, omens, after, done),
            CurrencyType::GreaterTransmute => GreaterTransmute.lemma_keeps_frame(cat, before, pool, omens, after, done),
            CurrencyType::PerfectTransmute => PerfectTransmute.lemma_keeps_frame(cat, before, pool, omens, after, done),
            CurrencyType::Augmentation => Augmentation.lemma_keeps_frame(cat, before, pool, omens, after, done),
            CurrencyType::GreaterAugmentation => GreaterAugmentation.lemma_keeps_frame(cat, before, pool, omens, after, done),
            CurrencyType::PerfectAugmentation => PerfectAugmentation.lemma_keeps_frame(cat, before, pool, omens, after, done),
            CurrencyType::Regal => Regal.lemma_keeps_frame(cat, before, pool, omens, after, done),
            CurrencyType::GreaterRegal => GreaterRegal.lemma_keeps_frame(cat, before, pool, omens, after, done),
            CurrencyType::PerfectRegal => PerfectRegal.lemma_keeps_frame(cat, before, pool, omens, after, done),
            CurrencyType::Exalt => Exalt.lemma_keeps_frame(cat, before, pool, omens, after, done),
            CurrencyType::GreaterExalt => GreaterExalt.lemma_keeps_frame(cat, before, pool, omens, after, done),
            CurrencyType::PerfectExalt => PerfectExalt.lemma_keeps_frame(cat, before, pool, omens, after, done),
            CurrencyType::Annulment => Annulment.lemma_keeps_frame(cat, before, pool, omens, after, done),
            CurrencyType::Alchemy => Alchemy.lemma_keeps_frame(cat, before, pool, omens, after, done),
            CurrencyType::Chaos => Chaos.lemma_keeps_frame(cat, before, pool, omens, after, done),
            CurrencyType::GreaterChaos => GreaterChaos.lemma_keeps_frame(cat, before, pool, omens, after, done),
            CurrencyType::PerfectChaos => PerfectChaos.lemma_keeps_frame(cat, before, pool, omens, after, done),
            CurrencyType::Essence(essence) => essence.lemma_keeps_frame(cat, before, pool, omens, after, done),
            CurrencyType::PerfectEssence(essence) => essence.lemma_keeps_frame(cat, before, pool, omens, after, done),
            CurrencyType::Desecrate => Desecrate.lemma_keeps_frame(cat, before, pool, omens, after, done),
        }
    }

    fn is_wf(&self, cat: &Catalog) -> (wf: bool) {
        match self {
            CurrencyType::Transmute => Transmute.is_wf(cat),
            CurrencyType::GreaterTransmute => GreaterTransmute.is_wf(cat),
            CurrencyType::PerfectTransmute => PerfectTransmute.is_wf(cat),
            CurrencyType::Augmentation => Augmentation.is_wf(cat),
            CurrencyType::GreaterAugmentation => GreaterAugmentation.is_wf(cat),
            CurrencyType::PerfectAugmentation => PerfectAugmentation.is_wf(cat),
            CurrencyType::Regal => Regal.is_wf(cat),
            CurrencyType::GreaterRegal => GreaterRegal.is_wf(cat),
            CurrencyType::PerfectRegal => PerfectRegal.is_wf(cat),
            CurrencyType::Exalt => Exalt.is_wf(cat),
            CurrencyType::GreaterExalt => GreaterExalt.is_wf(cat),
            CurrencyType::PerfectExalt => PerfectExalt.is_wf(cat),
            CurrencyType::Annulment => Annulment.is_wf(cat),
            CurrencyType::Alchemy => Alchemy.is_wf(cat),
            CurrencyType::Chaos => Chaos.is_wf(cat),
            CurrencyType::GreaterChaos => GreaterChaos.is_wf(cat),
            CurrencyType::PerfectChaos => PerfectChaos.is_wf(cat),
            CurrencyType::Essence(essence) => essence.is_wf(cat),
            CurrencyType::PerfectEssence(essence) => essence.is_wf(cat),
            CurrencyType::Desecrate => Desecrate.is_wf(cat),
        }
    }

    fn name(&self) -> (name: &str)
        ensures
            name@ == self.spec_name(),
    {
        match self {
            CurrencyType::Transmute => Transmute.name(),
            CurrencyType::GreaterTransmute => GreaterTransmute.name(),
            CurrencyType::PerfectTransmute => PerfectTransmute.name(),
            CurrencyType::Augmentation => Augmentation.name(),
            CurrencyType::GreaterAugmentation => GreaterAugmentation.name(),
            CurrencyType::PerfectAugmentation => PerfectAugmentation.name(),
            CurrencyType::Regal => Regal.name(),
            CurrencyType::GreaterRegal => GreaterRegal.name(),
            CurrencyType::PerfectRegal => PerfectRegal.name(),
            CurrencyType::Exalt => Exalt.name(),
            CurrencyType::GreaterExalt => GreaterExalt.name(),
            CurrencyType::PerfectExalt => PerfectExalt.name(),
            CurrencyType::Annulment => Annulment.name(),
            CurrencyType::Alchemy => Alchemy.name(),
            CurrencyType::Chaos => Chaos.name(),
            CurrencyType::GreaterChaos => GreaterChaos.name(),
            CurrencyType::PerfectChaos => PerfectChaos.name(),
            CurrencyType::Essence(essence) => essence.name(),
            CurrencyType::PerfectEssence(essence) => essence.name(),
            CurrencyType::Desecrate => Desecrate.name(),
        }
    }

    fn can_be_used(
        &self,
        cat: &Catalog,
        item: &ItemState,
        candidate_tiers: &[OpaqueIndex<Tier>],
        omens: &OmenSet,
    ) -> (usable: bool) {
        match self {
            CurrencyType::Transmute => Transmute.can_be_used(cat, item, candidate_tiers, omens),
            CurrencyType::GreaterTransmute => GreaterTransmute.can_be_used(cat, item, candidate_tiers, omens),
            CurrencyType::PerfectTransmute => PerfectTransmute.can_be_used(cat, item, candidate_tiers, omens),
            CurrencyType::Augmentation => Augmentation.can_be_used(cat, item, candidate_tiers, omens),
            CurrencyType::GreaterAugmentation => GreaterAugmentation.can_be_used(cat, item, candidate_tiers, omens),
            CurrencyType::PerfectAugmentation => PerfectAugmentation.can_be_used(cat, item, candidate_tiers, omens),
            CurrencyType::Regal => Regal.can_be_used(cat, item, candidate_tiers, omens),
            CurrencyType::GreaterRegal => GreaterRegal.can_be_used(cat, item, candidate_tiers, omens),
            CurrencyType::PerfectRegal => PerfectRegal.can_be_used(cat, item, candidate_tiers, omens),
            CurrencyType::Exalt => Exalt.can_be_used(cat, item, candidate_tiers, omens),
            CurrencyType::GreaterExalt => GreaterExalt.can_be_used(cat, item, candidate_tiers, omens),
            CurrencyType::PerfectExalt => PerfectExalt.can_be_used(cat, item, candidate_tiers, omens),
            CurrencyType::Annulment => Annulment.can_be_used(cat, item, candidate_tiers, omens),
            CurrencyType::Alchemy => Alchemy.can_be_used(cat, item, candidate_tiers, omens),
            CurrencyType::Chaos => Chaos.can_be_used(cat, item, candidate_tiers, omens),
            CurrencyType::GreaterChaos => GreaterChaos.can_be_used(cat, item, candidate_tiers, omens),
            CurrencyType::PerfectChaos => PerfectChaos.can_be_used(cat, item, candidate_tiers, omens),
            CurrencyType::Essence(essence) => essence.can_be_used(cat, item, candidate_tiers, omens),
            CurrencyType::PerfectEssence(essence) => essence.can_be_used(cat, item, candidate_tiers, omens),
            CurrencyType::Desecrate => Desecrate.can_be_used(cat, item, candidate_tiers, omens),
        }
    }

    fn craft(
        &self,
        cat: &Catalog,
        item: &mut ItemState,
        candidate_tiers: &[OpaqueIndex<Tier>],
        omens: &OmenSet,
    ) -> (done: Result<(), CraftError>) {
        match self {
            CurrencyType::Transmute => Transmute.craft(cat, item, candidate_tiers, omens),
            CurrencyType::GreaterTransmute => GreaterTransmute.craft(cat, item, candidate_tiers, omens),
            CurrencyType::PerfectTransmute => PerfectTransmute.craft(cat, item, candidate_tiers, omens),
            CurrencyType::Augmentation => Augmentation.craft(cat, item, candidate_tiers, omens),
            CurrencyType::GreaterAugmentation => GreaterAugmentation.craft(cat, item, candidate_tiers, omens),
            CurrencyType::PerfectAugmentation => PerfectAugmentation.craft(cat, item, candidate_tiers, omens),
            CurrencyType::Regal => Regal.craft(cat, item, candidate_tiers, omens),
            CurrencyType::GreaterRegal => GreaterRegal.craft(cat, item, candidate_tiers, omens),
            CurrencyType::PerfectRegal => PerfectRegal.craft(cat, item, candidate_tiers, omens),
            CurrencyType::Exalt => Exalt.craft(cat, item, candidate_tiers, omens),
            CurrencyType::GreaterExalt => GreaterExalt.craft(cat, item, candidate_tiers, omens),
            CurrencyType::PerfectExalt => PerfectExalt.craft(cat, item, candidate_tiers, omens),
            CurrencyType::Annulment => Annulment.craft(cat, item, candidate_tiers, omens),
            CurrencyType::Alchemy => Alchemy.craft(cat, item, candidate_tiers, omens),
            CurrencyType::Chaos => Chaos.craft(cat, item, candidate_tiers, omens),
            CurrencyType::GreaterChaos => GreaterChaos.craft(cat, item, candidate_tiers, omens),
            CurrencyType::PerfectChaos => PerfectChaos.craft(cat, item, candidate_tiers, omens),
            CurrencyType::Essence(essence) => essence.craft(cat, item, candidate_tiers, omens),
            CurrencyType::PerfectEssence(essence) => essence.craft(cat, item, candidate_tiers, omens),
            CurrencyType::Desecrate => Desecrate.craft(cat, item, candidate_tiers, omens),
        }
    }
}

impl CurrencyType {
    /// The two are the same currency: of the same kind, and where they are
    /// essences, of the same name and with the same table.
    pub open spec fn same_as(&self, other: &CurrencyType) -> bool {
        match (self, other) {
            (CurrencyType::Transmute, CurrencyType::Transmute) => true,
            (CurrencyType::GreaterTransmute, CurrencyType::GreaterTransmute) => true,
            (CurrencyType::PerfectTransmute, CurrencyType::PerfectTransmute) => true,
            (CurrencyType::Augmentation, CurrencyType::Augmentation) => true,
            (CurrencyType::GreaterAugmentation, CurrencyType::GreaterAugmentation) => true,
            (CurrencyType::PerfectAugmentation, CurrencyType::PerfectAugmentation) => true,
            (CurrencyType::Regal, CurrencyType::Regal) => true,
            (CurrencyType::GreaterRegal, CurrencyType::GreaterRegal) => true,
            (CurrencyType::PerfectRegal, CurrencyType::PerfectRegal) => true,
            (CurrencyType::Exalt, CurrencyType::Exalt) => true,
            (CurrencyType::GreaterExalt, CurrencyType::GreaterExalt) => true,
            (CurrencyType::PerfectExalt, CurrencyType::PerfectExalt) => true,
            (CurrencyType::Annulment, CurrencyType::Annulment) => true,
            (CurrencyType::Alchemy, CurrencyType::Alchemy) => true,
            (CurrencyType::Chaos, CurrencyType::Chaos) => true,
            (CurrencyType::GreaterChaos, CurrencyType::GreaterChaos) => true,
            (CurrencyType::PerfectChaos, CurrencyType::PerfectChaos) => true,
            (CurrencyType::Desecrate, CurrencyType::Desecrate) => true,
            (CurrencyType::Essence(a), CurrencyType::Essence(b)) => a.name@ == b.name@
                && essence::same_table(a.tiers@, b.tiers@),
            (CurrencyType::PerfectEssence(a), CurrencyType::PerfectEssence(b)) => a.name@ == b.name@
                && essence::same_table(a.tiers@, b.tiers@),
            _ => false,
        }
    }

    /// The same currency is of the catalog if the other is, and has the
    /// same name.
    pub proof fn lemma_same_as(&self, cat: &Catalog, other: &CurrencyType)
        requires
            self.same_as(other),
        ensures
            self.spec_name() == other.spec_name(),
            self.wf(cat) ==> other.wf(cat),
    {
        match (self, other) {
            (CurrencyType::Essence(a), CurrencyType::Essence(b)) => {
                if a.wf(cat) {
                    essence::lemma_same_table(cat, a.tiers@, b.tiers@);
                }
            },
            (CurrencyType::PerfectEssence(a), CurrencyType::PerfectEssence(b)) => {
                if a.wf(cat) {
                    essence::lemma_same_table(cat, a.tiers@, b.tiers@);
                }
            },
            _ => {},
        }
    }

    /// The name of the currency.
    pub open spec fn spec_name(&self) -> Seq<char> {
        match self {
            CurrencyType::Transmute => "Transmute"@,
            CurrencyType::GreaterTransmute => "Greater Transmute"@,
            CurrencyType::PerfectTransmute => "Perfect Transmute"@,
            CurrencyType::Augmentation => "Augmentation"@,
            CurrencyType::GreaterAugmentation => "Greater Augmentation"@,
            CurrencyType::PerfectAugmentation => "Perfect Augmentation"@,
            CurrencyType::Regal => "Regal"@,
            CurrencyType::GreaterRegal => "Greater Regal"@,
            CurrencyType::PerfectRegal => "Perfect Regal"@,
            CurrencyType::Exalt => "Exalt"@,
            CurrencyType::GreaterExalt => "Greater Exalt"@,
            CurrencyType::PerfectExalt => "Perfect Exalt"@,
            CurrencyType::Annulment => "Annulment"@,
            CurrencyType::Alchemy => "Alchemy"@,
            CurrencyType::Chaos => "Chaos"@,
            CurrencyType::GreaterChaos => "Greater Chaos"@,
            CurrencyType::PerfectChaos => "Perfect Chaos"@,
            CurrencyType::Essence(essence) => essence.name@,
            CurrencyType::PerfectEssence(essence) => essence.name@,
            CurrencyType::Desecrate => "Descrate Item"@,
        }
    }

    /// The omens that can be used with this currency.
    pub fn possible_omens(&self) -> (omens: OmenSet)
        ensures
            omens == self.spec_possible_omens(),
    {
        let none = OmenSet {
            sinistral: false,
            dextral: false,
            homogenous: false,
            greater: false,
            whittling: false,
        };
        match self {
            CurrencyType::Regal | CurrencyType::GreaterRegal | CurrencyType::PerfectRegal => OmenSet {
                homogenous: true,
                ..none
            },
            CurrencyType::Annulment => OmenSet { sinistral: true, dextral: true, greater: true, ..none },
            CurrencyType::Alchemy | CurrencyType::PerfectEssence(_) | CurrencyType::Desecrate => OmenSet {
                sinistral: true,
                dextral: true,
                ..none
            },
            CurrencyType::Chaos | CurrencyType::GreaterChaos | CurrencyType::PerfectChaos => OmenSet {
                sinistral: true,
                dextral: true,
                whittling: true,
                ..none
            },
            CurrencyType::Exalt | CurrencyType::GreaterExalt | CurrencyType::PerfectExalt => OmenSet {
                sinistral: true,
                dextral: true,
                homogenous: true,
                greater: true,
                ..none
            },
            _ => none,
        }
    }

    /// The omens that can be used with this currency.
    pub open spec fn spec_possible_omens(&self) -> OmenSet {
        let none = no_omens();
        match self {
            CurrencyType::Regal | CurrencyType::GreaterRegal | CurrencyType::PerfectRegal => OmenSet {
                homogenous: true,
                ..none
            },
            CurrencyType::Annulment => OmenSet { sinistral: true, dextral: true, greater: true, ..none },
            CurrencyType::Alchemy | CurrencyType::PerfectEssence(_) | CurrencyType::Desecrate => OmenSet {
                sinistral: true,
                dextral: true,
                ..none
            },
            CurrencyType::Chaos | CurrencyType::GreaterChaos | CurrencyType::PerfectChaos => OmenSet {
                sinistral: true,
                dextral: true,
                whittling: true,
                ..none
            },
            CurrencyType::Exalt | CurrencyType::GreaterExalt | CurrencyType::PerfectExalt => OmenSet {
                sinistral: true,
                dextral: true,
                homogenous: true,
                greater: true,
                ..none
            },
            _ => none,
        }
    }

    /// The currencies that every catalog has: all but the essences.
    pub open spec fn spec_all() -> Seq<CurrencyType> {
        seq![
        CurrencyType::Transmute,
        CurrencyType::GreaterTransmute,
        CurrencyType::PerfectTransmute,
        CurrencyType::Augmentation,
        CurrencyType::GreaterAugmentation,
        CurrencyType::PerfectAugmentation,
        CurrencyType::Regal,
        CurrencyType::GreaterRegal,
        CurrencyType::PerfectRegal,
        CurrencyType::Exalt,
        CurrencyType::GreaterExalt,
        CurrencyType::PerfectExalt,
        CurrencyType::Annulment,
        CurrencyType::Alchemy,
        CurrencyType::Chaos,
        CurrencyType::GreaterChaos,
        CurrencyType::PerfectChaos,
        CurrencyType::Desecrate,
        ]
    }

    /// The currencies that every catalog has: all but the essences.
    pub fn all() -> (all: Vec<CurrencyType>)
        ensures
            all@ == Self::spec_all(),
    {
        let mut all: Vec<CurrencyType> = Vec::new();
        all.push(CurrencyType::Transmute);
        all.push(CurrencyType::GreaterTransmute);
        all.push(CurrencyType::PerfectTransmute);
        all.push(CurrencyType::Augmentation);
        all.push(CurrencyType::GreaterAugmentation);
        all.push(CurrencyType::PerfectAugmentation);
        all.push(CurrencyType::Regal);
        all.push(CurrencyType::GreaterRegal);
        all.push(CurrencyType::PerfectRegal);
        all.push(CurrencyType::Exalt);
        all.push(CurrencyType::GreaterExalt);
        all.push(CurrencyType::PerfectExalt);
        all.push(CurrencyType::Annulment);
        all.push(CurrencyType::Alchemy);
        all.push(CurrencyType::Chaos);
        all.push(CurrencyType::GreaterChaos);
        all.push(CurrencyType::PerfectChaos);
        all.push(CurrencyType::Desecrate);
        assert(all@ =~= Self::spec_all());
        all
    }
}

/// One use of a currency: the currency, the omens and the pool that it was
/// used with, and whether it did all of its work.
pub struct Use {
    pub currency: CurrencyType,
    pub omens: OmenSet,
    pub pool: Seq<OpaqueIndex<Tier>>,
    pub done: bool,
}

/// `states` are the states of an item through the uses `uses`: each use
/// is of a currency that could be used, on a pool at the item's level and
/// on an item on which the currency is sound, and makes the next state of
/// the state before.
pub open spec fn crafted_through(cat: &Catalog, states: Seq<ItemState>, uses: Seq<Use>) -> bool {
    &&& states.len() == uses.len() + 1
    &&& forall|k: int|
        0 <= k < uses.len() ==> {
            let used = #[trigger] uses[k];
            &&& used.currency.wf(cat)
            &&& within_level(cat, used.pool, states[k].item_level)
            &&& used.currency.usable(cat, &states[k], used.pool, used.omens)
            &&& used.currency.sound_on(cat, &states[k], used.pool, used.omens)
            &&& used.currency.crafts(cat, &states[k], used.pool, used.omens, &states[k + 1], used.done)
        }
}

/// Whatever currencies are used on an item without modifiers, one after
/// the other, it stays in a state that the rules allow: no family is on it
/// twice, and its rarity never falls.
pub proof fn lemma_reachable(cat: &Catalog, states: Seq<ItemState>, uses: Seq<Use>)
    requires
        crafted_through(cat, states, uses),
        states[0].mods@.len() == 0,
    ensures
        forall|k: int| 0 <= k < states.len() ==> (#[trigger] states[k]).valid(cat),
        forall|k: int|
            0 <= k < states.len() ==> crate::item_state::distinct_families(
                cat,
                (#[trigger] states[k]).mods@,
            ),
        forall|j: int, k: int|
            0 <= j <= k < states.len() ==> (#[trigger] states[j]).rarity.rank() <= (
            #[trigger] states[k]).rarity.rank(),
    decreases uses.len(),
{
    if uses.len() == 0 {
        assert(states[0].mods@.filter(crate::item_state::has_affix(cat, crate::types::Affix::Prefix)).len() == 0) by {
            reveal(Seq::filter);
        }
        assert(states[0].mods@.filter(crate::item_state::has_affix(cat, crate::types::Affix::Suffix)).len() == 0) by {
            reveal(Seq::filter);
        }
    } else {
        let n = uses.len() as int;
        let earlier = states.drop_last();
        let before = uses.drop_last();
        assert forall|k: int| 0 <= k < before.len() implies {
            let used = #[trigger] before[k];
            &&& used.currency.wf(cat)
            &&& within_level(cat, used.pool, earlier[k].item_level)
            &&& used.currency.usable(cat, &earlier[k], used.pool, used.omens)
            &&& used.currency.sound_on(cat, &earlier[k], used.pool, used.omens)
            &&& used.currency.crafts(
                cat,
                &earlier[k],
                used.pool,
                used.omens,
                &earlier[k + 1],
                used.done,
            )
        } by {
            assert(before[k] == uses[k]);
        }
        lemma_reachable(cat, earlier, before);
        let last = uses[n - 1];
        assert(earlier[n - 1] == states[n - 1]);
        last.currency.lemma_keeps_valid(
            cat,
            &states[n - 1],
            last.pool,
            last.omens,
            &states[n],
            last.done,
        );
        last.currency.lemma_keeps_frame(
            cat,
            &states[n - 1],
            last.pool,
            last.omens,
            &states[n],
            last.done,
        );
        assert forall|k: int| 0 <= k < states.len() implies (#[trigger] states[k]).valid(cat) by {
            if k < n {
                assert(earlier[k] == states[k]);
            }
        }
        assert forall|j: int, k: int| 0 <= j <= k < states.len() implies (
        #[trigger] states[j]).rarity.rank() <= (#[trigger] states[k]).rarity.rank() by {
            if k < n {
                assert(earlier[j] == states[j] && earlier[k] == states[k]);
            } else if j < n {
                assert(earlier[j] == states[j]);
                assert(earlier[j].rarity.rank() <= earlier[n - 1].rarity.rank());
            }
        }
    }
}

} // verus!
