//! The greater and the perfect orbs: each does what its orb does, on the
//! pool raised to a level.

use crate::catalog::Catalog;
use crate::crafting::{filter_better_currency, lemma_raised_pool, raised};
use crate::currency::orbs::{
    augment, augment_pool, augments, chaos_rolls, chaoses, exalt_rolls, exalts,
    lemma_augment_valid, lemma_chaos_valid, lemma_exalt_valid, lemma_regal_valid,
    lemma_transmute_valid, regal_rolls, regals, rolls_fresh, transmute_rolls, transmutes,
    Augmentation, Chaos, Exalt, Regal, Transmute,
};
use crate::currency::{CraftError, Currency};
use crate::hashvec::OpaqueIndex;
use crate::item_state::{within_level, ItemState};
use crate::types::{OmenSet, Tier};
use vstd::prelude::*;

verus! {

/// As [`Transmute`], on what the higher at level 35 leaves of the pool.
pub struct GreaterTransmute;

impl Currency for GreaterTransmute {
    open spec fn wf(&self, cat: &Catalog) -> bool {
        true
    }

    open spec fn usable(
        &self,
        cat: &Catalog,
        item: &ItemState,
        pool: Seq<OpaqueIndex<Tier>>,
        omens: OmenSet,
    ) -> bool {
        Transmute.usable(cat, item, pool, omens)
    }

    open spec fn crafts(
        &self,
        cat: &Catalog,
        before: &ItemState,
        pool: Seq<OpaqueIndex<Tier>>,
        omens: OmenSet,
        after: &ItemState,
        done: bool,
    ) -> bool {
        exists|higher: Seq<OpaqueIndex<Tier>>| #[trigger]
            raised(cat, pool, 35, higher) && transmutes(cat, before, higher, after, done)
    }

    open spec fn sound_on(
        &self,
        cat: &Catalog,
        item: &ItemState,
        pool: Seq<OpaqueIndex<Tier>>,
        omens: OmenSet,
    ) -> bool {
        Transmute.sound_on(cat, item, pool, omens)
    }

    proof fn lemma_keeps_valid(
        &self,
        cat: &Catalog,
        before: &ItemState,
        pool: Seq<OpaqueIndex<Tier>>,
        omens: OmenSet,
        after: &ItemState,
        done: bool,
    ) {
        let higher = choose|higher: Seq<OpaqueIndex<Tier>>| #[trigger]
            raised(cat, pool, 35, higher) && transmutes(cat, before, higher, after, done);
        lemma_raised_pool(cat, pool, 35, higher, before.item_level);
        lemma_transmute_valid(cat, before, higher, after, done);
    }

    proof fn lemma_keeps_frame(
        &self,
        cat: &Catalog,
        before: &ItemState,
        pool: Seq<OpaqueIndex<Tier>>,
        omens: OmenSet,
        after: &ItemState,
        done: bool,
    ) {
        let higher = choose|higher: Seq<OpaqueIndex<Tier>>| #[trigger]
            raised(cat, pool, 35, higher) && transmutes(cat, before, higher, after, done);
    }

    fn is_wf(&self, cat: &Catalog) -> (wf: bool) {
        true
    }

    fn name(&self) -> (name: &str)
        ensures
            name@ == "Greater Transmute"@,
    {
        "Greater Transmute"
    }

    fn can_be_used(
        &self,
        cat: &Catalog,
        item: &ItemState,
        candidate_tiers: &[OpaqueIndex<Tier>],
        omens: &OmenSet,
    ) -> (usable: bool) {
        Transmute.can_be_used(cat, item, candidate_tiers, omens)
    }

    fn craft(
        &self,
        cat: &Catalog,
        item: &mut ItemState,
        candidate_tiers: &[OpaqueIndex<Tier>],
        omens: &OmenSet,
    ) -> (done: Result<(), CraftError>) {
        let ghost before = *item;
        let higher = filter_better_currency(cat, candidate_tiers, 35);
        let done = transmute_rolls(cat, item, higher.as_slice());
        proof {
            self.lemma_keeps_frame(cat, &before, candidate_tiers@, *omens, item, done);
            if before.valid(cat) && within_level(cat, candidate_tiers@, before.item_level)
                && self.sound_on(cat, &before, candidate_tiers@, *omens) {
                self.lemma_keeps_valid(cat, &before, candidate_tiers@, *omens, item, done);
            }
        }
        if done {
            Ok(())
        } else {
            Err(CraftError::NoCandidates)
        }
    }
}

/// As [`Transmute`], on what the higher at level 70 leaves of the pool.
pub struct PerfectTransmute;

impl Currency for PerfectTransmute {
    open spec fn wf(&self, cat: &Catalog) -> bool {
        true
    }

    open spec fn usable(
        &self,
        cat: &Catalog,
        item: &ItemState,
        pool: Seq<OpaqueIndex<Tier>>,
        omens: OmenSet,
    ) -> bool {
        Transmute.usable(cat, item, pool, omens)
    }

    open spec fn crafts(
        &self,
        cat: &Catalog,
        before: &ItemState,
        pool: Seq<OpaqueIndex<Tier>>,
        omens: OmenSet,
        after: &ItemState,
        done: bool,
    ) -> bool {
        exists|higher: Seq<OpaqueIndex<Tier>>| #[trigger]
            raised(cat, pool, 70, higher) && transmutes(cat, before, higher, after, done)
    }

    open spec fn sound_on(
        &self,
        cat: &Catalog,
        item: &ItemState,
        pool: Seq<OpaqueIndex<Tier>>,
        omens: OmenSet,
    ) -> bool {
        Transmute.sound_on(cat, item, pool, omens)
    }

    proof fn lemma_keeps_valid(
        &self,
        cat: &Catalog,
        before: &ItemState,
        pool: Seq<OpaqueIndex<Tier>>,
        omens: OmenSet,
        after: &ItemState,
        done: bool,
    ) {
        let higher = choose|higher: Seq<OpaqueIndex<Tier>>| #[trigger]
            raised(cat, pool, 70, higher) && transmutes(cat, before, higher, after, done);
        lemma_raised_pool(cat, pool, 70, higher, before.item_level);
        lemma_transmute_valid(cat, before, higher, after, done);
    }

    proof fn lemma_keeps_frame(
        &self,
        cat: &Catalog,
        before: &ItemState,
        pool: Seq<OpaqueIndex<Tier>>,
        omens: OmenSet,
        after: &ItemState,
        done: bool,
    ) {
        let higher = choose|higher: Seq<OpaqueIndex<Tier>>| #[trigger]
            raised(cat, pool, 70, higher) && transmutes(cat, before, higher, after, done);
    }

    fn is_wf(&self, cat: &Catalog) -> (wf: bool) {
        true
    }

    fn name(&self) -> (name: &str)
        ensures
            name@ == "Perfect Transmute"@,
    {
        "Perfect Transmute"
    }

    fn can_be_used(
        &self,
        cat: &Catalog,
        item: &ItemState,
        candidate_tiers: &[OpaqueIndex<Tier>],
        omens: &OmenSet,
    ) -> (usable: bool) {
        Transmute.can_be_used(cat, item, candidate_tiers, omens)
    }

    fn craft(
        &self,
        cat: &Catalog,
        item: &mut ItemState,
        candidate_tiers: &[OpaqueIndex<Tier>],
        omens: &OmenSet,
    ) -> (done: Result<(), CraftError>) {
        let ghost before = *item;
        let higher = filter_better_currency(cat, candidate_tiers, 70);
        let done = transmute_rolls(cat, item, higher.as_slice());
        proof {
            self.lemma_keeps_frame(cat, &before, candidate_tiers@, *omens, item, done);
            if before.valid(cat) && within_level(cat, candidate_tiers@, before.item_level)
                && self.sound_on(cat, &before, candidate_tiers@, *omens) {
                self.lemma_keeps_valid(cat, &before, candidate_tiers@, *omens, item, done);
            }
        }
        if done {
            Ok(())
        } else {
            Err(CraftError::NoCandidates)
        }
    }
}

/// As [`Augmentation`], on what the higher at level 35 leaves of the pool.
pub struct GreaterAugmentation;

impl Currency for GreaterAugmentation {
    open spec fn wf(&self, cat: &Catalog) -> bool {
        true
    }

    open spec fn usable(
        &self,
        cat: &Catalog,
        item: &ItemState,
        pool: Seq<OpaqueIndex<Tier>>,
        omens: OmenSet,
    ) -> bool {
        Augmentation.usable(cat, item, pool, omens)
    }

    open spec fn crafts(
        &self,
        cat: &Catalog,
        before: &ItemState,
        pool: Seq<OpaqueIndex<Tier>>,
        omens: OmenSet,
        after: &ItemState,
        done: bool,
    ) -> bool {
        exists|higher: Seq<OpaqueIndex<Tier>>| #[trigger]
            raised(cat, pool, 35, higher) && augments(cat, before, higher, after, done)
    }

    open spec fn sound_on(
        &self,
        cat: &Catalog,
        item: &ItemState,
        pool: Seq<OpaqueIndex<Tier>>,
        omens: OmenSet,
    ) -> bool {
        forall|higher: Seq<OpaqueIndex<Tier>>| #[trigger]
            raised(cat, pool, 35, higher) ==> rolls_fresh(
                cat,
                item.mods@,
                augment_pool(cat, item.mods@, higher),
            )
    }

    proof fn lemma_keeps_valid(
        &self,
        cat: &Catalog,
        before: &ItemState,
        pool: Seq<OpaqueIndex<Tier>>,
        omens: OmenSet,
        after: &ItemState,
        done: bool,
    ) {
        let higher = choose|higher: Seq<OpaqueIndex<Tier>>| #[trigger]
            raised(cat, pool, 35, higher) && augments(cat, before, higher, after, done);
        lemma_raised_pool(cat, pool, 35, higher, before.item_level);
        lemma_augment_valid(cat, before, higher, after, done);
    }

    proof fn lemma_keeps_frame(
        &self,
        cat: &Catalog,
        before: &ItemState,
        pool: Seq<OpaqueIndex<Tier>>,
        omens: OmenSet,
        after: &ItemState,
        done: bool,
    ) {
        let higher = choose|higher: Seq<OpaqueIndex<Tier>>| #[trigger]
            raised(cat, pool, 35, higher) && augments(cat, before, higher, after, done);
    }

    fn is_wf(&self, cat: &Catalog) -> (wf: bool) {
        true
    }

    fn name(&self) -> (name: &str)
        ensures
            name@ == "Greater Augmentation"@,
    {
        "Greater Augmentation"
    }

    fn can_be_used(
        &self,
        cat: &Catalog,
        item: &ItemState,
        candidate_tiers: &[OpaqueIndex<Tier>],
        omens: &OmenSet,
    ) -> (usable: bool) {
        Augmentation.can_be_used(cat, item, candidate_tiers, omens)
    }

    fn craft(
        &self,
        cat: &Catalog,
        item: &mut ItemState,
        candidate_tiers: &[OpaqueIndex<Tier>],
        omens: &OmenSet,
    ) -> (done: Result<(), CraftError>) {
        let ghost before = *item;
        let higher = filter_better_currency(cat, candidate_tiers, 35);
        let done = augment(cat, item, higher.as_slice());
        proof {
            self.lemma_keeps_frame(cat, &before, candidate_tiers@, *omens, item, done);
            if before.valid(cat) && within_level(cat, candidate_tiers@, before.item_level)
                && self.sound_on(cat, &before, candidate_tiers@, *omens) {
                self.lemma_keeps_valid(cat, &before, candidate_tiers@, *omens, item, done);
            }
        }
        if done {
            Ok(())
        } else {
            Err(CraftError::NoCandidates)
        }
    }
}

/// As [`Augmentation`], on what the higher at level 70 leaves of the pool.
pub struct PerfectAugmentation;

impl Currency for PerfectAugmentation {
    open spec fn wf(&self, cat: &Catalog) -> bool {
        true
    }

    open spec fn usable(
        &self,
        cat: &Catalog,
        item: &ItemState,
        pool: Seq<OpaqueIndex<Tier>>,
        omens: OmenSet,
    ) -> bool {
        Augmentation.usable(cat, item, pool, omens)
    }

    open spec fn crafts(
        &self,
        cat: &Catalog,
        before: &ItemState,
        pool: Seq<OpaqueIndex<Tier>>,
        omens: OmenSet,
        after: &ItemState,
        done: bool,
    ) -> bool {
        exists|higher: Seq<OpaqueIndex<Tier>>| #[trigger]
            raised(cat, pool, 70, higher) && augments(cat, before, higher, after, done)
    }

    open spec fn sound_on(
        &self,
        cat: &Catalog,
        item: &ItemState,
        pool: Seq<OpaqueIndex<Tier>>,
        omens: OmenSet,
    ) -> bool {
        forall|higher: Seq<OpaqueIndex<Tier>>| #[trigger]
            raised(cat, pool, 70, higher) ==> rolls_fresh(
                cat,
                item.mods@,
                augment_pool(cat, item.mods@, higher),
            )
    }

    proof fn lemma_keeps_valid(
        &self,
        cat: &Catalog,
        before: &ItemState,
        pool: Seq<OpaqueIndex<Tier>>,
        omens: OmenSet,
        after: &ItemState,
        done: bool,
    ) {
        let higher = choose|higher: Seq<OpaqueIndex<Tier>>| #[trigger]
            raised(cat, pool, 70, higher) && augments(cat, before, higher, after, done);
        lemma_raised_pool(cat, pool, 70, higher, before.item_level);
        lemma_augment_valid(cat, before, higher, after, done);
    }

    proof fn lemma_keeps_frame(
        &self,
        cat: &Catalog,
        before: &ItemState,
        pool: Seq<OpaqueIndex<Tier>>,
        omens: OmenSet,
        after: &ItemState,
        done: bool,
    ) {
        let higher = choose|higher: Seq<OpaqueIndex<Tier>>| #[trigger]
            raised(cat, pool, 70, higher) && augments(cat, before, higher, after, done);
    }

    fn is_wf(&self, cat: &Catalog) -> (wf: bool) {
        true
    }

    fn name(&self) -> (name: &str)
        ensures
            name@ == "Perfect Augmentation"@,
    {
        "Perfect Augmentation"
    }

    fn can_be_used(
        &self,
        cat: &Catalog,
        item: &ItemState,
        candidate_tiers: &[OpaqueIndex<Tier>],
        omens: &OmenSet,
    ) -> (usable: bool) {
        Augmentation.can_be_used(cat, item, candidate_tiers, omens)
    }

    fn craft(
        &self,
        cat: &Catalog,
        item: &mut ItemState,
        candidate_tiers: &[OpaqueIndex<Tier>],
        omens: &OmenSet,
    ) -> (done: Result<(), CraftError>) {
        let ghost before = *item;
        let higher = filter_better_currency(cat, candidate_tiers, 70);
        let done = augment(cat, item, higher.as_slice());
        proof {
            self.lemma_keeps_frame(cat, &before, candidate_tiers@, *omens, item, done);
            if before.valid(cat) && within_level(cat, candidate_tiers@, before.item_level)
                && self.sound_on(cat, &before, candidate_tiers@, *omens) {
                self.lemma_keeps_valid(cat, &before, candidate_tiers@, *omens, item, done);
            }
        }
        if done {
            Ok(())
        } else {
            Err(CraftError::NoCandidates)
        }
    }
}

/// As [`Regal`], on what the higher at level 35 leaves of the pool.
pub struct GreaterRegal;

impl Currency for GreaterRegal {
    open spec fn wf(&self, cat: &Catalog) -> bool {
        true
    }

    open spec fn usable(
        &self,
        cat: &Catalog,
        item: &ItemState,
        pool: Seq<OpaqueIndex<Tier>>,
        omens: OmenSet,
    ) -> bool {
        Regal.usable(cat, item, pool, omens)
    }

    open spec fn crafts(
        &self,
        cat: &Catalog,
        before: &ItemState,
        pool: Seq<OpaqueIndex<Tier>>,
        omens: OmenSet,
        after: &ItemState,
        done: bool,
    ) -> bool {
        exists|higher: Seq<OpaqueIndex<Tier>>| #[trigger]
            raised(cat, pool, 35, higher) && regals(cat, before, higher, omens, after, done)
    }

    open spec fn sound_on(
        &self,
        cat: &Catalog,
        item: &ItemState,
        pool: Seq<OpaqueIndex<Tier>>,
        omens: OmenSet,
    ) -> bool {
        Regal.sound_on(cat, item, pool, omens)
    }

    proof fn lemma_keeps_valid(
        &self,
        cat: &Catalog,
        before: &ItemState,
        pool: Seq<OpaqueIndex<Tier>>,
        omens: OmenSet,
        after: &ItemState,
        done: bool,
    ) {
        let higher = choose|higher: Seq<OpaqueIndex<Tier>>| #[trigger]
            raised(cat, pool, 35, higher) && regals(cat, before, higher, omens, after, done);
        lemma_raised_pool(cat, pool, 35, higher, before.item_level);
        lemma_regal_valid(cat, before, higher, omens, after, done);
    }

    proof fn lemma_keeps_frame(
        &self,
        cat: &Catalog,
        before: &ItemState,
        pool: Seq<OpaqueIndex<Tier>>,
        omens: OmenSet,
        after: &ItemState,
        done: bool,
    ) {
        let higher = choose|higher: Seq<OpaqueIndex<Tier>>| #[trigger]
            raised(cat, pool, 35, higher) && regals(cat, before, higher, omens, after, done);
    }

    fn is_wf(&self, cat: &Catalog) -> (wf: bool) {
        true
    }

    fn name(&self) -> (name: &str)
        ensures
            name@ == "Greater Regal"@,
    {
        "Greater Regal"
    }

    fn can_be_used(
        &self,
        cat: &Catalog,
        item: &ItemState,
        candidate_tiers: &[OpaqueIndex<Tier>],
        omens: &OmenSet,
    ) -> (usable: bool) {
        Regal.can_be_used(cat, item, candidate_tiers, omens)
    }

    fn craft(
        &self,
        cat: &Catalog,
        item: &mut ItemState,
        candidate_tiers: &[OpaqueIndex<Tier>],
        omens: &OmenSet,
    ) -> (done: Result<(), CraftError>) {
        let ghost before = *item;
        let higher = filter_better_currency(cat, candidate_tiers, 35);
        let done = regal_rolls(cat, item, higher.as_slice(), omens);
        proof {
            self.lemma_keeps_frame(cat, &before, candidate_tiers@, *omens, item, done);
            if before.valid(cat) && within_level(cat, candidate_tiers@, before.item_level)
                && self.sound_on(cat, &before, candidate_tiers@, *omens) {
                self.lemma_keeps_valid(cat, &before, candidate_tiers@, *omens, item, done);
            }
        }
        if done {
            Ok(())
        } else {
            Err(CraftError::NoCandidates)
        }
    }
}

/// As [`Regal`], on what the higher at level 50 leaves of the pool.
pub struct PerfectRegal;

impl Currency for PerfectRegal {
    open spec fn wf(&self, cat: &Catalog) -> bool {
        true
    }

    open spec fn usable(
        &self,
        cat: &Catalog,
        item: &ItemState,
        pool: Seq<OpaqueIndex<Tier>>,
        omens: OmenSet,
    ) -> bool {
        Regal.usable(cat, item, pool, omens)
    }

    open spec fn crafts(
        &self,
        cat: &Catalog,
        before: &ItemState,
        pool: Seq<OpaqueIndex<Tier>>,
        omens: OmenSet,
        after: &ItemState,
        done: bool,
    ) -> bool {
        exists|higher: Seq<OpaqueIndex<Tier>>| #[trigger]
            raised(cat, pool, 50, higher) && regals(cat, before, higher, omens, after, done)
    }

    open spec fn sound_on(
        &self,
        cat: &Catalog,
        item: &ItemState,
        pool: Seq<OpaqueIndex<Tier>>,
        omens: OmenSet,
    ) -> bool {
        Regal.sound_on(cat, item, pool, omens)
    }

    proof fn lemma_keeps_valid(
        &self,
        cat: &Catalog,
        before: &ItemState,
        pool: Seq<OpaqueIndex<Tier>>,
        omens: OmenSet,
        after: &ItemState,
        done: bool,
    ) {
        let higher = choose|higher: Seq<OpaqueIndex<Tier>>| #[trigger]
            raised(cat, pool, 50, higher) && regals(cat, before, higher, omens, after, done);
        lemma_raised_pool(cat, pool, 50, higher, before.item_level);
        lemma_regal_valid(cat, before, higher, omens, after, done);
    }

    proof fn lemma_keeps_frame(
        &self,
        cat: &Catalog,
        before: &ItemState,
        pool: Seq<OpaqueIndex<Tier>>,
        omens: OmenSet,
        after: &ItemState,
        done: bool,
    ) {
        let higher = choose|higher: Seq<OpaqueIndex<Tier>>| #[trigger]
            raised(cat, pool, 50, higher) && regals(cat, before, higher, omens, after, done);
    }

    fn is_wf(&self, cat: &Catalog) -> (wf: bool) {
        true
    }

    fn name(&self) -> (name: &str)
        ensures
            name@ == "Perfect Regal"@,
    {
        "Perfect Regal"
    }

    fn can_be_used(
        &self,
        cat: &Catalog,
        item: &ItemState,
        candidate_tiers: &[OpaqueIndex<Tier>],
        omens: &OmenSet,
    ) -> (usable: bool) {
        Regal.can_be_used(cat, item, candidate_tiers, omens)
    }

    fn craft(
        &self,
        cat: &Catalog,
        item: &mut ItemState,
        candidate_tiers: &[OpaqueIndex<Tier>],
        omens: &OmenSet,
    ) -> (done: Result<(), CraftError>) {
        let ghost before = *item;
        let higher = filter_better_currency(cat, candidate_tiers, 50);
        let done = regal_rolls(cat, item, higher.as_slice(), omens);
        proof {
            self.lemma_keeps_frame(cat, &before, candidate_tiers@, *omens, item, done);
            if before.valid(cat) && within_level(cat, candidate_tiers@, before.item_level)
                && self.sound_on(cat, &before, candidate_tiers@, *omens) {
                self.lemma_keeps_valid(cat, &before, candidate_tiers@, *omens, item, done);
            }
        }
        if done {
            Ok(())
        } else {
            Err(CraftError::NoCandidates)
        }
    }
}

/// As [`Exalt`], on what the higher at level 35 leaves of the pool.
pub struct GreaterExalt;

impl Currency for GreaterExalt {
    open spec fn wf(&self, cat: &Catalog) -> bool {
        true
    }

    open spec fn usable(
        &self,
        cat: &Catalog,
        item: &ItemState,
        pool: Seq<OpaqueIndex<Tier>>,
        omens: OmenSet,
    ) -> bool {
        Exalt.usable(cat, item, pool, omens)
    }

    open spec fn crafts(
        &self,
        cat: &Catalog,
        before: &ItemState,
        pool: Seq<OpaqueIndex<Tier>>,
        omens: OmenSet,
        after: &ItemState,
        done: bool,
    ) -> bool {
        exists|higher: Seq<OpaqueIndex<Tier>>| #[trigger]
            raised(cat, pool, 35, higher) && exalts(cat, before, higher, omens, after, done)
    }

    open spec fn sound_on(
        &self,
        cat: &Catalog,
        item: &ItemState,
        pool: Seq<OpaqueIndex<Tier>>,
        omens: OmenSet,
    ) -> bool {
        Exalt.sound_on(cat, item, pool, omens)
    }

    proof fn lemma_keeps_valid(
        &self,
        cat: &Catalog,
        before: &ItemState,
        pool: Seq<OpaqueIndex<Tier>>,
        omens: OmenSet,
        after: &ItemState,
        done: bool,
    ) {
        let higher = choose|higher: Seq<OpaqueIndex<Tier>>| #[trigger]
            raised(cat, pool, 35, higher) && exalts(cat, before, higher, omens, after, done);
        lemma_raised_pool(cat, pool, 35, higher, before.item_level);
        lemma_exalt_valid(cat, before, higher, omens, after, done);
    }

    proof fn lemma_keeps_frame(
        &self,
        cat: &Catalog,
        before: &ItemState,
        pool: Seq<OpaqueIndex<Tier>>,
        omens: OmenSet,
        after: &ItemState,
        done: bool,
    ) {
        let higher = choose|higher: Seq<OpaqueIndex<Tier>>| #[trigger]
            raised(cat, pool, 35, higher) && exalts(cat, before, higher, omens, after, done);
    }

    fn is_wf(&self, cat: &Catalog) -> (wf: bool) {
        true
    }

    fn name(&self) -> (name: &str)
        ensures
            name@ == "Greater Exalt"@,
    {
        "Greater Exalt"
    }

    fn can_be_used(
        &self,
        cat: &Catalog,
        item: &ItemState,
        candidate_tiers: &[OpaqueIndex<Tier>],
        omens: &OmenSet,
    ) -> (usable: bool) {
        Exalt.can_be_used(cat, item, candidate_tiers, omens)
    }

    fn craft(
        &self,
        cat: &Catalog,
        item: &mut ItemState,
        candidate_tiers: &[OpaqueIndex<Tier>],
        omens: &OmenSet,
    ) -> (done: Result<(), CraftError>) {
        let ghost before = *item;
        let higher = filter_better_currency(cat, candidate_tiers, 35);
        let done = exalt_rolls(cat, item, higher.as_slice(), omens);
        proof {
            self.lemma_keeps_frame(cat, &before, candidate_tiers@, *omens, item, done);
            if before.valid(cat) && within_level(cat, candidate_tiers@, before.item_level)
                && self.sound_on(cat, &before, candidate_tiers@, *omens) {
                self.lemma_keeps_valid(cat, &before, candidate_tiers@, *omens, item, done);
            }
        }
        if done {
            Ok(())
        } else {
            Err(CraftError::NoCandidates)
        }
    }
}

/// As [`Exalt`], on what the higher at level 50 leaves of the pool.
pub struct PerfectExalt;

impl Currency for PerfectExalt {
    open spec fn wf(&self, cat: &Catalog) -> bool {
        true
    }

    open spec fn usable(
        &self,
        cat: &Catalog,
        item: &ItemState,
        pool: Seq<OpaqueIndex<Tier>>,
        omens: OmenSet,
    ) -> bool {
        Exalt.usable(cat, item, pool, omens)
    }

    open spec fn crafts(
        &self,
        cat: &Catalog,
        before: &ItemState,
        pool: Seq<OpaqueIndex<Tier>>,
        omens: OmenSet,
        after: &ItemState,
        done: bool,
    ) -> bool {
        exists|higher: Seq<OpaqueIndex<Tier>>| #[trigger]
            raised(cat, pool, 50, higher) && exalts(cat, before, higher, omens, after, done)
    }

    open spec fn sound_on(
        &self,
        cat: &Catalog,
        item: &ItemState,
        pool: Seq<OpaqueIndex<Tier>>,
        omens: OmenSet,
    ) -> bool {
        Exalt.sound_on(cat, item, pool, omens)
    }

    proof fn lemma_keeps_valid(
        &self,
        cat: &Catalog,
        before: &ItemState,
        pool: Seq<OpaqueIndex<Tier>>,
        omens: OmenSet,
        after: &ItemState,
        done: bool,
    ) {
        let higher = choose|higher: Seq<OpaqueIndex<Tier>>| #[trigger]
            raised(cat, pool, 50, higher) && exalts(cat, before, higher, omens, after, done);
        lemma_raised_pool(cat, pool, 50, higher, before.item_level);
        lemma_exalt_valid(cat, before, higher, omens, after, done);
    }

    proof fn lemma_keeps_frame(
        &self,
        cat: &Catalog,
        before: &ItemState,
        pool: Seq<OpaqueIndex<Tier>>,
        omens: OmenSet,
        after: &ItemState,
        done: bool,
    ) {
        let higher = choose|higher: Seq<OpaqueIndex<Tier>>| #[trigger]
            raised(cat, pool, 50, higher) && exalts(cat, before, higher, omens, after, done);
    }

    fn is_wf(&self, cat: &Catalog) -> (wf: bool) {
        true
    }

    fn name(&self) -> (name: &str)
        ensures
            name@ == "Perfect Exalt"@,
    {
        "Perfect Exalt"
    }

    fn can_be_used(
        &self,
        cat: &Catalog,
        item: &ItemState,
        candidate_tiers: &[OpaqueIndex<Tier>],
        omens: &OmenSet,
    ) -> (usable: bool) {
        Exalt.can_be_used(cat, item, candidate_tiers, omens)
    }

    fn craft(
        &self,
        cat: &Catalog,
        item: &mut ItemState,
        candidate_tiers: &[OpaqueIndex<Tier>],
        omens: &OmenSet,
    ) -> (done: Result<(), CraftError>) {
        let ghost before = *item;
        let higher = filter_better_currency(cat, candidate_tiers, 50);
        let done = exalt_rolls(cat, item, higher.as_slice(), omens);
        proof {
            self.lemma_keeps_frame(cat, &before, candidate_tiers@, *omens, item, done);
            if before.valid(cat) && within_level(cat, candidate_tiers@, before.item_level)
                && self.sound_on(cat, &before, candidate_tiers@, *omens) {
                self.lemma_keeps_valid(cat, &before, candidate_tiers@, *omens, item, done);
            }
        }
        if done {
            Ok(())
        } else {
            Err(CraftError::NoCandidates)
        }
    }
}

/// As [`Chaos`], on what the higher at level 35 leaves of the pool.
pub struct GreaterChaos;

impl Currency for GreaterChaos {
    open spec fn wf(&self, cat: &Catalog) -> bool {
        true
    }

    open spec fn usable(
        &self,
        cat: &Catalog,
        item: &ItemState,
        pool: Seq<OpaqueIndex<Tier>>,
        omens: OmenSet,
    ) -> bool {
        Chaos.usable(cat, item, pool, omens)
    }

    open spec fn crafts(
        &self,
        cat: &Catalog,
        before: &ItemState,
        pool: Seq<OpaqueIndex<Tier>>,
        omens: OmenSet,
        after: &ItemState,
        done: bool,
    ) -> bool {
        exists|higher: Seq<OpaqueIndex<Tier>>| #[trigger]
            raised(cat, pool, 35, higher) && chaoses(cat, before, higher, omens, after, done)
    }

    open spec fn sound_on(
        &self,
        cat: &Catalog,
        item: &ItemState,
        pool: Seq<OpaqueIndex<Tier>>,
        omens: OmenSet,
    ) -> bool {
        Chaos.sound_on(cat, item, pool, omens)
    }

    proof fn lemma_keeps_valid(
        &self,
        cat: &Catalog,
        before: &ItemState,
        pool: Seq<OpaqueIndex<Tier>>,
        omens: OmenSet,
        after: &ItemState,
        done: bool,
    ) {
        let higher = choose|higher: Seq<OpaqueIndex<Tier>>| #[trigger]
            raised(cat, pool, 35, higher) && chaoses(cat, before, higher, omens, after, done);
        lemma_raised_pool(cat, pool, 35, higher, before.item_level);
        lemma_chaos_valid(cat, before, higher, omens, after, done);
    }

    proof fn lemma_keeps_frame(
        &self,
        cat: &Catalog,
        before: &ItemState,
        pool: Seq<OpaqueIndex<Tier>>,
        omens: OmenSet,
        after: &ItemState,
        done: bool,
    ) {
        let higher = choose|higher: Seq<OpaqueIndex<Tier>>| #[trigger]
            raised(cat, pool, 35, higher) && chaoses(cat, before, higher, omens, after, done);
    }

    fn is_wf(&self, cat: &Catalog) -> (wf: bool) {
        true
    }

    fn name(&self) -> (name: &str)
        ensures
            name@ == "Greater Chaos"@,
    {
        "Greater Chaos"
    }

    fn can_be_used(
        &self,
        cat: &Catalog,
        item: &ItemState,
        candidate_tiers: &[OpaqueIndex<Tier>],
        omens: &OmenSet,
    ) -> (usable: bool) {
        Chaos.can_be_used(cat, item, candidate_tiers, omens)
    }

    fn craft(
        &self,
        cat: &Catalog,
        item: &mut ItemState,
        candidate_tiers: &[OpaqueIndex<Tier>],
        omens: &OmenSet,
    ) -> (done: Result<(), CraftError>) {
        let ghost before = *item;
        let higher = filter_better_currency(cat, candidate_tiers, 35);
        let done = chaos_rolls(cat, item, higher.as_slice(), omens);
        proof {
            self.lemma_keeps_frame(cat, &before, candidate_tiers@, *omens, item, done);
            if before.valid(cat) && within_level(cat, candidate_tiers@, before.item_level)
                && self.sound_on(cat, &before, candidate_tiers@, *omens) {
                self.lemma_keeps_valid(cat, &before, candidate_tiers@, *omens, item, done);
            }
        }
        if done {
            Ok(())
        } else {
            Err(CraftError::NoCandidates)
        }
    }
}

/// As [`Chaos`], on what the higher at level 50 leaves of the pool.
pub struct PerfectChaos;

impl Currency for PerfectChaos {
    open spec fn wf(&self, cat: &Catalog) -> bool {
        true
    }

    open spec fn usable(
        &self,
        cat: &Catalog,
        item: &ItemState,
        pool: Seq<OpaqueIndex<Tier>>,
        omens: OmenSet,
    ) -> bool {
        Chaos.usable(cat, item, pool, omens)
    }

    open spec fn crafts(
        &self,
        cat: &Catalog,
        before: &ItemState,
        pool: Seq<OpaqueIndex<Tier>>,
        omens: OmenSet,
        after: &ItemState,
        done: bool,
    ) -> bool {
        exists|higher: Seq<OpaqueIndex<Tier>>| #[trigger]
            raised(cat, pool, 50, higher) && chaoses(cat, before, higher, omens, after, done)
    }

    open spec fn sound_on(
        &self,
        cat: &Catalog,
        item: &ItemState,
        pool: Seq<OpaqueIndex<Tier>>,
        omens: OmenSet,
    ) -> bool {
        Chaos.sound_on(cat, item, pool, omens)
    }

    proof fn lemma_keeps_valid(
        &self,
        cat: &Catalog,
        before: &ItemState,
        pool: Seq<OpaqueIndex<Tier>>,
        omens: OmenSet,
        after: &ItemState,
        done: bool,
    ) {
        let higher = choose|higher: Seq<OpaqueIndex<Tier>>| #[trigger]
            raised(cat, pool, 50, higher) && chaoses(cat, before, higher, omens, after, done);
        lemma_raised_pool(cat, pool, 50, higher, before.item_level);
        lemma_chaos_valid(cat, before, higher, omens, after, done);
    }

    proof fn lemma_keeps_frame(
        &self,
        cat: &Catalog,
        before: &ItemState,
        pool: Seq<OpaqueIndex<Tier>>,
        omens: OmenSet,
        after: &ItemState,
        done: bool,
    ) {
        let higher = choose|higher: Seq<OpaqueIndex<Tier>>| #[trigger]
            raised(cat, pool, 50, higher) && chaoses(cat, before, higher, omens, after, done);
    }

    fn is_wf(&self, cat: &Catalog) -> (wf: bool) {
        true
    }

    fn name(&self) -> (name: &str)
        ensures
            name@ == "Perfect Chaos"@,
    {
        "Perfect Chaos"
    }

    fn can_be_used(
        &self,
        cat: &Catalog,
        item: &ItemState,
        candidate_tiers: &[OpaqueIndex<Tier>],
        omens: &OmenSet,
    ) -> (usable: bool) {
        Chaos.can_be_used(cat, item, candidate_tiers, omens)
    }

    fn craft(
        &self,
        cat: &Catalog,
        item: &mut ItemState,
        candidate_tiers: &[OpaqueIndex<Tier>],
        omens: &OmenSet,
    ) -> (done: Result<(), CraftError>) {
        let ghost before = *item;
        let higher = filter_better_currency(cat, candidate_tiers, 50);
        let done = chaos_rolls(cat, item, higher.as_slice(), omens);
        proof {
            self.lemma_keeps_frame(cat, &before, candidate_tiers@, *omens, item, done);
            if before.valid(cat) && within_level(cat, candidate_tiers@, before.item_level)
                && self.sound_on(cat, &before, candidate_tiers@, *omens) {
                self.lemma_keeps_valid(cat, &before, candidate_tiers@, *omens, item, done);
            }
        }
        if done {
            Ok(())
        } else {
            Err(CraftError::NoCandidates)
        }
    }
}

} // verus!
