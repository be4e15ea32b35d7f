//! The catalog: every tier and modifier of the game, and the tiers that each
//! base item can roll. It is built once and only read afterwards.

use crate::hashvec::{HashVec, OpaqueIndex};
use crate::types::{Affix, Modifier, Tier};
use vstd::hash_map::StringHashMap;
use vstd::prelude::*;

verus! {

/// The tiers and the modifiers of the game, and what rolls on each base
/// item.
pub struct Catalog {
    /// The tiers, under their ids.
    pub tiers: HashVec<Tier>,
    /// The modifiers, under their groups.
    pub mods: HashVec<Modifier>,
    /// For each base item, the ids of the tiers that roll on it.
    pub item_tiers: StringHashMap<Vec<String>>,
}

impl Catalog {
    /// `t` is the position of a tier of this catalog.
    pub open spec fn has_tier(&self, t: OpaqueIndex<Tier>) -> bool {
        0 <= t@ < self.tiers.values().len()
    }

    /// The tier at the position `t`.
    pub open spec fn tier(&self, t: OpaqueIndex<Tier>) -> Tier {
        self.tiers.values()[t@]
    }

    /// The affix at which the tier sits.
    pub open spec fn affix_of(&self, t: OpaqueIndex<Tier>) -> Affix {
        self.tier(t).affix
    }

    /// The lowest item level on which the tier rolls.
    pub open spec fn ilvl_of(&self, t: OpaqueIndex<Tier>) -> u32 {
        self.tier(t).ilvl
    }

    /// How often the tier is rolled, against the others.
    pub open spec fn weight_of(&self, t: OpaqueIndex<Tier>) -> u32 {
        self.tier(t).weight
    }

    /// The position of the modifier that `t` is a tier of.
    pub open spec fn group_of(&self, t: OpaqueIndex<Tier>) -> int {
        self.tier(t).mod_id@
    }

    /// The modifier that `t` is a tier of.
    pub open spec fn modifier_of(&self, t: OpaqueIndex<Tier>) -> Modifier {
        self.mods.values()[self.group_of(t)]
    }

    /// The family of the modifier of `t`.
    pub open spec fn family_of(&self, t: OpaqueIndex<Tier>) -> Seq<char> {
        self.modifier_of(t).family@
    }

    /// The tags of the modifier of `t`, in the modifier's order.
    pub open spec fn tags_of(&self, t: OpaqueIndex<Tier>) -> Seq<String> {
        self.modifier_of(t).tags@
    }

    /// Both tables are in order, and every tier belongs to a modifier of the
    /// catalog.
    pub open spec fn wf(&self) -> bool {
        &&& self.tiers.wf()
        &&& self.mods.wf()
        &&& forall|i: int|
            0 <= i < self.tiers.values().len() ==> 0 <= (#[trigger] self.tiers.values()[i]).mod_id@
                < self.mods.values().len()
    }

    /// Every tier in `pool` is one of this catalog.
    pub open spec fn has_tiers(&self, pool: Seq<OpaqueIndex<Tier>>) -> bool {
        forall|i: int| 0 <= i < pool.len() ==> self.has_tier(#[trigger] pool[i])
    }

    /// The catalog lists tiers for `base`, and knows each of them.
    pub open spec fn lists_base(&self, base: Seq<char>) -> bool {
        &&& self.item_tiers@.contains_key(base)
        &&& forall|j: int|
            0 <= j < self.item_tiers@[base]@.len() ==> self.tiers.names().contains_key(
                #[trigger] self.item_tiers@[base]@[j]@,
            )
    }

    /// A catalog of these tiers and modifiers that lists no base item yet,
    /// or nothing where a tier belongs to no modifier of `mods`.
    pub fn new(tiers: HashVec<Tier>, mods: HashVec<Modifier>) -> (made: Option<Catalog>)
        requires
            tiers.wf(),
            mods.wf(),
        ensures
            match made {
                Some(cat) => {
                    &&& cat.wf()
                    &&& cat.tiers == tiers
                    &&& cat.mods == mods
                    &&& cat.item_tiers@ == Map::<Seq<char>, Vec<String>>::empty()
                },
                None => exists|i: int|
                    0 <= i < tiers.values().len() && (#[trigger] tiers.values()[i]).mod_id@
                        >= mods.values().len(),
            },
    {
        let mut i: usize = 0;
        let n = tiers.len();
        while i < n
            invariant
                i <= n,
                n == tiers.values().len(),
                forall|k: int|
                    0 <= k < i ==> 0 <= (#[trigger] tiers.values()[k]).mod_id@ < mods.values().len(),
            decreases n - i,
        {
            if tiers.get(OpaqueIndex::new(i)).mod_id.index() >= mods.len() {
                return None;
            }
            i += 1;
        }
        Some(Catalog { tiers, mods, item_tiers: StringHashMap::new() })
    }

    /// Lists `tier_ids` as the tiers that roll on `base`, in place of what
    /// was listed for it.
    pub fn list_base(&mut self, base: String, tier_ids: Vec<String>)
        ensures
            final(self).tiers == old(self).tiers,
            final(self).mods == old(self).mods,
            final(self).item_tiers@ == old(self).item_tiers@.insert(base@, tier_ids),
    {
        self.item_tiers.insert(base, tier_ids);
    }

    /// Whether every tier of `pool` is one of this catalog.
    pub fn holds(&self, pool: &[OpaqueIndex<Tier>]) -> (all: bool)
        ensures
            all == self.has_tiers(pool@),
    {
        let mut i: usize = 0;
        while i < pool.len()
            invariant
                i <= pool.len(),
                forall|k: int| 0 <= k < i ==> self.has_tier(#[trigger] pool@[k]),
            decreases pool.len() - i,
        {
            if pool[i].index() >= self.tiers.len() {
                return false;
            }
            i += 1;
        }
        true
    }

    /// The tier at a position.
    pub fn get_tier(&self, t: OpaqueIndex<Tier>) -> (r: &Tier)
        requires
            self.has_tier(t),
        ensures
            *r == self.tier(t),
    {
        self.tiers.get(t)
    }

    /// The modifier that the tier at a position belongs to.
    pub fn get_modifier(&self, t: OpaqueIndex<Tier>) -> (r: &Modifier)
        requires
            self.wf(),
            self.has_tier(t),
        ensures
            *r == self.modifier_of(t),
    {
        let tier = self.tiers.get(t);
        self.mods.get(tier.mod_id)
    }

    /// Whether [`Self::lists_base`] holds of `base`.
    pub fn has_base(&self, base: &str) -> (b: bool)
        ensures
            b == self.lists_base(base@),
    {
        match self.item_tiers.get(base) {
            None => false,
            Some(ids) => {
                let mut j: usize = 0;
                while j < ids.len()
                    invariant
                        j <= ids.len(),
                        self.item_tiers@.contains_key(base@),
                        *ids == self.item_tiers@[base@],
                        forall|k: int|
                            0 <= k < j ==> self.tiers.names().contains_key(#[trigger] ids@[k]@),
                    decreases ids.len() - j,
                {
                    if !self.tiers.contains_key(ids[j].as_str()) {
                        assert(!self.tiers.names().contains_key(
                            self.item_tiers@[base@]@[j as int]@,
                        ));
                        return false;
                    }
                    j += 1;
                }
                true
            },
        }
    }
}

} // verus!
