//! The essences, which add a modifier of their own to an item, and the
//! desecration, which adds a veiled one.

use crate::catalog::Catalog;
use crate::crafting::filter_affix;
use crate::currency::orbs::{lemma_valid_counts, no_omens};
use crate::currency::steps::{
    annul, annuls, copy_pool, lemma_affix_count_push, lemma_annuls_keep, lemma_filter_keeps_pool,
    lemma_slammable, lemma_slams_keep, removable, removal_candidates, slam, slammable, slams,
};
use crate::currency::{CraftError, Currency};
use crate::hashvec::OpaqueIndex;
use crate::item_state::{affix_count, has_affix, has_family, within_level, ItemState, Rarity};
use crate::types::{Affix, OmenSet, Tier};
use crate::util::rand::draw_index;
use crate::util::seqs::lemma_filter_member;
use vstd::prelude::*;

verus! {

/// For a base item, the tiers that an essence gives on it.
pub type EssenceTiers = Vec<(String, Vec<OpaqueIndex<Tier>>)>;

/// The table has an entry for `base`.
pub open spec fn lists_base(table: Seq<(String, Vec<OpaqueIndex<Tier>>)>, base: Seq<char>) -> bool {
    exists|i: int| 0 <= i < table.len() && (#[trigger] table[i]).0@ == base
}

/// The tiers that the table gives for `base`, which it lists.
pub open spec fn tiers_for(table: Seq<(String, Vec<OpaqueIndex<Tier>>)>, base: Seq<char>) -> Seq<
    OpaqueIndex<Tier>,
> {
    let i = choose|i: int| 0 <= i < table.len() && (#[trigger] table[i]).0@ == base;
    table[i].1@
}

/// One of `tiers` sits at `affix`.
pub open spec fn any_at(cat: &Catalog, tiers: Seq<OpaqueIndex<Tier>>, affix: Affix) -> bool {
    exists|k: int| 0 <= k < tiers.len() && cat.affix_of(#[trigger] tiers[k]) == affix
}

/// The table is one that an essence can hold: no base twice, and for each
/// base at least one tier, all of the catalog, one of them a prefix or a
/// suffix.
pub open spec fn table_wf(cat: &Catalog, table: Seq<(String, Vec<OpaqueIndex<Tier>>)>) -> bool {
    &&& forall|i: int, j: int|
        0 <= i < j < table.len() ==> (#[trigger] table[i]).0@ != (#[trigger] table[j]).0@
    &&& forall|i: int|
        0 <= i < table.len() ==> {
            let tiers = (#[trigger] table[i]).1@;
            &&& tiers.len() > 0
            &&& cat.has_tiers(tiers)
            &&& any_at(cat, tiers, Affix::Prefix) || any_at(cat, tiers, Affix::Suffix)
        }
}

/// Whether the table is one that an essence can hold.
pub fn table_ok(cat: &Catalog, table: &EssenceTiers) -> (ok: bool)
    ensures
        ok == table_wf(cat, table@),
{
    let mut i: usize = 0;
    while i < table.len()
        invariant
            i <= table.len(),
            forall|a: int, b: int|
                0 <= a < b < i ==> (#[trigger] table@[a]).0@ != (#[trigger] table@[b]).0@,
            forall|a: int|
                0 <= a < i ==> {
                    let tiers = (#[trigger] table@[a]).1@;
                    &&& tiers.len() > 0
                    &&& cat.has_tiers(tiers)
                    &&& any_at(cat, tiers, Affix::Prefix) || any_at(cat, tiers, Affix::Suffix)
                },
        decreases table.len() - i,
    {
        let tiers = &table[i].1;
        if tiers.len() == 0 || !cat.holds(tiers.as_slice()) {
            return false;
        }
        if !has_any_at(cat, tiers.as_slice(), Affix::Prefix) && !has_any_at(
            cat,
            tiers.as_slice(),
            Affix::Suffix,
        ) {
            return false;
        }
        let mut j: usize = 0;
        while j < i
            invariant
                j <= i,
                i < table.len(),
                forall|a: int| 0 <= a < j ==> (#[trigger] table@[a]).0@ != table@[i as int].0@,
            decreases i - j,
        {
            if table[j].0 == table[i].0 {
                return false;
            }
            j += 1;
        }
        i += 1;
    }
    true
}

/// The entry of the table for `base`, if it has one.
pub fn lookup<'a>(table: &'a EssenceTiers, base: &String) -> (found: Option<&'a Vec<OpaqueIndex<Tier>>>)
    requires
        forall|i: int, j: int|
            0 <= i < j < table@.len() ==> (#[trigger] table@[i]).0@ != (#[trigger] table@[j]).0@,
    ensures
        match found {
            Some(tiers) => lists_base(table@, base@) && tiers@ == tiers_for(table@, base@)
                && exists|i: int| 0 <= i < table@.len() && (#[trigger] table@[i]).1 == *tiers,
            None => !lists_base(table@, base@),
        },
{
    let mut i: usize = 0;
    while i < table.len()
        invariant
            i <= table.len(),
            forall|a: int, b: int|
                0 <= a < b < table@.len() ==> (#[trigger] table@[a]).0@ != (#[trigger] table@[b]).0@,
            forall|j: int| 0 <= j < i ==> (#[trigger] table@[j]).0@ != base@,
        decreases table.len() - i,
    {
        if table[i].0 == *base {
            proof {
                assert(table@[i as int].0@ == base@);
                let k = choose|k: int| 0 <= k < table@.len() && (#[trigger] table@[k]).0@ == base@;
                if k < i {
                    assert(table@[k].0@ != table@[i as int].0@);
                }
                if i < k {
                    assert(table@[i as int].0@ != table@[k].0@);
                }
            }
            return Some(&table[i].1);
        }
        i += 1;
    }
    None
}

/// Whether one of `tiers` sits at `affix`.
pub fn has_any_at(cat: &Catalog, tiers: &[OpaqueIndex<Tier>], affix: Affix) -> (any: bool)
    requires
        cat.has_tiers(tiers@),
    ensures
        any == any_at(cat, tiers@, affix),
{
    let mut k: usize = 0;
    while k < tiers.len()
        invariant
            k <= tiers.len(),
            cat.has_tiers(tiers@),
            forall|j: int| 0 <= j < k ==> cat.affix_of(#[trigger] tiers@[j]) != affix,
        decreases tiers.len() - k,
    {
        if cat.get_tier(tiers[k]).affix == affix {
            return true;
        }
        k += 1;
    }
    false
}

/// Whether the item has a modifier of the family of `t`.
pub fn has_family_of(cat: &Catalog, item: &ItemState, t: OpaqueIndex<Tier>) -> (has: bool)
    requires
        cat.wf(),
        item.wf(cat),
        cat.has_tier(t),
    ensures
        has == has_family(cat, item.mods@, cat.family_of(t)),
{
    let family = &cat.get_modifier(t).family;
    let mut i: usize = 0;
    while i < item.mods.len()
        invariant
            i <= item.mods.len(),
            cat.wf(),
            item.wf(cat),
            family@ == cat.family_of(t),
            forall|j: int| 0 <= j < i ==> cat.family_of(#[trigger] item.mods@[j]) != family@,
        decreases item.mods.len() - i,
    {
        if cat.get_modifier(item.mods[i]).family == *family {
            return true;
        }
        i += 1;
    }
    false
}

/// An item with the modifiers `mods` has room for one of `tiers`: these
/// sit at both affixes, or the item has fewer than three at the one at
/// which they sit.
pub open spec fn essence_room(
    cat: &Catalog,
    mods: Seq<OpaqueIndex<Tier>>,
    tiers: Seq<OpaqueIndex<Tier>>,
) -> bool {
    if any_at(cat, tiers, Affix::Prefix) {
        any_at(cat, tiers, Affix::Suffix) || affix_count(cat, mods, Affix::Prefix) < 3
    } else {
        affix_count(cat, mods, Affix::Suffix) < 3
    }
}

/// An item with the modifiers `mods` has a free place for one of `tiers`:
/// fewer than six modifiers, and fewer than three at an affix at which one
/// of the tiers sits.
pub open spec fn free_slot(
    cat: &Catalog,
    mods: Seq<OpaqueIndex<Tier>>,
    tiers: Seq<OpaqueIndex<Tier>>,
) -> bool {
    &&& mods.len() < 6
    &&& {
        ||| any_at(cat, tiers, Affix::Prefix) && affix_count(cat, mods, Affix::Prefix) < 3
        ||| any_at(cat, tiers, Affix::Suffix) && affix_count(cat, mods, Affix::Suffix) < 3
    }
}

/// Whether the item has a free place for one of `tiers`.
pub fn has_free_slot(cat: &Catalog, item: &ItemState, tiers: &[OpaqueIndex<Tier>]) -> (free: bool)
    requires
        item.wf(cat),
        cat.has_tiers(tiers@),
    ensures
        free == free_slot(cat, item.mods@, tiers@),
{
    if item.mods.len() >= 6 {
        return false;
    }
    if has_any_at(cat, tiers, Affix::Prefix) && item.num_prefixes(cat) < 3 {
        return true;
    }
    has_any_at(cat, tiers, Affix::Suffix) && item.num_suffixes(cat) < 3
}

/// The affix of which a modifier has to go to make room for one of `tiers`,
/// if there is one: the one at which they all sit, where the item has three
/// there.
pub open spec fn crowded_affix(
    cat: &Catalog,
    mods: Seq<OpaqueIndex<Tier>>,
    tiers: Seq<OpaqueIndex<Tier>>,
) -> Option<Affix> {
    if any_at(cat, tiers, Affix::Prefix) {
        if !any_at(cat, tiers, Affix::Suffix) && affix_count(cat, mods, Affix::Prefix) == 3 {
            Some(Affix::Prefix)
        } else {
            None
        }
    } else if affix_count(cat, mods, Affix::Suffix) == 3 {
        Some(Affix::Suffix)
    } else {
        None
    }
}

/// The modifiers that a perfect essence may take off to make room for one
/// of `tiers`: those at the crowded affix, if there is one, and of them
/// suffixes only under Dextral, prefixes only under Sinistral.
pub open spec fn displaced(
    cat: &Catalog,
    mods: Seq<OpaqueIndex<Tier>>,
    tiers: Seq<OpaqueIndex<Tier>>,
    omens: OmenSet,
) -> Seq<OpaqueIndex<Tier>> {
    let crowded = match crowded_affix(cat, mods, tiers) {
        Some(affix) => mods.filter(has_affix(cat, affix)),
        None => mods,
    };
    let by_dextral = if omens.dextral {
        crowded.filter(has_affix(cat, Affix::Suffix))
    } else {
        crowded
    };
    if omens.sinistral {
        by_dextral.filter(has_affix(cat, Affix::Prefix))
    } else {
        by_dextral
    }
}

/// What a perfect essence may take off the item to add one of `tiers`.
pub fn displaced_candidates(
    cat: &Catalog,
    item: &ItemState,
    tiers: &[OpaqueIndex<Tier>],
    omens: &OmenSet,
) -> (kept: Vec<OpaqueIndex<Tier>>)
    requires
        item.wf(cat),
        cat.has_tiers(tiers@),
    ensures
        kept@ == displaced(cat, item.mods@, tiers@, *omens),
        cat.has_tiers(kept@),
        forall|t: OpaqueIndex<Tier>| kept@.contains(t) ==> item.mods@.contains(t),
{
    let prefix = has_any_at(cat, tiers, Affix::Prefix);
    let suffix = has_any_at(cat, tiers, Affix::Suffix);
    let crowded: Option<Affix> = if prefix {
        if !suffix && item.num_prefixes(cat) == 3 {
            Some(Affix::Prefix)
        } else {
            None
        }
    } else if item.num_suffixes(cat) == 3 {
        Some(Affix::Suffix)
    } else {
        None
    };
    proof {
        lemma_filter_keeps_pool(cat, item.mods@, has_affix(cat, Affix::Prefix), 0);
        lemma_filter_keeps_pool(cat, item.mods@, has_affix(cat, Affix::Suffix), 0);
    }
    let mut kept = match crowded {
        Some(affix) => filter_affix(cat, item.mods.as_slice(), affix),
        None => copy_pool(item.mods.as_slice()),
    };
    proof {
        lemma_filter_keeps_pool(cat, kept@, has_affix(cat, Affix::Suffix), 0);
    }
    if omens.dextral {
        kept = filter_affix(cat, kept.as_slice(), Affix::Suffix);
    }
    proof {
        lemma_filter_keeps_pool(cat, kept@, has_affix(cat, Affix::Prefix), 0);
    }
    if omens.sinistral {
        kept = filter_affix(cat, kept.as_slice(), Affix::Prefix);
    }
    kept
}

/// What a perfect essence may take off an item is on it.
pub proof fn lemma_displaced(
    cat: &Catalog,
    mods: Seq<OpaqueIndex<Tier>>,
    tiers: Seq<OpaqueIndex<Tier>>,
    omens: OmenSet,
)
    ensures
        forall|t: OpaqueIndex<Tier>|
            displaced(cat, mods, tiers, omens).contains(t) ==> mods.contains(t),
{
    let crowded = match crowded_affix(cat, mods, tiers) {
        Some(affix) => mods.filter(has_affix(cat, affix)),
        None => mods,
    };
    let by_dextral = if omens.dextral {
        crowded.filter(has_affix(cat, Affix::Suffix))
    } else {
        crowded
    };
    lemma_filter_keeps_pool(cat, mods, has_affix(cat, Affix::Prefix), 0);
    lemma_filter_keeps_pool(cat, mods, has_affix(cat, Affix::Suffix), 0);
    lemma_filter_keeps_pool(cat, crowded, has_affix(cat, Affix::Suffix), 0);
    lemma_filter_keeps_pool(cat, by_dextral, has_affix(cat, Affix::Prefix), 0);
}

/// The two tables list the same bases, in the same order and with the same
/// tiers.
pub open spec fn same_table(
    first: Seq<(String, Vec<OpaqueIndex<Tier>>)>,
    second: Seq<(String, Vec<OpaqueIndex<Tier>>)>,
) -> bool {
    &&& first.len() == second.len()
    &&& forall|i: int|
        0 <= i < first.len() ==> (#[trigger] first[i]).0@ == second[i].0@ && first[i].1@
            == second[i].1@
}

/// A table that is as good as another is one that an essence can hold if
/// the other is.
pub proof fn lemma_same_table(
    cat: &Catalog,
    first: Seq<(String, Vec<OpaqueIndex<Tier>>)>,
    second: Seq<(String, Vec<OpaqueIndex<Tier>>)>,
)
    requires
        same_table(first, second),
        table_wf(cat, first),
    ensures
        table_wf(cat, second),
{
    assert forall|i: int, j: int| 0 <= i < j < second.len() implies (#[trigger] second[i]).0@ != (
    #[trigger] second[j]).0@ by {
        assert(first[i].0@ != first[j].0@);
    }
    assert forall|i: int| 0 <= i < second.len() implies {
        let tiers = (#[trigger] second[i]).1@;
        &&& tiers.len() > 0
        &&& cat.has_tiers(tiers)
        &&& any_at(cat, tiers, Affix::Prefix) || any_at(cat, tiers, Affix::Suffix)
    } by {
        assert(first[i].1@ == second[i].1@);
    }
}

/// A copy of the table.
pub fn clone_table(table: &EssenceTiers) -> (copy: EssenceTiers)
    ensures
        same_table(table@, copy@),
{
    let mut copy: EssenceTiers = Vec::new();
    let mut i: usize = 0;
    while i < table.len()
        invariant
            i <= table.len(),
            copy@.len() == i,
            forall|k: int|
                0 <= k < i ==> (#[trigger] table@[k]).0@ == copy@[k].0@ && table@[k].1@ == copy@[k].1@,
        decreases table.len() - i,
    {
        let tiers = copy_pool(table[i].1.as_slice());
        copy.push((table[i].0.clone(), tiers));
        i += 1;
    }
    copy
}

/// An essence of the lesser grades: makes a magic item rare and adds the
/// essence's modifier.
#[derive(Debug)]
pub struct Essence {
    pub name: String,
    /// For each base item that the essence works on, what it gives there.
    pub tiers: EssenceTiers,
}

impl Clone for Essence {
    fn clone(&self) -> (copy: Self)
        ensures
            copy.name@ == self.name@,
            same_table(self.tiers@, copy.tiers@),
    {
        Essence { name: self.name.clone(), tiers: clone_table(&self.tiers) }
    }
}

/// Essences are told apart by their names.
impl PartialEq for Essence {
    fn eq(&self, other: &Self) -> (same: bool) {
        self.name == other.name
    }
}

impl vstd::std_specs::cmp::PartialEqSpecImpl for Essence {
    open spec fn obeys_eq_spec() -> bool {
        true
    }

    open spec fn eq_spec(&self, other: &Self) -> bool {
        self.name@ == other.name@
    }
}

impl Essence {
    /// Whether the two essences have the same name.
    pub fn same_name(&self, other: &Self) -> (same: bool)
        ensures
            same == (self.name@ == other.name@),
    {
        *self == *other
    }
}

impl Currency for Essence {
    open spec fn wf(&self, cat: &Catalog) -> bool {
        table_wf(cat, self.tiers@)
    }

    open spec fn usable(
        &self,
        cat: &Catalog,
        item: &ItemState,
        pool: Seq<OpaqueIndex<Tier>>,
        omens: OmenSet,
    ) -> bool {
        &&& item.rarity == Rarity::Magic
        &&& lists_base(self.tiers@, item.base_type@)
        &&& {
            let tiers = tiers_for(self.tiers@, item.base_type@);
            &&& !has_family(cat, item.mods@, cat.family_of(tiers[0]))
            &&& essence_room(cat, item.mods@, tiers)
        }
    }

    open spec fn crafts(
        &self,
        cat: &Catalog,
        before: &ItemState,
        pool: Seq<OpaqueIndex<Tier>>,
        omens: OmenSet,
        after: &ItemState,
        done: bool,
    ) -> bool {
        &&& after.base_type == before.base_type
        &&& after.item_level == before.item_level
        &&& after.rarity == Rarity::Rare
        &&& slams(
            cat,
            before.mods@,
            tiers_for(self.tiers@, before.base_type@),
            1,
            after.mods@,
            done,
        )
    }

    open spec fn sound_on(
        &self,
        cat: &Catalog,
        item: &ItemState,
        pool: Seq<OpaqueIndex<Tier>>,
        omens: OmenSet,
    ) -> bool {
        within_level(cat, tiers_for(self.tiers@, item.base_type@), item.item_level)
    }

    proof fn lemma_keeps_valid(
        &self,
        cat: &Catalog,
        before: &ItemState,
        pool: Seq<OpaqueIndex<Tier>>,
        omens: OmenSet,
        after: &ItemState,
        done: bool,
    ) {
        lemma_valid_counts(cat, before);
        lemma_slams_keep(
            cat,
            before.mods@,
            tiers_for(self.tiers@, before.base_type@),
            1,
            after.mods@,
            done,
            before.item_level,
        );
    }

    proof fn lemma_keeps_frame(
        &self,
        cat: &Catalog,
        before: &ItemState,
        pool: Seq<OpaqueIndex<Tier>>,
        omens: OmenSet,
        after: &ItemState,
        done: bool,
    ) {
    }

    fn is_wf(&self, cat: &Catalog) -> (wf: bool) {
        table_ok(cat, &self.tiers)
    }

    fn name(&self) -> (name: &str)
        ensures
            name@ == self.name@,
    {
        self.name.as_str()
    }

    fn can_be_used(
        &self,
        cat: &Catalog,
        item: &ItemState,
        candidate_tiers: &[OpaqueIndex<Tier>],
        omens: &OmenSet,
    ) -> (usable: bool) {
        if item.rarity != Rarity::Magic {
            return false;
        }
        let tiers = match lookup(&self.tiers, &item.base_type) {
            None => {
                return false;
            },
            Some(tiers) => tiers,
        };
        if has_family_of(cat, item, tiers[0]) {
            return false;
        }
        if has_any_at(cat, tiers.as_slice(), Affix::Prefix) {
            has_any_at(cat, tiers.as_slice(), Affix::Suffix) || item.num_prefixes(cat) < 3
        } else {
            item.num_suffixes(cat) < 3
        }
    }

    fn craft(
        &self,
        cat: &Catalog,
        item: &mut ItemState,
        candidate_tiers: &[OpaqueIndex<Tier>],
        omens: &OmenSet,
    ) -> (done: Result<(), CraftError>) {
        let ghost before = *item;
        let tiers = lookup(&self.tiers, &item.base_type).unwrap();
        item.rarity = Rarity::Rare;
        let done = slam(cat, item, tiers.as_slice(), 1);
        proof {
            if before.valid(cat) && self.sound_on(cat, &before, candidate_tiers@, *omens) {
                lemma_valid_counts(cat, &before);
                lemma_slams_keep(cat, before.mods@, tiers@, 1, item.mods@, done, before.item_level);
            }
        }
        if done {
            Ok(())
        } else {
            Err(CraftError::NoCandidates)
        }
    }
}

/// Where an essence gives one tier on the item's base, it adds that tier.
pub proof fn lemma_essence_fixed(
    essence: &Essence,
    cat: &Catalog,
    before: &ItemState,
    pool: Seq<OpaqueIndex<Tier>>,
    omens: OmenSet,
    after: &ItemState,
    done: bool,
)
    requires
        essence.wf(cat),
        essence.usable(cat, before, pool, omens),
        essence.crafts(cat, before, pool, omens, after, done),
        tiers_for(essence.tiers@, before.base_type@).len() == 1,
    ensures
        done,
        after.mods@ == before.mods@.push(tiers_for(essence.tiers@, before.base_type@)[0]),
{
    let tiers = tiers_for(essence.tiers@, before.base_type@);
    let t = tiers[0];
    let mods = before.mods@;
    let addable = slammable(cat, mods, tiers);
    lemma_slammable(cat, mods, tiers, t);
    assert(tiers.contains(t));
    if any_at(cat, tiers, Affix::Prefix) {
        let k = choose|k: int| 0 <= k < tiers.len() && cat.affix_of(#[trigger] tiers[k]) == Affix::Prefix;
        if any_at(cat, tiers, Affix::Suffix) {
            let j = choose|j: int|
                0 <= j < tiers.len() && cat.affix_of(#[trigger] tiers[j]) == Affix::Suffix;
        }
    } else {
        let i = choose|i: int| 0 <= i < essence.tiers@.len() && (#[trigger] essence.tiers@[i]).0@
            == before.base_type@;
        assert(any_at(cat, essence.tiers@[i].1@, Affix::Suffix));
        let k = choose|k: int| 0 <= k < tiers.len() && cat.affix_of(#[trigger] tiers[k]) == Affix::Suffix;
    }
    mods.lemma_filter_len(has_affix(cat, Affix::Prefix));
    mods.lemma_filter_len(has_affix(cat, Affix::Suffix));
    assert(addable.contains(t));
    assert(addable.len() > 0);
    if !done {
        assert(after.mods@ =~= after.mods@.take(mods.len() as int));
    }
    assert(after.mods@.len() == mods.len() + 1);
    let x = after.mods@[mods.len() as int];
    assert(after.mods@.take(mods.len() as int) == mods);
    crate::currency::steps::lemma_may_roll(cat, addable, x);
    lemma_slammable(cat, mods, tiers, x);
    let k = choose|k: int| 0 <= k < tiers.len() && tiers[k] == x;
    assert(after.mods@ =~= mods.push(t));
}

/// What a perfect essence may make of an item by first taking a modifier
/// off: one of those that may go is taken off, and one of `tiers` added.
pub open spec fn displaces(
    cat: &Catalog,
    before: Seq<OpaqueIndex<Tier>>,
    tiers: Seq<OpaqueIndex<Tier>>,
    omens: OmenSet,
    after: Seq<OpaqueIndex<Tier>>,
    done: bool,
) -> bool {
    exists|mid: Seq<OpaqueIndex<Tier>>, removed: bool|
        {
            &&& #[trigger] annuls(before, displaced(cat, before, tiers, omens), 1, mid, removed)
            &&& if removed {
                slams(cat, mid, tiers, 1, after, done)
            } else {
                after == mid && !done
            }
        }
}

/// What a perfect essence may make of an item: where the item has a free
/// place for one of `tiers`, one of them is added and nothing taken off;
/// where it has none, one modifier is taken off first.
pub open spec fn perfects(
    cat: &Catalog,
    before: &ItemState,
    tiers: Seq<OpaqueIndex<Tier>>,
    omens: OmenSet,
    after: &ItemState,
    done: bool,
) -> bool {
    &&& after.same_frame(before)
    &&& if free_slot(cat, before.mods@, tiers) {
        slams(cat, before.mods@, tiers, 1, after.mods@, done)
    } else {
        displaces(cat, before.mods@, tiers, omens, after.mods@, done)
    }
}

/// An essence of the highest grade: adds the essence's modifier to a rare
/// item, and first takes a modifier off where the item has no free place
/// for it.
#[derive(Debug)]
pub struct PerfectEssence {
    pub name: String,
    /// For each base item that the essence works on, what it gives there.
    pub tiers: EssenceTiers,
}

impl Clone for PerfectEssence {
    fn clone(&self) -> (copy: Self)
        ensures
            copy.name@ == self.name@,
            same_table(self.tiers@, copy.tiers@),
    {
        PerfectEssence { name: self.name.clone(), tiers: clone_table(&self.tiers) }
    }
}

/// Essences are told apart by their names.
impl PartialEq for PerfectEssence {
    fn eq(&self, other: &Self) -> (same: bool) {
        self.name == other.name
    }
}

impl vstd::std_specs::cmp::PartialEqSpecImpl for PerfectEssence {
    open spec fn obeys_eq_spec() -> bool {
        true
    }

    open spec fn eq_spec(&self, other: &Self) -> bool {
        self.name@ == other.name@
    }
}

impl PerfectEssence {
    /// Whether the two essences have the same name.
    pub fn same_name(&self, other: &Self) -> (same: bool)
        ensures
            same == (self.name@ == other.name@),
    {
        *self == *other
    }
}

impl Currency for PerfectEssence {
    open spec fn wf(&self, cat: &Catalog) -> bool {
        table_wf(cat, self.tiers@)
    }

    open spec fn usable(
        &self,
        cat: &Catalog,
        item: &ItemState,
        pool: Seq<OpaqueIndex<Tier>>,
        omens: OmenSet,
    ) -> bool {
        &&& item.rarity == Rarity::Rare
        &&& lists_base(self.tiers@, item.base_type@)
        &&& {
            let tiers = tiers_for(self.tiers@, item.base_type@);
            &&& !has_family(cat, item.mods@, cat.family_of(tiers[0]))
            &&& free_slot(cat, item.mods@, tiers) || displaced(cat, item.mods@, tiers, omens).len()
                > 0
        }
    }

    open spec fn crafts(
        &self,
        cat: &Catalog,
        before: &ItemState,
        pool: Seq<OpaqueIndex<Tier>>,
        omens: OmenSet,
        after: &ItemState,
        done: bool,
    ) -> bool {
        perfects(cat, before, tiers_for(self.tiers@, before.base_type@), omens, after, done)
    }

    open spec fn sound_on(
        &self,
        cat: &Catalog,
        item: &ItemState,
        pool: Seq<OpaqueIndex<Tier>>,
        omens: OmenSet,
    ) -> bool {
        within_level(cat, tiers_for(self.tiers@, item.base_type@), item.item_level)
    }

    proof fn lemma_keeps_valid(
        &self,
        cat: &Catalog,
        before: &ItemState,
        pool: Seq<OpaqueIndex<Tier>>,
        omens: OmenSet,
        after: &ItemState,
        done: bool,
    ) {
        let tiers = tiers_for(self.tiers@, before.base_type@);
        lemma_valid_counts(cat, before);
        if free_slot(cat, before.mods@, tiers) {
            lemma_slams_keep(cat, before.mods@, tiers, 1, after.mods@, done, before.item_level);
        } else {
            let candidates = displaced(cat, before.mods@, tiers, omens);
            let (mid, removed) = choose|mid: Seq<OpaqueIndex<Tier>>, removed: bool|
                {
                    &&& #[trigger] annuls(before.mods@, candidates, 1, mid, removed)
                    &&& if removed {
                        slams(cat, mid, tiers, 1, after.mods@, done)
                    } else {
                        after.mods@ == mid && !done
                    }
                };
            lemma_displaced(cat, before.mods@, tiers, omens);
            lemma_annuls_keep(cat, before.mods@, candidates, 1, mid, removed, before.item_level);
            if removed {
                lemma_slams_keep(cat, mid, tiers, 1, after.mods@, done, before.item_level);
            }
        }
    }

    proof fn lemma_keeps_frame(
        &self,
        cat: &Catalog,
        before: &ItemState,
        pool: Seq<OpaqueIndex<Tier>>,
        omens: OmenSet,
        after: &ItemState,
        done: bool,
    ) {
    }

    fn is_wf(&self, cat: &Catalog) -> (wf: bool) {
        table_ok(cat, &self.tiers)
    }

    fn name(&self) -> (name: &str)
        ensures
            name@ == self.name@,
    {
        self.name.as_str()
    }

    fn can_be_used(
        &self,
        cat: &Catalog,
        item: &ItemState,
        candidate_tiers: &[OpaqueIndex<Tier>],
        omens: &OmenSet,
    ) -> (usable: bool) {
        if item.rarity != Rarity::Rare {
            return false;
        }
        let tiers = match lookup(&self.tiers, &item.base_type) {
            None => {
                return false;
            },
            Some(tiers) => tiers,
        };
        if has_family_of(cat, item, tiers[0]) {
            return false;
        }
        if has_free_slot(cat, item, tiers.as_slice()) {
            return true;
        }
        let candidates = displaced_candidates(cat, item, tiers.as_slice(), omens);
        candidates.len() > 0
    }

    fn craft(
        &self,
        cat: &Catalog,
        item: &mut ItemState,
        candidate_tiers: &[OpaqueIndex<Tier>],
        omens: &OmenSet,
    ) -> (done: Result<(), CraftError>) {
        let ghost before = *item;
        let tiers = lookup(&self.tiers, &item.base_type).unwrap();
        let done = if has_free_slot(cat, item, tiers.as_slice()) {
            slam(cat, item, tiers.as_slice(), 1)
        } else {
            let candidates = displaced_candidates(cat, item, tiers.as_slice(), omens);
            let removed = annul(item, candidates, 1);
            let ghost mid = item.mods@;
            proof {
                lemma_annuls_keep(cat, before.mods@, candidates@, 1, mid, removed, 0);
                assert(annuls(
                    before.mods@,
                    displaced(cat, before.mods@, tiers@, *omens),
                    1,
                    mid,
                    removed,
                ));
            }
            removed && slam(cat, item, tiers.as_slice(), 1)
        };
        proof {
            if before.valid(cat) && within_level(cat, candidate_tiers@, before.item_level)
                && self.sound_on(cat, &before, candidate_tiers@, *omens) {
                self.lemma_keeps_valid(cat, &before, candidate_tiers@, *omens, item, done);
            }
        }
        if done {
            Ok(())
        } else {
            Err(CraftError::NoCandidates)
        }
    }
}

/// A perfect essence on an item with a free place for its modifier takes
/// nothing off: it adds one of its tiers at the end, if its tiers are all of
/// one family.
pub proof fn lemma_perfect_adds(
    essence: &PerfectEssence,
    cat: &Catalog,
    before: &ItemState,
    pool: Seq<OpaqueIndex<Tier>>,
    omens: OmenSet,
    after: &ItemState,
    done: bool,
)
    requires
        essence.usable(cat, before, pool, omens),
        essence.crafts(cat, before, pool, omens, after, done),
        free_slot(
            cat,
            before.mods@,
            tiers_for(essence.tiers@, before.base_type@),
        ),
        forall|k: int|
            0 <= k < tiers_for(essence.tiers@, before.base_type@).len() ==> cat.family_of(
                #[trigger] tiers_for(essence.tiers@, before.base_type@)[k],
            ) == cat.family_of(tiers_for(essence.tiers@, before.base_type@)[0]),
    ensures
        done,
        after.mods@.len() == before.mods@.len() + 1,
        after.mods@.take(before.mods@.len() as int) == before.mods@,
        tiers_for(essence.tiers@, before.base_type@).contains(after.mods@.last()),
{
    let tiers = tiers_for(essence.tiers@, before.base_type@);
    let mods = before.mods@;
    let affix = if any_at(cat, tiers, Affix::Prefix) && affix_count(cat, mods, Affix::Prefix) < 3 {
        Affix::Prefix
    } else {
        Affix::Suffix
    };
    let k = choose|k: int| 0 <= k < tiers.len() && cat.affix_of(#[trigger] tiers[k]) == affix;
    let t = tiers[k];
    assert(tiers.contains(t));
    lemma_slammable(cat, mods, tiers, t);
    assert(slammable(cat, mods, tiers).contains(t));
    if !done {
        assert(after.mods@ =~= after.mods@.take(mods.len() as int));
    }
    let x = after.mods@[mods.len() as int];
    crate::currency::steps::lemma_may_roll(cat, slammable(cat, mods, tiers), x);
    lemma_slammable(cat, mods, tiers, x);
}

/// The two veiled tiers of the catalog, the prefix first.
pub open spec fn veiled(cat: &Catalog) -> Seq<OpaqueIndex<Tier>> {
    seq![cat.tiers.position("VeiledPrefix"@), cat.tiers.position("VeiledSuffix"@)]
}

/// The omens under which a desecration first takes a modifier off: under
/// Sinistral a prefix, where the item has no room for one; else under
/// Dextral a suffix, where it has no room for one; else any, where it has
/// six modifiers.
pub open spec fn desecrate_removal(cat: &Catalog, item: &ItemState, omens: OmenSet) -> Option<
    OmenSet,
> {
    let room = item.rarity.max_affixes();
    if omens.sinistral && affix_count(cat, item.mods@, Affix::Prefix) >= room {
        Some(OmenSet { sinistral: true, ..no_omens() })
    } else if omens.dextral && affix_count(cat, item.mods@, Affix::Suffix) >= room {
        Some(OmenSet { dextral: true, ..no_omens() })
    } else if item.mods@.len() == 6 {
        Some(no_omens())
    } else {
        None
    }
}

/// The veiled tiers that an item of the rarity `rarity` with the modifiers
/// `mods` can take under the omens: no prefix under Dextral or without room
/// for one, no suffix under Sinistral or without room for one.
pub open spec fn veiled_pool(
    cat: &Catalog,
    mods: Seq<OpaqueIndex<Tier>>,
    rarity: Rarity,
    omens: OmenSet,
) -> Seq<OpaqueIndex<Tier>> {
    let room = rarity.max_affixes();
    let by_prefixes = if omens.dextral || affix_count(cat, mods, Affix::Prefix) >= room {
        veiled(cat).filter(has_affix(cat, Affix::Suffix))
    } else {
        veiled(cat)
    };
    if omens.sinistral || affix_count(cat, mods, Affix::Suffix) >= room {
        by_prefixes.filter(has_affix(cat, Affix::Prefix))
    } else {
        by_prefixes
    }
}

/// `after` is `before` with one of `candidates` more at its end, or, with
/// `done` false, `before` itself, there being no candidate.
pub open spec fn picks_one(
    before: Seq<OpaqueIndex<Tier>>,
    candidates: Seq<OpaqueIndex<Tier>>,
    after: Seq<OpaqueIndex<Tier>>,
    done: bool,
) -> bool {
    if candidates.len() == 0 {
        !done && after == before
    } else {
        &&& done
        &&& after.len() == before.len() + 1
        &&& after.drop_last() == before
        &&& candidates.contains(after.last())
    }
}

/// `mid` is what the removal that a desecration starts with makes of the
/// item's modifiers: one is taken off under the omens of
/// [`desecrate_removal`], or none where these are none.
pub open spec fn makes_room(
    cat: &Catalog,
    before: &ItemState,
    omens: OmenSet,
    mid: Seq<OpaqueIndex<Tier>>,
    removed: bool,
) -> bool {
    match desecrate_removal(cat, before, omens) {
        Some(under) => annuls(before.mods@, removable(cat, before.mods@, under), 1, mid, removed),
        None => mid == before.mods@ && removed,
    }
}

/// What a desecration may make of an item: a modifier is taken off where
/// room has to be made, and a veiled tier added.
pub open spec fn desecrates(
    cat: &Catalog,
    before: &ItemState,
    omens: OmenSet,
    after: &ItemState,
    done: bool,
) -> bool {
    &&& after.same_frame(before)
    &&& exists|mid: Seq<OpaqueIndex<Tier>>, removed: bool|
        {
            &&& #[trigger] makes_room(cat, before, omens, mid, removed)
            &&& if removed {
                picks_one(mid, veiled_pool(cat, mid, before.rarity, omens), after.mods@, done)
            } else {
                after.mods@ == mid && !done
            }
        }
}

/// Adds a veiled modifier to a rare item.
pub struct Desecrate;

impl Currency for Desecrate {
    open spec fn wf(&self, cat: &Catalog) -> bool {
        &&& cat.tiers.names().contains_key("VeiledPrefix"@)
        &&& cat.tiers.names().contains_key("VeiledSuffix"@)
    }

    open spec fn usable(
        &self,
        cat: &Catalog,
        item: &ItemState,
        pool: Seq<OpaqueIndex<Tier>>,
        omens: OmenSet,
    ) -> bool {
        item.rarity == Rarity::Rare
    }

    open spec fn crafts(
        &self,
        cat: &Catalog,
        before: &ItemState,
        pool: Seq<OpaqueIndex<Tier>>,
        omens: OmenSet,
        after: &ItemState,
        done: bool,
    ) -> bool {
        desecrates(cat, before, omens, after, done)
    }

    open spec fn sound_on(
        &self,
        cat: &Catalog,
        item: &ItemState,
        pool: Seq<OpaqueIndex<Tier>>,
        omens: OmenSet,
    ) -> bool {
        forall|k: int|
            0 <= k < 2 ==> cat.ilvl_of(#[trigger] veiled(cat)[k]) <= item.item_level && !has_family(
                cat,
                item.mods@,
                cat.family_of(veiled(cat)[k]),
            )
    }

    proof fn lemma_keeps_valid(
        &self,
        cat: &Catalog,
        before: &ItemState,
        pool: Seq<OpaqueIndex<Tier>>,
        omens: OmenSet,
        after: &ItemState,
        done: bool,
    ) {
        let (mid, removed) = choose|mid: Seq<OpaqueIndex<Tier>>, removed: bool|
            {
                &&& #[trigger] makes_room(cat, before, omens, mid, removed)
                &&& if removed {
                    picks_one(mid, veiled_pool(cat, mid, before.rarity, omens), after.mods@, done)
                } else {
                    after.mods@ == mid && !done
                }
            };
        lemma_valid_counts(cat, before);
        match desecrate_removal(cat, before, omens) {
            Some(under) => {
                crate::currency::orbs::lemma_removable(cat, before.mods@, under);
                lemma_annuls_keep(
                    cat,
                    before.mods@,
                    removable(cat, before.mods@, under),
                    1,
                    mid,
                    removed,
                    before.item_level,
                );
            },
            None => {},
        }
        let candidates = veiled_pool(cat, mid, before.rarity, omens);
        if removed && candidates.len() > 0 {
            let t = after.mods@.last();
            assert(mid.push(t) =~= after.mods@);
            let by_prefixes = if omens.dextral || affix_count(cat, mid, Affix::Prefix) >= 3 {
                veiled(cat).filter(has_affix(cat, Affix::Suffix))
            } else {
                veiled(cat)
            };
            lemma_filter_member(veiled(cat), has_affix(cat, Affix::Suffix), t);
            lemma_filter_member(by_prefixes, has_affix(cat, Affix::Prefix), t);
            assert(veiled(cat).contains(t));
            let k = choose|k: int| 0 <= k < 2 && veiled(cat)[k] == t;
            lemma_affix_count_push(cat, mid, t, Affix::Prefix);
            lemma_affix_count_push(cat, mid, t, Affix::Suffix);
            assert forall|i: int| 0 <= i < after.mods@.len() implies cat.ilvl_of(
                #[trigger] after.mods@[i],
            ) <= after.item_level by {
                if i < mid.len() {
                    assert(after.mods@[i] == mid[i]);
                }
            }
            assert forall|i: int, j: int| 0 <= i < j < after.mods@.len() implies cat.family_of(
                #[trigger] after.mods@[i],
            ) != cat.family_of(#[trigger] after.mods@[j]) by {
                assert(after.mods@[i] == mid[i]);
                if j < mid.len() {
                    assert(after.mods@[j] == mid[j]);
                } else {
                    assert(mid.contains(mid[i]));
                    assert(before.mods@.contains(mid[i]));
                    let b = choose|b: int| 0 <= b < before.mods@.len() && before.mods@[b] == mid[i];
                    assert(cat.family_of(before.mods@[b]) == cat.family_of(mid[i]));
                }
            }
        }
    }

    proof fn lemma_keeps_frame(
        &self,
        cat: &Catalog,
        before: &ItemState,
        pool: Seq<OpaqueIndex<Tier>>,
        omens: OmenSet,
        after: &ItemState,
        done: bool,
    ) {
    }

    fn is_wf(&self, cat: &Catalog) -> (wf: bool) {
        cat.tiers.contains_key("VeiledPrefix") && cat.tiers.contains_key("VeiledSuffix")
    }

    fn name(&self) -> (name: &str)
        ensures
            name@ == "Descrate Item"@,
    {
        "Descrate Item"
    }

    fn can_be_used(
        &self,
        cat: &Catalog,
        item: &ItemState,
        candidate_tiers: &[OpaqueIndex<Tier>],
        omens: &OmenSet,
    ) -> (usable: bool) {
        item.rarity == Rarity::Rare
    }

    fn craft(
        &self,
        cat: &Catalog,
        item: &mut ItemState,
        candidate_tiers: &[OpaqueIndex<Tier>],
        omens: &OmenSet,
    ) -> (done: Result<(), CraftError>) {
        let ghost before = *item;
        let nothing = OmenSet {
            sinistral: false,
            dextral: false,
            homogenous: false,
            greater: false,
            whittling: false,
        };
        let under: Option<OmenSet> = if omens.sinistral && !item.has_room(cat, Affix::Prefix) {
            Some(OmenSet { sinistral: true, ..nothing })
        } else if omens.dextral && !item.has_room(cat, Affix::Suffix) {
            Some(OmenSet { dextral: true, ..nothing })
        } else if item.mods.len() == 6 {
            Some(nothing)
        } else {
            None
        };
        let removed = match under {
            Some(under) => {
                let candidates = removal_candidates(cat, item, &under);
                let removed = annul(item, candidates, 1);
                proof {
                    lemma_annuls_keep(cat, before.mods@, candidates@, 1, item.mods@, removed, 0);
                }
                removed
            },
            None => true,
        };
        let ghost mid = item.mods@;
        proof {
            cat.tiers.lemma_wf();
        }
        let mut done = false;
        if removed {
            let mut candidates: Vec<OpaqueIndex<Tier>> = Vec::new();
            candidates.push(cat.tiers.opaque("VeiledPrefix"));
            candidates.push(cat.tiers.opaque("VeiledSuffix"));
            proof {
                OpaqueIndex::lemma_view_eq(candidates@[0], veiled(cat)[0]);
                OpaqueIndex::lemma_view_eq(candidates@[1], veiled(cat)[1]);
                assert(candidates@ =~= veiled(cat));
                lemma_filter_keeps_pool(cat, candidates@, has_affix(cat, Affix::Suffix), 0);
            }
            if omens.dextral || !item.has_room(cat, Affix::Prefix) {
                candidates = filter_affix(cat, candidates.as_slice(), Affix::Suffix);
            }
            proof {
                lemma_filter_keeps_pool(cat, candidates@, has_affix(cat, Affix::Prefix), 0);
            }
            if omens.sinistral || !item.has_room(cat, Affix::Suffix) {
                candidates = filter_affix(cat, candidates.as_slice(), Affix::Prefix);
            }
            if candidates.len() > 0 {
                let t = candidates[draw_index(candidates.len())];
                item.mods.push(t);
                assert(item.mods@.drop_last() =~= mid);
                done = true;
            }
        }
        proof {
            assert(makes_room(cat, &before, *omens, mid, removed));
            if before.valid(cat) && within_level(cat, candidate_tiers@, before.item_level)
                && self.sound_on(cat, &before, candidate_tiers@, *omens) {
                self.lemma_keeps_valid(cat, &before, candidate_tiers@, *omens, item, done);
            }
        }
        if done {
            Ok(())
        } else {
            Err(CraftError::NoCandidates)
        }
    }
}

} // verus!
