//! Changes made to an item by hand: a modifier is put on it or taken off,
//! and the item is cut down to what its rarity and its level allow.

use crate::catalog::Catalog;
use crate::crafting::filter_affix;
use crate::currency::steps::{other_than, remove_all};
use crate::hashvec::OpaqueIndex;
use crate::item_state::{affix_count, has_affix, ItemState, Rarity};
use crate::types::{Affix, Tier};
use crate::util::seqs::{lemma_filter_member, lemma_filter_push, lemma_take_step};
use vstd::prelude::*;

verus! {

/// The test "is a tier of another modifier than `tier` is".
pub open spec fn of_other_modifier(cat: &Catalog, tier: OpaqueIndex<Tier>) -> spec_fn(
    OpaqueIndex<Tier>,
) -> bool {
    |x: OpaqueIndex<Tier>| cat.tier(x).mod_id@ != cat.tier(tier).mod_id@
}

/// The test "rolls on items of `level` or above only".
pub open spec fn from_level(cat: &Catalog, level: u32) -> spec_fn(OpaqueIndex<Tier>) -> bool {
    |x: OpaqueIndex<Tier>| cat.ilvl_of(x) >= level
}

/// One of `mods` is a tier of the modifier that `tier` is of.
pub open spec fn has_modifier_of(
    cat: &Catalog,
    mods: Seq<OpaqueIndex<Tier>>,
    tier: OpaqueIndex<Tier>,
) -> bool {
    exists|i: int|
        0 <= i < mods.len() && cat.tier(#[trigger] mods[i]).mod_id@ == cat.tier(tier).mod_id@
}

/// The modifiers of the item after `tier` was picked on it. A tier that
/// the item has is taken off. One of a modifier that the item has at
/// another tier takes the place of that tier, at the end. Any other is
/// added where its affix has room, and else nothing changes.
pub open spec fn toggled(cat: &Catalog, item: &ItemState, tier: OpaqueIndex<Tier>) -> Seq<
    OpaqueIndex<Tier>,
> {
    let mods = item.mods@;
    if mods.contains(tier) {
        mods.filter(other_than(tier))
    } else if has_modifier_of(cat, mods, tier) {
        mods.filter(of_other_modifier(cat, tier)).push(tier)
    } else if cat.affix_of(tier) == Affix::Corrupted || affix_count(cat, mods, cat.affix_of(tier))
        >= item.rarity.max_affixes() {
        mods
    } else {
        mods.push(tier)
    }
}

/// The first `most` of the items, or all of them where they are fewer.
pub open spec fn first_of(mods: Seq<OpaqueIndex<Tier>>, most: int) -> Seq<OpaqueIndex<Tier>> {
    if most < mods.len() {
        mods.take(most)
    } else {
        mods
    }
}

/// The prefixes among `mods`, as many as `most`, and after them as many of
/// the suffixes.
pub open spec fn limited(cat: &Catalog, mods: Seq<OpaqueIndex<Tier>>, most: int) -> Seq<
    OpaqueIndex<Tier>,
> {
    first_of(mods.filter(has_affix(cat, Affix::Prefix)), most) + first_of(
        mods.filter(has_affix(cat, Affix::Suffix)),
        most,
    )
}

/// Whether `tier` is among `mods`.
pub fn holds_tier(mods: &Vec<OpaqueIndex<Tier>>, tier: OpaqueIndex<Tier>) -> (found: bool)
    ensures
        found == mods@.contains(tier),
{
    let mut i: usize = 0;
    while i < mods.len()
        invariant
            i <= mods.len(),
            forall|j: int| 0 <= j < i ==> mods@[j] != tier,
        decreases mods.len() - i,
    {
        proof {
            OpaqueIndex::lemma_view_eq(mods@[i as int], tier);
        }
        if mods[i].index() == tier.index() {
            return true;
        }
        i += 1;
    }
    false
}

/// The tiers of `mods` that are of another modifier than `tier` is, and
/// whether there were others.
fn of_other_modifiers(cat: &Catalog, mods: &Vec<OpaqueIndex<Tier>>, tier: OpaqueIndex<Tier>) -> (out:
    (Vec<OpaqueIndex<Tier>>, bool))
    requires
        cat.has_tiers(mods@),
        cat.has_tier(tier),
    ensures
        out.0@ == mods@.filter(of_other_modifier(cat, tier)),
        out.1 == has_modifier_of(cat, mods@, tier),
{
    let own = cat.get_tier(tier).mod_id.index();
    let mut kept: Vec<OpaqueIndex<Tier>> = Vec::new();
    let mut found = false;
    let mut i: usize = 0;
    assert(mods@.take(0).filter(of_other_modifier(cat, tier)) =~= Seq::empty()) by {
        reveal(Seq::filter);
    }
    while i < mods.len()
        invariant
            i <= mods.len(),
            cat.has_tiers(mods@),
            own == cat.tier(tier).mod_id@,
            kept@ == mods@.take(i as int).filter(of_other_modifier(cat, tier)),
            found == has_modifier_of(cat, mods@.take(i as int), tier),
        decreases mods.len() - i,
    {
        let x = mods[i];
        proof {
            lemma_take_step(mods@, i as int);
            lemma_filter_push(mods@.take(i as int), x, of_other_modifier(cat, tier));
            let before = mods@.take(i as int);
            let after = mods@.take(i + 1);
            if has_modifier_of(cat, before, tier) {
                let j = choose|j: int|
                    0 <= j < before.len() && cat.tier(#[trigger] before[j]).mod_id@ == cat.tier(
                        tier,
                    ).mod_id@;
                assert(after[j] == before[j]);
            }
            if has_modifier_of(cat, after, tier) && cat.tier(x).mod_id@ != own {
                let j = choose|j: int|
                    0 <= j < after.len() && cat.tier(#[trigger] after[j]).mod_id@ == cat.tier(
                        tier,
                    ).mod_id@;
                assert(before[j] == after[j]);
            }
            if cat.tier(x).mod_id@ == own {
                assert(after[i as int] == x);
            }
        }
        if cat.get_tier(x).mod_id.index() != own {
            kept.push(x);
        } else {
            found = true;
        }
        i += 1;
    }
    assert(mods@.take(mods.len() as int) =~= mods@);
    (kept, found)
}

/// Picks `tier` on the item: takes it off where the item has it, puts it
/// in the place of another tier of its modifier where the item has one,
/// and else adds it where its affix has room.
pub fn toggle(item: &mut ItemState, cat: &Catalog, tier: OpaqueIndex<Tier>)
    requires
        cat.wf(),
        old(item).wf(cat),
        cat.has_tier(tier),
    ensures
        final(item).mods@ == toggled(cat, old(item), tier),
        final(item).same_frame(old(item)),
        final(item).wf(cat),
{
    if holds_tier(&item.mods, tier) {
        remove_all(&mut item.mods, tier);
        assert forall|i: int| 0 <= i < item.mods@.len() implies cat.has_tier(
            #[trigger] item.mods@[i],
        ) by {
            lemma_filter_member(old(item).mods@, other_than(tier), item.mods@[i]);
        }
        return ;
    }
    let (others, found) = of_other_modifiers(cat, &item.mods, tier);
    if found {
        assert forall|i: int| 0 <= i < others@.len() implies cat.has_tier(#[trigger] others@[i]) by {
            lemma_filter_member(old(item).mods@, of_other_modifier(cat, tier), others@[i]);
        }
        item.mods = others;
        item.mods.push(tier);
        return ;
    }
    let affix = cat.get_tier(tier).affix;
    if affix != Affix::Corrupted && item.has_room(cat, affix) {
        item.mods.push(tier);
    }
}

/// The first `most` of the items, or all of them where they are fewer.
fn take_first(mods: Vec<OpaqueIndex<Tier>>, most: usize) -> (out: Vec<OpaqueIndex<Tier>>)
    ensures
        out@ == first_of(mods@, most as int),
{
    let mut out = mods;
    if most < out.len() {
        out.truncate(most);
        assert(out@ =~= mods@.take(most as int));
    }
    out
}

/// Cuts the item down to what its rarity holds: of its prefixes and of
/// its suffixes the first ones stay, the prefixes before the suffixes.
pub fn limit_to_rarity(item: &mut ItemState, cat: &Catalog)
    requires
        cat.wf(),
        old(item).wf(cat),
    ensures
        final(item).mods@ == limited(cat, old(item).mods@, old(item).rarity.max_affixes()),
        final(item).same_frame(old(item)),
        final(item).wf(cat),
{
    let most: usize = match item.rarity {
        Rarity::Normal => 0,
        Rarity::Magic => 1,
        Rarity::Rare => 3,
    };
    let prefixes = take_first(filter_affix(cat, item.mods.as_slice(), Affix::Prefix), most);
    let suffixes = take_first(filter_affix(cat, item.mods.as_slice(), Affix::Suffix), most);
    let mut kept = prefixes;
    let mut i: usize = 0;
    while i < suffixes.len()
        invariant
            i <= suffixes.len(),
            kept@ == prefixes@ + suffixes@.take(i as int),
        decreases suffixes.len() - i,
    {
        kept.push(suffixes[i]);
        proof {
            lemma_take_step(suffixes@, i as int);
            assert(kept@ =~= prefixes@ + suffixes@.take(i + 1));
        }
        i += 1;
    }
    proof {
        assert(suffixes@.take(suffixes@.len() as int) =~= suffixes@);
        assert forall|k: int| 0 <= k < kept@.len() implies cat.has_tier(#[trigger] kept@[k]) by {
            let x = kept@[k];
            if k < prefixes@.len() {
                assert(prefixes@.contains(x));
                assert(item.mods@.filter(has_affix(cat, Affix::Prefix)).contains(x));
                lemma_filter_member(item.mods@, has_affix(cat, Affix::Prefix), x);
            } else {
                assert(suffixes@[k - prefixes@.len()] == x);
                assert(suffixes@.contains(x));
                assert(item.mods@.filter(has_affix(cat, Affix::Suffix)).contains(x));
                lemma_filter_member(item.mods@, has_affix(cat, Affix::Suffix), x);
            }
        }
    }
    item.mods = kept;
}

/// Keeps the modifiers of the item that roll on items of its level or
/// above only.
pub fn keep_from_level(item: &mut ItemState, cat: &Catalog)
    requires
        cat.wf(),
        old(item).wf(cat),
    ensures
        final(item).mods@ == old(item).mods@.filter(from_level(cat, old(item).item_level)),
        final(item).same_frame(old(item)),
        final(item).wf(cat),
{
    let level = item.item_level;
    let mut kept: Vec<OpaqueIndex<Tier>> = Vec::new();
    let mut i: usize = 0;
    assert(item.mods@.take(0).filter(from_level(cat, level)) =~= Seq::empty()) by {
        reveal(Seq::filter);
    }
    while i < item.mods.len()
        invariant
            i <= item.mods.len(),
            item.wf(cat),
            kept@ == item.mods@.take(i as int).filter(from_level(cat, level)),
        decreases item.mods.len() - i,
    {
        let x = item.mods[i];
        proof {
            lemma_take_step(item.mods@, i as int);
            lemma_filter_push(item.mods@.take(i as int), x, from_level(cat, level));
        }
        if cat.get_tier(x).ilvl >= level {
            kept.push(x);
        }
        i += 1;
    }
    proof {
        assert(item.mods@.take(item.mods.len() as int) =~= item.mods@);
        assert forall|k: int| 0 <= k < kept@.len() implies cat.has_tier(#[trigger] kept@[k]) by {
            lemma_filter_member(item.mods@, from_level(cat, level), kept@[k]);
        }
    }
    item.mods = kept;
}

} // verus!
