//! Where the orbs keep an item within the rules whatever they roll: on
//! items and pools without a corrupted tier, in which no family sits at
//! two affixes.

use crate::catalog::Catalog;
use crate::crafting::{lemma_raised_pool, raised};
use crate::currency::orbs::{augment_pool, exalt_ready, rolls_fresh};
use crate::currency::steps::{
    lemma_may_roll, lemma_omen_pool, lemma_slammable, may_roll, omen_pool, slammable,
};
use crate::currency::{crafted_through, lemma_reachable, Currency, CurrencyType, Use};
use crate::hashvec::OpaqueIndex;
use crate::item_state::{
    affix_count, distinct_families, has_affix, has_family, within_level, ItemState, Rarity,
};
use crate::types::{Affix, OmenSet, Tier};
use crate::util::seqs::{lemma_filter_member, lemma_filter_push};
use vstd::prelude::*;

verus! {

/// Each of `tiers` is a prefix or a suffix.
pub open spec fn affixed(cat: &Catalog, tiers: Seq<OpaqueIndex<Tier>>) -> bool {
    forall|i: int| 0 <= i < tiers.len() ==> cat.affix_of(#[trigger] tiers[i]) != Affix::Corrupted
}

/// A family that is both among `mods` and in `pool` sits at the same
/// affix there and here.
pub open spec fn families_keep_affix(
    cat: &Catalog,
    mods: Seq<OpaqueIndex<Tier>>,
    pool: Seq<OpaqueIndex<Tier>>,
) -> bool {
    forall|i: int, j: int|
        0 <= i < mods.len() && 0 <= j < pool.len() && cat.family_of(#[trigger] mods[i])
            == cat.family_of(#[trigger] pool[j]) ==> cat.affix_of(mods[i]) == cat.affix_of(pool[j])
}

/// The currency is an orb: neither an essence nor a desecration.
pub open spec fn is_orb(currency: &CurrencyType) -> bool {
    !(currency is Essence) && !(currency is PerfectEssence) && !(currency is Desecrate)
}

/// Modifiers that are all prefixes or suffixes are as many as the
/// prefixes and the suffixes among them.
pub proof fn lemma_affixed_len(cat: &Catalog, mods: Seq<OpaqueIndex<Tier>>)
    requires
        affixed(cat, mods),
    ensures
        mods.len() == affix_count(cat, mods, Affix::Prefix) + affix_count(cat, mods, Affix::Suffix),
    decreases mods.len(),
{
    if mods.len() == 0 {
        assert(mods.filter(has_affix(cat, Affix::Prefix)).len() == 0) by {
            reveal(Seq::filter);
        }
        assert(mods.filter(has_affix(cat, Affix::Suffix)).len() == 0) by {
            reveal(Seq::filter);
        }
    } else {
        let most = mods.drop_last();
        assert(most.push(mods.last()) =~= mods);
        lemma_affixed_len(cat, most);
        lemma_filter_push(most, mods.last(), has_affix(cat, Affix::Prefix));
        lemma_filter_push(most, mods.last(), has_affix(cat, Affix::Suffix));
    }
}

/// A modifier at an affix counts there.
pub proof fn lemma_counted(cat: &Catalog, mods: Seq<OpaqueIndex<Tier>>, i: int)
    requires
        0 <= i < mods.len(),
    ensures
        affix_count(cat, mods, cat.affix_of(mods[i])) >= 1,
{
    let pred = has_affix(cat, cat.affix_of(mods[i]));
    lemma_filter_member(mods, pred, mods[i]);
    assert(mods.contains(mods[i]));
    assert(mods.filter(pred).contains(mods[i]));
}

/// On a magic item within the rules, what may be rolled of a pool is of a
/// new family.
pub proof fn lemma_augment_fresh(
    cat: &Catalog,
    item: &ItemState,
    pool: Seq<OpaqueIndex<Tier>>,
    higher: Seq<OpaqueIndex<Tier>>,
)
    requires
        item.rarity == Rarity::Magic,
        item.valid(cat),
        affixed(cat, item.mods@),
        families_keep_affix(cat, item.mods@, pool),
        forall|t: OpaqueIndex<Tier>| higher.contains(t) ==> pool.contains(t),
    ensures
        rolls_fresh(cat, item.mods@, augment_pool(cat, item.mods@, higher)),
{
    let mods = item.mods@;
    let candidates = augment_pool(cat, mods, higher);
    let by_prefixes = if affix_count(cat, mods, Affix::Prefix) == 1 {
        higher.filter(has_affix(cat, Affix::Suffix))
    } else {
        higher
    };
    assert forall|t: OpaqueIndex<Tier>| #[trigger] may_roll(cat, candidates, t) implies !has_family(
        cat,
        mods,
        cat.family_of(t),
    ) by {
        lemma_may_roll(cat, candidates, t);
        lemma_filter_member(higher, has_affix(cat, Affix::Suffix), t);
        lemma_filter_member(by_prefixes, has_affix(cat, Affix::Prefix), t);
        assert(higher.contains(t));
        if has_family(cat, mods, cat.family_of(t)) {
            let i = choose|i: int|
                0 <= i < mods.len() && cat.family_of(#[trigger] mods[i]) == cat.family_of(t);
            let j = choose|j: int| 0 <= j < pool.len() && pool[j] == t;
            assert(cat.affix_of(mods[i]) == cat.affix_of(pool[j]));
            lemma_counted(cat, mods, i);
        }
    }
}

/// An item within the rules that is ready for two additions has no more
/// than four modifiers.
pub proof fn lemma_exalt_room(
    cat: &Catalog,
    item: &ItemState,
    pool: Seq<OpaqueIndex<Tier>>,
    omens: OmenSet,
)
    requires
        item.valid(cat),
        affixed(cat, item.mods@),
        affixed(cat, pool),
        exalt_ready(cat, item.mods@, pool, omens),
    ensures
        omens.greater ==> item.mods@.len() <= 4,
{
    let mods = item.mods@;
    let left = omen_pool(cat, mods, pool, omens);
    let addable = slammable(cat, mods, left);
    if omens.greater {
        lemma_affixed_len(cat, mods);
        let first = addable[0];
        assert(addable.contains(first));
        lemma_slammable(cat, mods, left, first);
        lemma_omen_pool(cat, mods, pool, omens, 0);
        assert(pool.contains(first));
        let j = choose|j: int| 0 <= j < pool.len() && pool[j] == first;
        assert(cat.affix_of(pool[j]) != Affix::Corrupted);
    }
}

/// An orb that can be used is sound on an item within the rules, if
/// neither the item nor the pool holds a corrupted tier and no family sits
/// at one affix on the item and at another in the pool.
pub proof fn lemma_orb_sound(
    currency: &CurrencyType,
    cat: &Catalog,
    item: &ItemState,
    pool: Seq<OpaqueIndex<Tier>>,
    omens: OmenSet,
)
    requires
        is_orb(currency),
        item.valid(cat),
        currency.usable(cat, item, pool, omens),
        affixed(cat, item.mods@),
        affixed(cat, pool),
        families_keep_affix(cat, item.mods@, pool),
    ensures
        currency.sound_on(cat, item, pool, omens),
{
    match currency {
        CurrencyType::Augmentation => {
            lemma_augment_fresh(cat, item, pool, pool);
        },
        CurrencyType::GreaterAugmentation => {
            assert forall|higher: Seq<OpaqueIndex<Tier>>| #[trigger]
                raised(cat, pool, 35, higher) implies rolls_fresh(
                cat,
                item.mods@,
                augment_pool(cat, item.mods@, higher),
            ) by {
                lemma_raised_pool(cat, pool, 35, higher, 0);
                lemma_augment_fresh(cat, item, pool, higher);
            }
        },
        CurrencyType::PerfectAugmentation => {
            assert forall|higher: Seq<OpaqueIndex<Tier>>| #[trigger]
                raised(cat, pool, 70, higher) implies rolls_fresh(
                cat,
                item.mods@,
                augment_pool(cat, item.mods@, higher),
            ) by {
                lemma_raised_pool(cat, pool, 70, higher, 0);
                lemma_augment_fresh(cat, item, pool, higher);
            }
        },
        CurrencyType::Exalt | CurrencyType::GreaterExalt | CurrencyType::PerfectExalt => {
            lemma_exalt_room(cat, item, pool, omens);
        },
        _ => {},
    }
}

/// An orb that can be used leaves an item within the rules there,
/// whatever it rolls, if the pool is at the item's level, neither the item
/// nor the pool holds a corrupted tier, and no family sits at one affix on
/// the item and at another in the pool.
pub proof fn lemma_orb_keeps_valid(
    currency: &CurrencyType,
    cat: &Catalog,
    before: &ItemState,
    pool: Seq<OpaqueIndex<Tier>>,
    omens: OmenSet,
    after: &ItemState,
    done: bool,
)
    requires
        is_orb(currency),
        before.valid(cat),
        within_level(cat, pool, before.item_level),
        currency.usable(cat, before, pool, omens),
        currency.crafts(cat, before, pool, omens, after, done),
        affixed(cat, before.mods@),
        affixed(cat, pool),
        families_keep_affix(cat, before.mods@, pool),
    ensures
        after.valid(cat),
{
    lemma_orb_sound(currency, cat, before, pool, omens);
    currency.lemma_keeps_valid(cat, before, pool, omens, after, done);
}

/// `states` are the states of an item through the uses `uses` of orbs:
/// each use is of an orb that could be used, on a pool at the item's
/// level, and neither the item nor the pool then held a corrupted tier,
/// nor a family at one affix on the item and at another in the pool.
pub open spec fn crafted_with_orbs(cat: &Catalog, states: Seq<ItemState>, uses: Seq<Use>) -> bool {
    &&& states.len() == uses.len() + 1
    &&& forall|k: int|
        0 <= k < uses.len() ==> {
            let used = #[trigger] uses[k];
            &&& is_orb(&used.currency)
            &&& within_level(cat, used.pool, states[k].item_level)
            &&& used.currency.usable(cat, &states[k], used.pool, used.omens)
            &&& used.currency.crafts(cat, &states[k], used.pool, used.omens, &states[k + 1], used.done)
            &&& affixed(cat, states[k].mods@)
            &&& affixed(cat, used.pool)
            &&& families_keep_affix(cat, states[k].mods@, used.pool)
        }
}

/// An orb holds nothing that is of a catalog.
pub proof fn lemma_orb_wf(currency: &CurrencyType, cat: &Catalog)
    requires
        is_orb(currency),
    ensures
        currency.wf(cat),
{
}

/// The first `count` uses of orbs on an item without modifiers are uses
/// on which the orbs are sound.
proof fn lemma_orbs_through(cat: &Catalog, states: Seq<ItemState>, uses: Seq<Use>, count: int)
    requires
        crafted_with_orbs(cat, states, uses),
        states[0].mods@.len() == 0,
        0 <= count <= uses.len(),
    ensures
        crafted_through(cat, states.take(count + 1), uses.take(count)),
    decreases count,
{
    let first = states.take(count + 1);
    let used = uses.take(count);
    if count > 0 {
        lemma_orbs_through(cat, states, uses, count - 1);
        let earlier = states.take(count);
        lemma_reachable(cat, earlier, uses.take(count - 1));
        assert(earlier[count - 1].valid(cat));
    }
    assert forall|k: int| 0 <= k < used.len() implies {
        let one = #[trigger] used[k];
        &&& one.currency.wf(cat)
        &&& within_level(cat, one.pool, first[k].item_level)
        &&& one.currency.usable(cat, &first[k], one.pool, one.omens)
        &&& one.currency.sound_on(cat, &first[k], one.pool, one.omens)
        &&& one.currency.crafts(cat, &first[k], one.pool, one.omens, &first[k + 1], one.done)
    } by {
        let one = uses[k];
        assert(used[k] == one);
        lemma_orb_wf(&one.currency, cat);
        if k < count - 1 {
            let before = uses.take(count - 1)[k];
            assert(before == one);
            assert(states.take(count)[k] == states[k]);
        } else {
            assert(states.take(count)[count - 1] == states[k]);
            lemma_orb_sound(&one.currency, cat, &states[k], one.pool, one.omens);
        }
    }
}

/// Whatever orbs are used on an item without modifiers, one after the
/// other, it stays in a state that the rules allow, and no family is on
/// it twice: if no item or pool on the way holds a corrupted tier, and no
/// family sits at one affix on the item and at another in the pool.
pub proof fn lemma_orbs_reachable(cat: &Catalog, states: Seq<ItemState>, uses: Seq<Use>)
    requires
        crafted_with_orbs(cat, states, uses),
        states[0].mods@.len() == 0,
    ensures
        forall|k: int| 0 <= k < states.len() ==> (#[trigger] states[k]).valid(cat),
        forall|k: int|
            0 <= k < states.len() ==> distinct_families(cat, (#[trigger] states[k]).mods@),
{
    lemma_orbs_through(cat, states, uses, uses.len() as int);
    assert(states.take(uses.len() as int + 1) =~= states);
    assert(uses.take(uses.len() as int) =~= uses);
    lemma_reachable(cat, states, uses);
}

} // verus!
