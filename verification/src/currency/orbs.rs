//! The orbs: currencies that roll modifiers onto an item or take them off.

use crate::catalog::Catalog;
use crate::crafting::filter_affix;
use crate::currency::steps::{
    annul, annuls, copy_pool, filter_by_omens, filter_slammable, lemma_affix_count_push,
    lemma_annuls_keep, lemma_filter_all, lemma_filter_keeps_pool, lemma_filter_shorter,
    lemma_may_roll, lemma_omen_pool, lemma_slams_keep, may_roll, none_of, omen_pool, removable,
    removal_candidates, roll, slam, slammable, slams,
};
use crate::currency::{CraftError, Currency};
use crate::hashvec::OpaqueIndex;
use crate::item_state::{
    affix_count, distinct_families, has_affix, has_family, within_level, ItemState, Rarity,
};
use crate::types::{Affix, OmenSet, Tier};
use crate::util::seqs::{lemma_filter_member, lemma_filter_same};
use vstd::prelude::*;

verus! {

/// The pool that is left for a magic item with the modifiers `mods`: not
/// the affix of which it has one.
pub open spec fn augment_pool(
    cat: &Catalog,
    mods: Seq<OpaqueIndex<Tier>>,
    pool: Seq<OpaqueIndex<Tier>>,
) -> Seq<OpaqueIndex<Tier>> {
    let by_prefixes = if affix_count(cat, mods, Affix::Prefix) == 1 {
        pool.filter(has_affix(cat, Affix::Suffix))
    } else {
        pool
    };
    if affix_count(cat, mods, Affix::Suffix) == 1 {
        by_prefixes.filter(has_affix(cat, Affix::Prefix))
    } else {
        by_prefixes
    }
}

/// `after` is `before` with one tier more at its end that a roll on
/// `candidates` may give, or, with `done` false, `before` itself, there
/// being no candidate.
pub open spec fn rolls_one(
    cat: &Catalog,
    before: Seq<OpaqueIndex<Tier>>,
    candidates: Seq<OpaqueIndex<Tier>>,
    after: Seq<OpaqueIndex<Tier>>,
    done: bool,
) -> bool {
    if candidates.len() == 0 {
        !done && after == before
    } else {
        &&& done
        &&& after.len() == before.len() + 1
        &&& after.drop_last() == before
        &&& may_roll(cat, candidates, after.last())
    }
}

/// No tier that a roll on `candidates` may give is of a family that is on
/// an item with the modifiers `mods`.
pub open spec fn rolls_fresh(
    cat: &Catalog,
    mods: Seq<OpaqueIndex<Tier>>,
    candidates: Seq<OpaqueIndex<Tier>>,
) -> bool {
    forall|t: OpaqueIndex<Tier>| #[trigger]
        may_roll(cat, candidates, t) ==> !has_family(cat, mods, cat.family_of(t))
}

/// Rolls one tier of what the pool holds for the item and adds it.
pub fn augment(cat: &Catalog, item: &mut ItemState, pool: &[OpaqueIndex<Tier>]) -> (done: bool)
    requires
        cat.wf(),
        old(item).wf(cat),
        cat.has_tiers(pool@),
    ensures
        final(item).wf(cat),
        final(item).same_frame(old(item)),
        rolls_one(
            cat,
            old(item).mods@,
            augment_pool(cat, old(item).mods@, pool@),
            final(item).mods@,
            done,
        ),
{
    let mut candidates = copy_pool(pool);
    proof {
        lemma_filter_keeps_pool(cat, pool@, has_affix(cat, Affix::Suffix), 0);
    }
    if item.num_prefixes(cat) == 1 {
        candidates = filter_affix(cat, candidates.as_slice(), Affix::Suffix);
    }
    proof {
        lemma_filter_keeps_pool(cat, candidates@, has_affix(cat, Affix::Prefix), 0);
    }
    if item.num_suffixes(cat) == 1 {
        candidates = filter_affix(cat, candidates.as_slice(), Affix::Prefix);
    }
    match roll(cat, candidates.as_slice()) {
        None => false,
        Some(t) => {
            proof {
                lemma_may_roll(cat, candidates@, t);
            }
            let ghost before = item.mods@;
            item.mods.push(t);
            assert(item.mods@.drop_last() =~= before);
            true
        },
    }
}

/// One more modifier on a magic item that the rules allow, at an affix at
/// which it had none and of a new family, leaves it as the rules allow.
pub proof fn lemma_augment_valid(
    cat: &Catalog,
    before: &ItemState,
    pool: Seq<OpaqueIndex<Tier>>,
    after: &ItemState,
    done: bool,
)
    requires
        before.valid(cat),
        before.mods@.len() < 2,
        after.rarity == Rarity::Magic,
        after.item_level == before.item_level,
        within_level(cat, pool, before.item_level),
        rolls_one(cat, before.mods@, augment_pool(cat, before.mods@, pool), after.mods@, done),
        rolls_fresh(cat, before.mods@, augment_pool(cat, before.mods@, pool)),
    ensures
        after.valid(cat),
{
    let mods = before.mods@;
    let candidates = augment_pool(cat, mods, pool);
    if candidates.len() > 0 {
        let t = after.mods@.last();
        assert(mods.push(t) =~= after.mods@);
        lemma_may_roll(cat, candidates, t);
        let by_prefixes = if affix_count(cat, mods, Affix::Prefix) == 1 {
            pool.filter(has_affix(cat, Affix::Suffix))
        } else {
            pool
        };
        lemma_filter_keeps_pool(cat, pool, has_affix(cat, Affix::Suffix), before.item_level);
        lemma_filter_keeps_pool(cat, by_prefixes, has_affix(cat, Affix::Prefix), before.item_level);
        lemma_filter_member(pool, has_affix(cat, Affix::Suffix), t);
        lemma_filter_member(by_prefixes, has_affix(cat, Affix::Prefix), t);
        lemma_affix_count_push(cat, mods, t, Affix::Prefix);
        lemma_affix_count_push(cat, mods, t, Affix::Suffix);
        let k = choose|k: int| 0 <= k < candidates.len() && candidates[k] == t;
        assert(cat.ilvl_of(candidates[k]) <= before.item_level);
        assert forall|i: int| 0 <= i < after.mods@.len() implies cat.ilvl_of(
            #[trigger] after.mods@[i],
        ) <= after.item_level by {
            if i < mods.len() {
                assert(after.mods@[i] == mods[i]);
            }
        }
        assert forall|i: int, j: int| 0 <= i < j < after.mods@.len() implies cat.family_of(
            #[trigger] after.mods@[i],
        ) != cat.family_of(#[trigger] after.mods@[j]) by {
            assert(after.mods@[i] == mods[i]);
            if j < mods.len() {
                assert(after.mods@[j] == mods[j]);
            }
        }
        if before.rarity == Rarity::Normal {
            assert(mods.len() == 0);
            assert(mods.filter(has_affix(cat, Affix::Prefix)).len() == 0) by {
                reveal(Seq::filter);
            }
            assert(mods.filter(has_affix(cat, Affix::Suffix)).len() == 0) by {
                reveal(Seq::filter);
            }
        }
        mods.lemma_filter_len(has_affix(cat, Affix::Prefix));
        mods.lemma_filter_len(has_affix(cat, Affix::Suffix));
    } else {
        assert(after.mods@ == mods);
    }
}

/// How often a currency adds or removes: twice under Greater, else once.
pub open spec fn omen_count(omens: OmenSet) -> nat {
    if omens.greater {
        2
    } else {
        1
    }
}

/// All of `candidates` sit at `affix`.
pub open spec fn all_at(cat: &Catalog, candidates: Seq<OpaqueIndex<Tier>>, affix: Affix) -> bool {
    forall|i: int| 0 <= i < candidates.len() ==> cat.affix_of(#[trigger] candidates[i]) == affix
}

/// An item with the modifiers `mods` has room for what the omens ask to
/// add: fewer than six modifiers, something to add, and under Greater room
/// for two: where all that can be added sits at one affix, at most one
/// modifier at that affix, else at most four modifiers.
pub open spec fn exalt_ready(
    cat: &Catalog,
    mods: Seq<OpaqueIndex<Tier>>,
    pool: Seq<OpaqueIndex<Tier>>,
    omens: OmenSet,
) -> bool {
    let addable = slammable(cat, mods, omen_pool(cat, mods, pool, omens));
    &&& mods.len() < 6
    &&& addable.len() > 0
    &&& omens.greater ==> if all_at(cat, addable, cat.affix_of(addable[0])) {
        affix_count(cat, mods, cat.affix_of(addable[0])) <= 1
    } else {
        mods.len() <= 4
    }
}

/// An item with the modifiers `mods` has what the omens ask to remove: a
/// modifier at all, and as many that may be taken off as are to be.
pub open spec fn annul_ready(cat: &Catalog, mods: Seq<OpaqueIndex<Tier>>, omens: OmenSet) -> bool {
    mods.len() > 0 && removable(cat, mods, omens).len() >= omen_count(omens)
}

/// The omens that Alchemy heeds: Dextral, or else Sinistral.
pub open spec fn alchemy_omens(omens: OmenSet) -> OmenSet {
    OmenSet {
        sinistral: omens.sinistral && !omens.dextral,
        dextral: omens.dextral,
        homogenous: false,
        greater: false,
        whittling: false,
    }
}

/// No omen.
pub open spec fn no_omens() -> OmenSet {
    OmenSet { sinistral: false, dextral: false, homogenous: false, greater: false, whittling: false }
}

/// Whether [`exalt_ready`] holds of the item.
pub fn exalt_check(
    cat: &Catalog,
    item: &ItemState,
    pool: &[OpaqueIndex<Tier>],
    omens: &OmenSet,
) -> (ready: bool)
    requires
        cat.wf(),
        item.wf(cat),
        cat.has_tiers(pool@),
    ensures
        ready == exalt_ready(cat, item.mods@, pool@, *omens),
{
    if item.mods.len() >= 6 {
        return false;
    }
    let filtered = filter_by_omens(cat, item, pool, omens);
    let addable = filter_slammable(cat, item, filtered.as_slice());
    if addable.len() == 0 {
        return false;
    }
    if !omens.greater {
        return true;
    }
    let first = cat.get_tier(addable[0]).affix;
    let mut same = true;
    let mut i: usize = 1;
    while i < addable.len()
        invariant
            1 <= i <= addable.len(),
            cat.has_tiers(addable@),
            first == cat.affix_of(addable@[0]),
            same == forall|k: int| 0 <= k < i ==> cat.affix_of(#[trigger] addable@[k]) == first,
        decreases addable.len() - i,
    {
        if cat.get_tier(addable[i]).affix != first {
            same = false;
        }
        i += 1;
    }
    if same {
        item.num_affix(cat, first) <= 1
    } else {
        item.mods.len() <= 4
    }
}

/// Adds to the item what the omens ask of the pool: one tier, or two under
/// Greater.
pub fn exalt_rolls(
    cat: &Catalog,
    item: &mut ItemState,
    pool: &[OpaqueIndex<Tier>],
    omens: &OmenSet,
) -> (done: bool)
    requires
        cat.wf(),
        old(item).wf(cat),
        cat.has_tiers(pool@),
    ensures
        final(item).wf(cat),
        final(item).same_frame(old(item)),
        slams(
            cat,
            old(item).mods@,
            omen_pool(cat, old(item).mods@, pool@, *omens),
            omen_count(*omens),
            final(item).mods@,
            done,
        ),
{
    let filtered = filter_by_omens(cat, item, pool, omens);
    let count: usize = if omens.greater {
        2
    } else {
        1
    };
    slam(cat, item, filtered.as_slice(), count)
}

/// Whether [`annul_ready`] holds of the item.
pub fn annul_check(cat: &Catalog, item: &ItemState, omens: &OmenSet) -> (ready: bool)
    requires
        item.wf(cat),
    ensures
        ready == annul_ready(cat, item.mods@, *omens),
{
    if item.mods.len() == 0 {
        return false;
    }
    let candidates = removal_candidates(cat, item, omens);
    let count: usize = if omens.greater {
        2
    } else {
        1
    };
    candidates.len() >= count
}

/// Takes off the item what the omens ask: one modifier, or two under
/// Greater.
pub fn annul_rolls(cat: &Catalog, item: &mut ItemState, omens: &OmenSet) -> (done: bool)
    requires
        old(item).wf(cat),
    ensures
        final(item).wf(cat),
        final(item).same_frame(old(item)),
        annuls(
            old(item).mods@,
            removable(cat, old(item).mods@, *omens),
            omen_count(*omens),
            final(item).mods@,
            done,
        ),
{
    let candidates = removal_candidates(cat, item, omens);
    let count: usize = if omens.greater {
        2
    } else {
        1
    };
    let ghost before = item.mods@;
    let done = annul(item, candidates, count);
    proof {
        lemma_annuls_keep(cat, before, candidates@, count as nat, item.mods@, done, 0);
    }
    done
}

/// Additions to an item that the rules allow leave it so, if it has room
/// for as many as are asked and the pool is at its level.
pub proof fn lemma_slams_valid(
    cat: &Catalog,
    before: &ItemState,
    pool: Seq<OpaqueIndex<Tier>>,
    count: nat,
    after: &ItemState,
    done: bool,
)
    requires
        slams(cat, before.mods@, pool, count, after.mods@, done),
        within_level(cat, before.mods@, before.item_level),
        distinct_families(cat, before.mods@),
        affix_count(cat, before.mods@, Affix::Prefix) <= 3,
        affix_count(cat, before.mods@, Affix::Suffix) <= 3,
        within_level(cat, pool, before.item_level),
        before.mods@.len() + count <= 6,
        after.rarity == Rarity::Rare,
        after.item_level == before.item_level,
    ensures
        after.valid(cat),
{
    lemma_slams_keep(cat, before.mods@, pool, count, after.mods@, done, before.item_level);
}

/// An item that the rules allow has at each affix no more than three.
pub proof fn lemma_valid_counts(cat: &Catalog, item: &ItemState)
    requires
        item.valid(cat),
    ensures
        affix_count(cat, item.mods@, Affix::Prefix) <= 3,
        affix_count(cat, item.mods@, Affix::Suffix) <= 3,
        affix_count(cat, item.mods@, Affix::Prefix) <= item.mods@.len(),
        affix_count(cat, item.mods@, Affix::Suffix) <= item.mods@.len(),
{
    item.mods@.lemma_filter_len(has_affix(cat, Affix::Prefix));
    item.mods@.lemma_filter_len(has_affix(cat, Affix::Suffix));
}

/// What Transmute may make of an item.
pub open spec fn transmutes(
    cat: &Catalog,
    before: &ItemState,
    pool: Seq<OpaqueIndex<Tier>>,
    after: &ItemState,
    done: bool,
) -> bool {
    &&& after.base_type == before.base_type
    &&& after.item_level == before.item_level
    &&& after.rarity == if done {
        Rarity::Magic
    } else {
        before.rarity
    }
    &&& rolls_one(cat, before.mods@, augment_pool(cat, before.mods@, pool), after.mods@, done)
}

/// What Augmentation may make of an item.
pub open spec fn augments(
    cat: &Catalog,
    before: &ItemState,
    pool: Seq<OpaqueIndex<Tier>>,
    after: &ItemState,
    done: bool,
) -> bool {
    &&& after.same_frame(before)
    &&& rolls_one(cat, before.mods@, augment_pool(cat, before.mods@, pool), after.mods@, done)
}

/// What Regal may make of an item.
pub open spec fn regals(
    cat: &Catalog,
    before: &ItemState,
    pool: Seq<OpaqueIndex<Tier>>,
    omens: OmenSet,
    after: &ItemState,
    done: bool,
) -> bool {
    &&& after.base_type == before.base_type
    &&& after.item_level == before.item_level
    &&& after.rarity == Rarity::Rare
    &&& slams(
        cat,
        before.mods@,
        omen_pool(cat, before.mods@, pool, omens),
        omen_count(omens),
        after.mods@,
        done,
    )
}

/// What Exalt may make of an item.
pub open spec fn exalts(
    cat: &Catalog,
    before: &ItemState,
    pool: Seq<OpaqueIndex<Tier>>,
    omens: OmenSet,
    after: &ItemState,
    done: bool,
) -> bool {
    &&& after.same_frame(before)
    &&& slams(
        cat,
        before.mods@,
        omen_pool(cat, before.mods@, pool, omens),
        omen_count(omens),
        after.mods@,
        done,
    )
}

/// What Annulment may make of an item.
pub open spec fn annulments(
    cat: &Catalog,
    before: &ItemState,
    omens: OmenSet,
    after: &ItemState,
    done: bool,
) -> bool {
    &&& after.same_frame(before)
    &&& annuls(
        before.mods@,
        removable(cat, before.mods@, omens),
        omen_count(omens),
        after.mods@,
        done,
    )
}

/// What Alchemy may make of an item: a rare item, with three tiers added
/// under the omens that Alchemy heeds, and then one under none.
pub open spec fn alchemies(
    cat: &Catalog,
    before: &ItemState,
    pool: Seq<OpaqueIndex<Tier>>,
    omens: OmenSet,
    after: &ItemState,
    done: bool,
) -> bool {
    &&& after.base_type == before.base_type
    &&& after.item_level == before.item_level
    &&& after.rarity == Rarity::Rare
    &&& exists|mid: Seq<OpaqueIndex<Tier>>, three: bool|
        {
            &&& #[trigger] slams(
                cat,
                before.mods@,
                omen_pool(cat, before.mods@, pool, alchemy_omens(omens)),
                3,
                mid,
                three,
            )
            &&& if three {
                slams(cat, mid, pool, 1, after.mods@, done)
            } else {
                after.mods@ == mid && !done
            }
        }
}

/// What Chaos may make of an item: what the omens ask is taken off, and
/// then one tier added under no omen.
pub open spec fn chaoses(
    cat: &Catalog,
    before: &ItemState,
    pool: Seq<OpaqueIndex<Tier>>,
    omens: OmenSet,
    after: &ItemState,
    done: bool,
) -> bool {
    &&& after.same_frame(before)
    &&& exists|mid: Seq<OpaqueIndex<Tier>>, removed: bool|
        {
            &&& #[trigger] annuls(
                before.mods@,
                removable(cat, before.mods@, omens),
                omen_count(omens),
                mid,
                removed,
            )
            &&& if removed {
                slams(cat, mid, pool, 1, after.mods@, done)
            } else {
                after.mods@ == mid && !done
            }
        }
}

/// Makes the item magic, with one modifier rolled of the pool.
pub fn transmute_rolls(cat: &Catalog, item: &mut ItemState, pool: &[OpaqueIndex<Tier>]) -> (done:
    bool)
    requires
        cat.wf(),
        old(item).wf(cat),
        cat.has_tiers(pool@),
    ensures
        final(item).wf(cat),
        transmutes(cat, old(item), pool@, final(item), done),
{
    let done = augment(cat, item, pool);
    if done {
        item.rarity = Rarity::Magic;
    }
    done
}

/// Makes the item rare and adds what the omens ask of the pool.
pub fn regal_rolls(
    cat: &Catalog,
    item: &mut ItemState,
    pool: &[OpaqueIndex<Tier>],
    omens: &OmenSet,
) -> (done: bool)
    requires
        cat.wf(),
        old(item).wf(cat),
        cat.has_tiers(pool@),
    ensures
        final(item).wf(cat),
        regals(cat, old(item), pool@, *omens, final(item), done),
{
    item.rarity = Rarity::Rare;
    exalt_rolls(cat, item, pool, omens)
}

/// Makes the item rare and adds four tiers of the pool.
pub fn alchemy_rolls(
    cat: &Catalog,
    item: &mut ItemState,
    pool: &[OpaqueIndex<Tier>],
    omens: &OmenSet,
) -> (done: bool)
    requires
        cat.wf(),
        old(item).wf(cat),
        cat.has_tiers(pool@),
    ensures
        final(item).wf(cat),
        alchemies(cat, old(item), pool@, *omens, final(item), done),
{
    item.rarity = Rarity::Rare;
    let heeded = OmenSet {
        sinistral: omens.sinistral && !omens.dextral,
        dextral: omens.dextral,
        homogenous: false,
        greater: false,
        whittling: false,
    };
    let filtered = filter_by_omens(cat, item, pool, &heeded);
    let three = slam(cat, item, filtered.as_slice(), 3);
    let ghost mid = item.mods@;
    assert(slams(
        cat,
        old(item).mods@,
        omen_pool(cat, old(item).mods@, pool@, alchemy_omens(*omens)),
        3,
        mid,
        three,
    ));
    if !three {
        return false;
    }
    slam(cat, item, pool, 1)
}

/// Takes off the item what the omens ask, and adds one tier of the pool.
pub fn chaos_rolls(
    cat: &Catalog,
    item: &mut ItemState,
    pool: &[OpaqueIndex<Tier>],
    omens: &OmenSet,
) -> (done: bool)
    requires
        cat.wf(),
        old(item).wf(cat),
        cat.has_tiers(pool@),
    ensures
        final(item).wf(cat),
        chaoses(cat, old(item), pool@, *omens, final(item), done),
{
    let removed = annul_rolls(cat, item, omens);
    let ghost mid = item.mods@;
    assert(annuls(
        old(item).mods@,
        removable(cat, old(item).mods@, *omens),
        omen_count(*omens),
        mid,
        removed,
    ));
    if !removed {
        return false;
    }
    slam(cat, item, pool, 1)
}

/// Transmute leaves a normal item that the rules allow in a state that they
/// allow.
pub proof fn lemma_transmute_valid(
    cat: &Catalog,
    before: &ItemState,
    pool: Seq<OpaqueIndex<Tier>>,
    after: &ItemState,
    done: bool,
)
    requires
        before.rarity == Rarity::Normal,
        before.valid(cat),
        within_level(cat, pool, before.item_level),
        transmutes(cat, before, pool, after, done),
    ensures
        after.valid(cat),
{
    if done {
        lemma_augment_valid(cat, before, pool, after, done);
    } else {
        assert(after.mods@ == before.mods@);
    }
}

/// Regal leaves a magic item that the rules allow in a state that they
/// allow.
pub proof fn lemma_regal_valid(
    cat: &Catalog,
    before: &ItemState,
    pool: Seq<OpaqueIndex<Tier>>,
    omens: OmenSet,
    after: &ItemState,
    done: bool,
)
    requires
        before.rarity == Rarity::Magic,
        before.valid(cat),
        within_level(cat, pool, before.item_level),
        regals(cat, before, pool, omens, after, done),
    ensures
        after.valid(cat),
{
    lemma_valid_counts(cat, before);
    lemma_omen_pool(cat, before.mods@, pool, omens, before.item_level);
    lemma_slams_valid(
        cat,
        before,
        omen_pool(cat, before.mods@, pool, omens),
        omen_count(omens),
        after,
        done,
    );
}

/// Exalt leaves a rare item that the rules allow, with fewer than six
/// modifiers, and four at most under Greater, in a state that they allow.
pub proof fn lemma_exalt_valid(
    cat: &Catalog,
    before: &ItemState,
    pool: Seq<OpaqueIndex<Tier>>,
    omens: OmenSet,
    after: &ItemState,
    done: bool,
)
    requires
        before.rarity == Rarity::Rare,
        before.mods@.len() + omen_count(omens) <= 6,
        before.valid(cat),
        within_level(cat, pool, before.item_level),
        exalts(cat, before, pool, omens, after, done),
    ensures
        after.valid(cat),
{
    lemma_valid_counts(cat, before);
    lemma_omen_pool(cat, before.mods@, pool, omens, before.item_level);
    lemma_slams_valid(
        cat,
        before,
        omen_pool(cat, before.mods@, pool, omens),
        omen_count(omens),
        after,
        done,
    );
}

/// Annulment leaves an item that the rules allow in a state that they
/// allow.
pub proof fn lemma_annulment_valid(
    cat: &Catalog,
    before: &ItemState,
    omens: OmenSet,
    after: &ItemState,
    done: bool,
)
    requires
        before.valid(cat),
        annulments(cat, before, omens, after, done),
    ensures
        after.valid(cat),
{
    lemma_annuls_keep(
        cat,
        before.mods@,
        removable(cat, before.mods@, omens),
        omen_count(omens),
        after.mods@,
        done,
        before.item_level,
    );
}

/// Alchemy leaves a normal item that the rules allow in a state that they
/// allow.
pub proof fn lemma_alchemy_valid(
    cat: &Catalog,
    before: &ItemState,
    pool: Seq<OpaqueIndex<Tier>>,
    omens: OmenSet,
    after: &ItemState,
    done: bool,
)
    requires
        before.rarity == Rarity::Normal,
        before.valid(cat),
        within_level(cat, pool, before.item_level),
        alchemies(cat, before, pool, omens, after, done),
    ensures
        after.valid(cat),
{
    let heeded = omen_pool(cat, before.mods@, pool, alchemy_omens(omens));
    let (mid, three) = choose|mid: Seq<OpaqueIndex<Tier>>, three: bool|
        {
            &&& #[trigger] slams(cat, before.mods@, heeded, 3, mid, three)
            &&& if three {
                slams(cat, mid, pool, 1, after.mods@, done)
            } else {
                after.mods@ == mid && !done
            }
        };
    lemma_valid_counts(cat, before);
    lemma_omen_pool(cat, before.mods@, pool, alchemy_omens(omens), before.item_level);
    lemma_slams_keep(cat, before.mods@, heeded, 3, mid, three, before.item_level);
    if three {
        lemma_slams_keep(cat, mid, pool, 1, after.mods@, done, before.item_level);
    }
}

/// Chaos leaves a rare item that the rules allow in a state that they
/// allow.
pub proof fn lemma_chaos_valid(
    cat: &Catalog,
    before: &ItemState,
    pool: Seq<OpaqueIndex<Tier>>,
    omens: OmenSet,
    after: &ItemState,
    done: bool,
)
    requires
        before.rarity == Rarity::Rare,
        before.valid(cat),
        within_level(cat, pool, before.item_level),
        chaoses(cat, before, pool, omens, after, done),
    ensures
        after.valid(cat),
{
    let candidates = removable(cat, before.mods@, omens);
    let (mid, removed) = choose|mid: Seq<OpaqueIndex<Tier>>, removed: bool|
        {
            &&& #[trigger] annuls(before.mods@, candidates, omen_count(omens), mid, removed)
            &&& if removed {
                slams(cat, mid, pool, 1, after.mods@, done)
            } else {
                after.mods@ == mid && !done
            }
        };
    lemma_valid_counts(cat, before);
    lemma_removable(cat, before.mods@, omens);
    lemma_annuls_keep(
        cat,
        before.mods@,
        candidates,
        omen_count(omens),
        mid,
        removed,
        before.item_level,
    );
    if removed {
        lemma_slams_keep(cat, mid, pool, 1, after.mods@, done, before.item_level);
    }
}

/// What may be taken off an item is on it.
pub proof fn lemma_removable(cat: &Catalog, mods: Seq<OpaqueIndex<Tier>>, omens: OmenSet)
    ensures
        forall|t: OpaqueIndex<Tier>| removable(cat, mods, omens).contains(t) ==> mods.contains(t),
{
    let by_dextral = if omens.dextral {
        mods.filter(has_affix(cat, Affix::Suffix))
    } else {
        mods
    };
    let by_sinistral = if omens.sinistral {
        by_dextral.filter(has_affix(cat, Affix::Prefix))
    } else {
        by_dextral
    };
    lemma_filter_keeps_pool(cat, mods, has_affix(cat, Affix::Suffix), 0);
    lemma_filter_keeps_pool(cat, by_dextral, has_affix(cat, Affix::Prefix), 0);
    lemma_filter_keeps_pool(cat, by_sinistral, crate::crafting::lowest_in(cat, by_sinistral), 0);
}

/// An item that has room for what the omens ask to add gets a modifier
/// more, and without Greater that is all that was asked.
pub proof fn lemma_exalt_adds(
    cat: &Catalog,
    before: Seq<OpaqueIndex<Tier>>,
    pool: Seq<OpaqueIndex<Tier>>,
    omens: OmenSet,
    after: Seq<OpaqueIndex<Tier>>,
    done: bool,
)
    requires
        exalt_ready(cat, before, pool, omens),
        slams(cat, before, omen_pool(cat, before, pool, omens), omen_count(omens), after, done),
    ensures
        after.len() > before.len(),
        !omens.greater ==> done,
{
    if after.len() == before.len() {
        assert(after =~= after.take(before.len() as int));
    }
}

/// An item that has what the omens ask to remove loses a modifier, and
/// without Greater that is all that was asked.
pub proof fn lemma_annul_removes(
    cat: &Catalog,
    before: Seq<OpaqueIndex<Tier>>,
    omens: OmenSet,
    after: Seq<OpaqueIndex<Tier>>,
    done: bool,
)
    requires
        annul_ready(cat, before, omens),
        annuls(before, removable(cat, before, omens), omen_count(omens), after, done),
    ensures
        after.len() < before.len(),
        !omens.greater ==> done,
{
    let candidates = removable(cat, before, omens);
    let count = omen_count(omens);
    let gone = choose|gone: Seq<OpaqueIndex<Tier>>|
        {
            &&& gone.len() <= count
            &&& done == (gone.len() == count)
            &&& gone.no_duplicates()
            &&& forall|k: int| 0 <= k < gone.len() ==> candidates.contains(#[trigger] gone[k])
            &&& after == before.filter(none_of(gone))
            &&& !done ==> candidates.filter(none_of(gone)).len() == 0
        };
    if gone.len() == 0 {
        assert forall|i: int| 0 <= i < candidates.len() implies none_of(gone)(
            #[trigger] candidates[i],
        ) == (|x: OpaqueIndex<Tier>| true)(candidates[i]) by {}
        lemma_filter_same(candidates, none_of(gone), |x: OpaqueIndex<Tier>| true);
        lemma_filter_all(candidates);
    } else {
        lemma_removable(cat, before, omens);
        assert(candidates.contains(gone[0]));
        assert(gone.contains(gone[0]));
        lemma_filter_shorter(before, none_of(gone), gone[0]);
    }
}

/// Makes a normal item magic, with one modifier.
pub struct Transmute;

impl Currency for Transmute {
    open spec fn wf(&self, cat: &Catalog) -> bool {
        true
    }

    open spec fn usable(
        &self,
        cat: &Catalog,
        item: &ItemState,
        pool: Seq<OpaqueIndex<Tier>>,
        omens: OmenSet,
    ) -> bool {
        item.rarity == Rarity::Normal
    }

    open spec fn crafts(
        &self,
        cat: &Catalog,
        before: &ItemState,
        pool: Seq<OpaqueIndex<Tier>>,
        omens: OmenSet,
        after: &ItemState,
        done: bool,
    ) -> bool {
        transmutes(cat, before, pool, after, done)
    }

    open spec fn sound_on(
        &self,
        cat: &Catalog,
        item: &ItemState,
        pool: Seq<OpaqueIndex<Tier>>,
        omens: OmenSet,
    ) -> bool {
        true
    }

    proof fn lemma_keeps_valid(
        &self,
        cat: &Catalog,
        before: &ItemState,
        pool: Seq<OpaqueIndex<Tier>>,
        omens: OmenSet,
        after: &ItemState,
        done: bool,
    ) {
        lemma_transmute_valid(cat, before, pool, after, done);
    }

    proof fn lemma_keeps_frame(
        &self,
        cat: &Catalog,
        before: &ItemState,
        pool: Seq<OpaqueIndex<Tier>>,
        omens: OmenSet,
        after: &ItemState,
        done: bool,
    ) {

    }

    fn is_wf(&self, cat: &Catalog) -> (wf: bool) {
        true
    }

    fn name(&self) -> (name: &str)
        ensures
            name@ == "Transmute"@,
    {
        "Transmute"
    }

    fn can_be_used(
        &self,
        cat: &Catalog,
        item: &ItemState,
        candidate_tiers: &[OpaqueIndex<Tier>],
        omens: &OmenSet,
    ) -> (usable: bool) {
        item.rarity == Rarity::Normal
    }

    fn craft(
        &self,
        cat: &Catalog,
        item: &mut ItemState,
        candidate_tiers: &[OpaqueIndex<Tier>],
        omens: &OmenSet,
    ) -> (done: Result<(), CraftError>) {
        let ghost before = *item;
        let done = transmute_rolls(cat, item, candidate_tiers);
        proof {
            self.lemma_keeps_frame(cat, &before, candidate_tiers@, *omens, item, done);
            if before.valid(cat) && within_level(cat, candidate_tiers@, before.item_level)
                && self.sound_on(cat, &before, candidate_tiers@, *omens) {
                self.lemma_keeps_valid(cat, &before, candidate_tiers@, *omens, item, done);
            }
        }
        if done {
            Ok(())
        } else {
            Err(CraftError::NoCandidates)
        }
    }
}

/// Adds one modifier to a magic item that has fewer than two.
pub struct Augmentation;

impl Currency for Augmentation {
    open spec fn wf(&self, cat: &Catalog) -> bool {
        true
    }

    open spec fn usable(
        &self,
        cat: &Catalog,
        item: &ItemState,
        pool: Seq<OpaqueIndex<Tier>>,
        omens: OmenSet,
    ) -> bool {
        item.rarity == Rarity::Magic && item.mods@.len() < 2
    }

    open spec fn crafts(
        &self,
        cat: &Catalog,
        before: &ItemState,
        pool: Seq<OpaqueIndex<Tier>>,
        omens: OmenSet,
        after: &ItemState,
        done: bool,
    ) -> bool {
        augments(cat, before, pool, after, done)
    }

    open spec fn sound_on(
        &self,
        cat: &Catalog,
        item: &ItemState,
        pool: Seq<OpaqueIndex<Tier>>,
        omens: OmenSet,
    ) -> bool {
        rolls_fresh(cat, item.mods@, augment_pool(cat, item.mods@, pool))
    }

    proof fn lemma_keeps_valid(
        &self,
        cat: &Catalog,
        before: &ItemState,
        pool: Seq<OpaqueIndex<Tier>>,
        omens: OmenSet,
        after: &ItemState,
        done: bool,
    ) {
        lemma_augment_valid(cat, before, pool, after, done);
    }

    proof fn lemma_keeps_frame(
        &self,
        cat: &Catalog,
        before: &ItemState,
        pool: Seq<OpaqueIndex<Tier>>,
        omens: OmenSet,
        after: &ItemState,
        done: bool,
    ) {

    }

    fn is_wf(&self, cat: &Catalog) -> (wf: bool) {
        true
    }

    fn name(&self) -> (name: &str)
        ensures
            name@ == "Augmentation"@,
    {
        "Augmentation"
    }

    fn can_be_used(
        &self,
        cat: &Catalog,
        item: &ItemState,
        candidate_tiers: &[OpaqueIndex<Tier>],
        omens: &OmenSet,
    ) -> (usable: bool) {
        item.rarity == Rarity::Magic && item.mods.len() < 2
    }

    fn craft(
        &self,
        cat: &Catalog,
        item: &mut ItemState,
        candidate_tiers: &[OpaqueIndex<Tier>],
        omens: &OmenSet,
    ) -> (done: Result<(), CraftError>) {
        let ghost before = *item;
        let done = augment(cat, item, candidate_tiers);
        proof {
            self.lemma_keeps_frame(cat, &before, candidate_tiers@, *omens, item, done);
            if before.valid(cat) && within_level(cat, candidate_tiers@, before.item_level)
                && self.sound_on(cat, &before, candidate_tiers@, *omens) {
                self.lemma_keeps_valid(cat, &before, candidate_tiers@, *omens, item, done);
            }
        }
        if done {
            Ok(())
        } else {
            Err(CraftError::NoCandidates)
        }
    }
}

/// Makes a magic item rare, with one modifier more, or two under Greater.
pub struct Regal;

impl Currency for Regal {
    open spec fn wf(&self, cat: &Catalog) -> bool {
        true
    }

    open spec fn usable(
        &self,
        cat: &Catalog,
        item: &ItemState,
        pool: Seq<OpaqueIndex<Tier>>,
        omens: OmenSet,
    ) -> bool {
        item.rarity == Rarity::Magic && exalt_ready(cat, item.mods@, pool, omens)
    }

    open spec fn crafts(
        &self,
        cat: &Catalog,
        before: &ItemState,
        pool: Seq<OpaqueIndex<Tier>>,
        omens: OmenSet,
        after: &ItemState,
        done: bool,
    ) -> bool {
        regals(cat, before, pool, omens, after, done)
    }

    open spec fn sound_on(
        &self,
        cat: &Catalog,
        item: &ItemState,
        pool: Seq<OpaqueIndex<Tier>>,
        omens: OmenSet,
    ) -> bool {
        true
    }

    proof fn lemma_keeps_valid(
        &self,
        cat: &Catalog,
        before: &ItemState,
        pool: Seq<OpaqueIndex<Tier>>,
        omens: OmenSet,
        after: &ItemState,
        done: bool,
    ) {
        lemma_regal_valid(cat, before, pool, omens, after, done);
    }

    proof fn lemma_keeps_frame(
        &self,
        cat: &Catalog,
        before: &ItemState,
        pool: Seq<OpaqueIndex<Tier>>,
        omens: OmenSet,
        after: &ItemState,
        done: bool,
    ) {

    }

    fn is_wf(&self, cat: &Catalog) -> (wf: bool) {
        true
    }

    fn name(&self) -> (name: &str)
        ensures
            name@ == "Regal"@,
    {
        "Regal"
    }

    fn can_be_used(
        &self,
        cat: &Catalog,
        item: &ItemState,
        candidate_tiers: &[OpaqueIndex<Tier>],
        omens: &OmenSet,
    ) -> (usable: bool) {
        item.rarity == Rarity::Magic && exalt_check(cat, item, candidate_tiers, omens)
    }

    fn craft(
        &self,
        cat: &Catalog,
        item: &mut ItemState,
        candidate_tiers: &[OpaqueIndex<Tier>],
        omens: &OmenSet,
    ) -> (done: Result<(), CraftError>) {
        let ghost before = *item;
        let done = regal_rolls(cat, item, candidate_tiers, omens);
        proof {
            self.lemma_keeps_frame(cat, &before, candidate_tiers@, *omens, item, done);
            if before.valid(cat) && within_level(cat, candidate_tiers@, before.item_level)
                && self.sound_on(cat, &before, candidate_tiers@, *omens) {
                self.lemma_keeps_valid(cat, &before, candidate_tiers@, *omens, item, done);
            }
        }
        if done {
            Ok(())
        } else {
            Err(CraftError::NoCandidates)
        }
    }
}

/// Adds one modifier to a rare item, or two under Greater.
pub struct Exalt;

impl Currency for Exalt {
    open spec fn wf(&self, cat: &Catalog) -> bool {
        true
    }

    open spec fn usable(
        &self,
        cat: &Catalog,
        item: &ItemState,
        pool: Seq<OpaqueIndex<Tier>>,
        omens: OmenSet,
    ) -> bool {
        item.rarity == Rarity::Rare && exalt_ready(cat, item.mods@, pool, omens)
    }

    open spec fn crafts(
        &self,
        cat: &Catalog,
        before: &ItemState,
        pool: Seq<OpaqueIndex<Tier>>,
        omens: OmenSet,
        after: &ItemState,
        done: bool,
    ) -> bool {
        exalts(cat, before, pool, omens, after, done)
    }

    open spec fn sound_on(
        &self,
        cat: &Catalog,
        item: &ItemState,
        pool: Seq<OpaqueIndex<Tier>>,
        omens: OmenSet,
    ) -> bool {
        omens.greater ==> item.mods@.len() <= 4
    }

    proof fn lemma_keeps_valid(
        &self,
        cat: &Catalog,
        before: &ItemState,
        pool: Seq<OpaqueIndex<Tier>>,
        omens: OmenSet,
        after: &ItemState,
        done: bool,
    ) {
        lemma_exalt_valid(cat, before, pool, omens, after, done);
    }

    proof fn lemma_keeps_frame(
        &self,
        cat: &Catalog,
        before: &ItemState,
        pool: Seq<OpaqueIndex<Tier>>,
        omens: OmenSet,
        after: &ItemState,
        done: bool,
    ) {

    }

    fn is_wf(&self, cat: &Catalog) -> (wf: bool) {
        true
    }

    fn name(&self) -> (name: &str)
        ensures
            name@ == "Exalt"@,
    {
        "Exalt"
    }

    fn can_be_used(
        &self,
        cat: &Catalog,
        item: &ItemState,
        candidate_tiers: &[OpaqueIndex<Tier>],
        omens: &OmenSet,
    ) -> (usable: bool) {
        item.rarity == Rarity::Rare && exalt_check(cat, item, candidate_tiers, omens)
    }

    fn craft(
        &self,
        cat: &Catalog,
        item: &mut ItemState,
        candidate_tiers: &[OpaqueIndex<Tier>],
        omens: &OmenSet,
    ) -> (done: Result<(), CraftError>) {
        let ghost before = *item;
        let done = exalt_rolls(cat, item, candidate_tiers, omens);
        proof {
            self.lemma_keeps_frame(cat, &before, candidate_tiers@, *omens, item, done);
            if before.valid(cat) && within_level(cat, candidate_tiers@, before.item_level)
                && self.sound_on(cat, &before, candidate_tiers@, *omens) {
                self.lemma_keeps_valid(cat, &before, candidate_tiers@, *omens, item, done);
            }
        }
        if done {
            Ok(())
        } else {
            Err(CraftError::NoCandidates)
        }
    }
}

/// Takes one modifier off an item, or two under Greater.
pub struct Annulment;

impl Currency for Annulment {
    open spec fn wf(&self, cat: &Catalog) -> bool {
        true
    }

    open spec fn usable(
        &self,
        cat: &Catalog,
        item: &ItemState,
        pool: Seq<OpaqueIndex<Tier>>,
        omens: OmenSet,
    ) -> bool {
        annul_ready(cat, item.mods@, omens)
    }

    open spec fn crafts(
        &self,
        cat: &Catalog,
        before: &ItemState,
        pool: Seq<OpaqueIndex<Tier>>,
        omens: OmenSet,
        after: &ItemState,
        done: bool,
    ) -> bool {
        annulments(cat, before, omens, after, done)
    }

    open spec fn sound_on(
        &self,
        cat: &Catalog,
        item: &ItemState,
        pool: Seq<OpaqueIndex<Tier>>,
        omens: OmenSet,
    ) -> bool {
        true
    }

    proof fn lemma_keeps_valid(
        &self,
        cat: &Catalog,
        before: &ItemState,
        pool: Seq<OpaqueIndex<Tier>>,
        omens: OmenSet,
        after: &ItemState,
        done: bool,
    ) {
        lemma_annulment_valid(cat, before, omens, after, done);
    }

    proof fn lemma_keeps_frame(
        &self,
        cat: &Catalog,
        before: &ItemState,
        pool: Seq<OpaqueIndex<Tier>>,
        omens: OmenSet,
        after: &ItemState,
        done: bool,
    ) {

    }

    fn is_wf(&self, cat: &Catalog) -> (wf: bool) {
        true
    }

    fn name(&self) -> (name: &str)
        ensures
            name@ == "Annulment"@,
    {
        "Annulment"
    }

    fn can_be_used(
        &self,
        cat: &Catalog,
        item: &ItemState,
        candidate_tiers: &[OpaqueIndex<Tier>],
        omens: &OmenSet,
    ) -> (usable: bool) {
        annul_check(cat, item, omens)
    }

    fn craft(
        &self,
        cat: &Catalog,
        item: &mut ItemState,
        candidate_tiers: &[OpaqueIndex<Tier>],
        omens: &OmenSet,
    ) -> (done: Result<(), CraftError>) {
        let ghost before = *item;
        let done = annul_rolls(cat, item, omens);
        proof {
            self.lemma_keeps_frame(cat, &before, candidate_tiers@, *omens, item, done);
            if before.valid(cat) && within_level(cat, candidate_tiers@, before.item_level)
                && self.sound_on(cat, &before, candidate_tiers@, *omens) {
                self.lemma_keeps_valid(cat, &before, candidate_tiers@, *omens, item, done);
            }
        }
        if done {
            Ok(())
        } else {
            Err(CraftError::NoCandidates)
        }
    }
}

/// Makes a normal item rare, with four modifiers.
pub struct Alchemy;

impl Currency for Alchemy {
    open spec fn wf(&self, cat: &Catalog) -> bool {
        true
    }

    open spec fn usable(
        &self,
        cat: &Catalog,
        item: &ItemState,
        pool: Seq<OpaqueIndex<Tier>>,
        omens: OmenSet,
    ) -> bool {
        item.rarity == Rarity::Normal
    }

    open spec fn crafts(
        &self,
        cat: &Catalog,
        before: &ItemState,
        pool: Seq<OpaqueIndex<Tier>>,
        omens: OmenSet,
        after: &ItemState,
        done: bool,
    ) -> bool {
        alchemies(cat, before, pool, omens, after, done)
    }

    open spec fn sound_on(
        &self,
        cat: &Catalog,
        item: &ItemState,
        pool: Seq<OpaqueIndex<Tier>>,
        omens: OmenSet,
    ) -> bool {
        true
    }

    proof fn lemma_keeps_valid(
        &self,
        cat: &Catalog,
        before: &ItemState,
        pool: Seq<OpaqueIndex<Tier>>,
        omens: OmenSet,
        after: &ItemState,
        done: bool,
    ) {
        lemma_alchemy_valid(cat, before, pool, omens, after, done);
    }

    proof fn lemma_keeps_frame(
        &self,
        cat: &Catalog,
        before: &ItemState,
        pool: Seq<OpaqueIndex<Tier>>,
        omens: OmenSet,
        after: &ItemState,
        done: bool,
    ) {

    }

    fn is_wf(&self, cat: &Catalog) -> (wf: bool) {
        true
    }

    fn name(&self) -> (name: &str)
        ensures
            name@ == "Alchemy"@,
    {
        "Alchemy"
    }

    fn can_be_used(
        &self,
        cat: &Catalog,
        item: &ItemState,
        candidate_tiers: &[OpaqueIndex<Tier>],
        omens: &OmenSet,
    ) -> (usable: bool) {
        item.rarity == Rarity::Normal
    }

    fn craft(
        &self,
        cat: &Catalog,
        item: &mut ItemState,
        candidate_tiers: &[OpaqueIndex<Tier>],
        omens: &OmenSet,
    ) -> (done: Result<(), CraftError>) {
        let ghost before = *item;
        let done = alchemy_rolls(cat, item, candidate_tiers, omens);
        proof {
            self.lemma_keeps_frame(cat, &before, candidate_tiers@, *omens, item, done);
            if before.valid(cat) && within_level(cat, candidate_tiers@, before.item_level)
                && self.sound_on(cat, &before, candidate_tiers@, *omens) {
                self.lemma_keeps_valid(cat, &before, candidate_tiers@, *omens, item, done);
            }
        }
        if done {
            Ok(())
        } else {
            Err(CraftError::NoCandidates)
        }
    }
}

/// Takes one modifier off a rare item, or two under Greater, and adds one.
pub struct Chaos;

impl Currency for Chaos {
    open spec fn wf(&self, cat: &Catalog) -> bool {
        true
    }

    open spec fn usable(
        &self,
        cat: &Catalog,
        item: &ItemState,
        pool: Seq<OpaqueIndex<Tier>>,
        omens: OmenSet,
    ) -> bool {
        item.rarity == Rarity::Rare && annul_ready(cat, item.mods@, omens)
    }

    open spec fn crafts(
        &self,
        cat: &Catalog,
        before: &ItemState,
        pool: Seq<OpaqueIndex<Tier>>,
        omens: OmenSet,
        after: &ItemState,
        done: bool,
    ) -> bool {
        chaoses(cat, before, pool, omens, after, done)
    }

    open spec fn sound_on(
        &self,
        cat: &Catalog,
        item: &ItemState,
        pool: Seq<OpaqueIndex<Tier>>,
        omens: OmenSet,
    ) -> bool {
        true
    }

    proof fn lemma_keeps_valid(
        &self,
        cat: &Catalog,
        before: &ItemState,
        pool: Seq<OpaqueIndex<Tier>>,
        omens: OmenSet,
        after: &ItemState,
        done: bool,
    ) {
        lemma_chaos_valid(cat, before, pool, omens, after, done);
    }

    proof fn lemma_keeps_frame(
        &self,
        cat: &Catalog,
        before: &ItemState,
        pool: Seq<OpaqueIndex<Tier>>,
        omens: OmenSet,
        after: &ItemState,
        done: bool,
    ) {

    }

    fn is_wf(&self, cat: &Catalog) -> (wf: bool) {
        true
    }

    fn name(&self) -> (name: &str)
        ensures
            name@ == "Chaos"@,
    {
        "Chaos"
    }

    fn can_be_used(
        &self,
        cat: &Catalog,
        item: &ItemState,
        candidate_tiers: &[OpaqueIndex<Tier>],
        omens: &OmenSet,
    ) -> (usable: bool) {
        item.rarity == Rarity::Rare && annul_check(cat, item, omens)
    }

    fn craft(
        &self,
        cat: &Catalog,
        item: &mut ItemState,
        candidate_tiers: &[OpaqueIndex<Tier>],
        omens: &OmenSet,
    ) -> (done: Result<(), CraftError>) {
        let ghost before = *item;
        let done = chaos_rolls(cat, item, candidate_tiers, omens);
        proof {
            self.lemma_keeps_frame(cat, &before, candidate_tiers@, *omens, item, done);
            if before.valid(cat) && within_level(cat, candidate_tiers@, before.item_level)
                && self.sound_on(cat, &before, candidate_tiers@, *omens) {
                self.lemma_keeps_valid(cat, &before, candidate_tiers@, *omens, item, done);
            }
        }
        if done {
            Ok(())
        } else {
            Err(CraftError::NoCandidates)
        }
    }
}

} // verus!
