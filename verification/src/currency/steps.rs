//! The steps that currencies are made of: rolling a tier from a pool, adding
//! modifiers to an item, and taking modifiers off it.

use crate::catalog::Catalog;
use crate::crafting::{
    filter_affix, filter_lowest_tier, filter_out_families, filter_tags, lowest_in,
    outside_families, shares_tag,
};
use crate::hashvec::OpaqueIndex;
use crate::item_state::{
    affix_count, distinct_families, has_affix, has_family, has_tag, lists, within_level, ItemState,
};
use crate::types::{Affix, OmenSet, Tier};
use crate::util::rand::{choice, choice_at, falls_on, total_weight, weight_sum};
use crate::util::seqs::{lemma_filter_member, lemma_filter_push, lemma_filter_same, lemma_take_step};
use vstd::prelude::*;

verus! {

/// The test "its family is not on an item with the modifiers `mods`".
pub open spec fn fresh_family(cat: &Catalog, mods: Seq<OpaqueIndex<Tier>>) -> spec_fn(
    OpaqueIndex<Tier>,
) -> bool {
    |t: OpaqueIndex<Tier>| !has_family(cat, mods, cat.family_of(t))
}

/// The test "its modifier shares a tag with an item with the modifiers
/// `mods`".
pub open spec fn shares_item_tag(cat: &Catalog, mods: Seq<OpaqueIndex<Tier>>) -> spec_fn(
    OpaqueIndex<Tier>,
) -> bool {
    |t: OpaqueIndex<Tier>|
        exists|j: int|
            0 <= j < cat.tags_of(t).len() && has_tag(cat, mods, (#[trigger] cat.tags_of(t)[j])@)
}

/// An item with the modifiers `mods` has a tag at all.
pub open spec fn tagged(cat: &Catalog, mods: Seq<OpaqueIndex<Tier>>) -> bool {
    exists|tag: Seq<char>| has_tag(cat, mods, tag)
}

/// The pool that is left for adding under the omens: suffixes only under
/// Dextral, prefixes only under Sinistral, and under Homogenous only what
/// shares a tag with the item, if the item has a tag.
pub open spec fn omen_pool(
    cat: &Catalog,
    mods: Seq<OpaqueIndex<Tier>>,
    pool: Seq<OpaqueIndex<Tier>>,
    omens: OmenSet,
) -> Seq<OpaqueIndex<Tier>> {
    let by_dextral = if omens.dextral {
        pool.filter(has_affix(cat, Affix::Suffix))
    } else {
        pool
    };
    let by_sinistral = if omens.sinistral {
        by_dextral.filter(has_affix(cat, Affix::Prefix))
    } else {
        by_dextral
    };
    if omens.homogenous && tagged(cat, mods) {
        by_sinistral.filter(shares_item_tag(cat, mods))
    } else {
        by_sinistral
    }
}

/// What of `pool` can be added to an item with the modifiers `mods`: tiers
/// of a family that the item has not, and not at an affix of which the item
/// has three.
pub open spec fn slammable(
    cat: &Catalog,
    mods: Seq<OpaqueIndex<Tier>>,
    pool: Seq<OpaqueIndex<Tier>>,
) -> Seq<OpaqueIndex<Tier>> {
    let fresh = pool.filter(fresh_family(cat, mods));
    let by_prefixes = if affix_count(cat, mods, Affix::Prefix) == 3 {
        fresh.filter(has_affix(cat, Affix::Suffix))
    } else {
        fresh
    };
    if affix_count(cat, mods, Affix::Suffix) == 3 {
        by_prefixes.filter(has_affix(cat, Affix::Prefix))
    } else {
        by_prefixes
    }
}

/// The modifiers that may be taken off under the omens: suffixes only under
/// Dextral, prefixes only under Sinistral, and of these under Whittling only
/// the lowest.
pub open spec fn removable(cat: &Catalog, mods: Seq<OpaqueIndex<Tier>>, omens: OmenSet) -> Seq<
    OpaqueIndex<Tier>,
> {
    let by_dextral = if omens.dextral {
        mods.filter(has_affix(cat, Affix::Suffix))
    } else {
        mods
    };
    let by_sinistral = if omens.sinistral {
        by_dextral.filter(has_affix(cat, Affix::Prefix))
    } else {
        by_dextral
    };
    if omens.whittling {
        by_sinistral.filter(lowest_in(cat, by_sinistral))
    } else {
        by_sinistral
    }
}

/// The weight of each tier of `pool`, in the pool's order.
pub open spec fn pool_weights(cat: &Catalog, pool: Seq<OpaqueIndex<Tier>>) -> Seq<u32> {
    Seq::new(pool.len(), |i: int| cat.weight_of(pool[i]))
}

/// A roll on `pool` may give `t`: a tier of the pool that has weight, or,
/// where no tier of the pool has weight, the first.
pub open spec fn may_roll(cat: &Catalog, pool: Seq<OpaqueIndex<Tier>>, t: OpaqueIndex<Tier>) -> bool {
    if weight_sum(pool_weights(cat, pool)) == 0 {
        pool.len() > 0 && t == pool[0]
    } else {
        exists|i: int| 0 <= i < pool.len() && #[trigger] pool[i] == t && cat.weight_of(t) > 0
    }
}

/// `after` is what `count` additions from `pool` make of `before`, or, with
/// `done` false, as many of them as found a tier to add: each adds at the
/// end a tier that a roll on what was then addable may give.
pub open spec fn slams(
    cat: &Catalog,
    before: Seq<OpaqueIndex<Tier>>,
    pool: Seq<OpaqueIndex<Tier>>,
    count: nat,
    after: Seq<OpaqueIndex<Tier>>,
    done: bool,
) -> bool {
    &&& before.len() <= after.len() <= before.len() + count
    &&& after.take(before.len() as int) == before
    &&& done == (after.len() == before.len() + count)
    &&& forall|k: int|
        before.len() <= k < after.len() ==> may_roll(
            cat,
            slammable(cat, after.take(k), pool),
            #[trigger] after[k],
        )
    &&& !done ==> slammable(cat, after, pool).len() == 0
}

/// The test "is not `t`".
pub open spec fn other_than(t: OpaqueIndex<Tier>) -> spec_fn(OpaqueIndex<Tier>) -> bool {
    |x: OpaqueIndex<Tier>| x != t
}

/// The test "is none of `gone`".
pub open spec fn none_of(gone: Seq<OpaqueIndex<Tier>>) -> spec_fn(OpaqueIndex<Tier>) -> bool {
    |x: OpaqueIndex<Tier>| !gone.contains(x)
}

/// `after` is what `count` removals among `candidates` make of `before`,
/// or, with `done` false, as many of them as found a candidate: each takes
/// one candidate that is still there off the item, wherever it stands.
pub open spec fn annuls(
    before: Seq<OpaqueIndex<Tier>>,
    candidates: Seq<OpaqueIndex<Tier>>,
    count: nat,
    after: Seq<OpaqueIndex<Tier>>,
    done: bool,
) -> bool {
    exists|gone: Seq<OpaqueIndex<Tier>>|
        {
            &&& gone.len() <= count
            &&& done == (gone.len() == count)
            &&& gone.no_duplicates()
            &&& forall|k: int| 0 <= k < gone.len() ==> candidates.contains(#[trigger] gone[k])
            &&& after == before.filter(none_of(gone))
            &&& !done ==> candidates.filter(none_of(gone)).len() == 0
        }
}

/// What a filter of the pool by affix, family or tag keeps is of the
/// catalog, and at the item's level, if the pool is.
pub proof fn lemma_filter_keeps_pool(
    cat: &Catalog,
    pool: Seq<OpaqueIndex<Tier>>,
    pred: spec_fn(OpaqueIndex<Tier>) -> bool,
    item_level: u32,
)
    ensures
        cat.has_tiers(pool) ==> cat.has_tiers(pool.filter(pred)),
        within_level(cat, pool, item_level) ==> within_level(cat, pool.filter(pred), item_level),
        forall|t: OpaqueIndex<Tier>| pool.filter(pred).contains(t) ==> pool.contains(t),
{
    let kept = pool.filter(pred);
    assert forall|t: OpaqueIndex<Tier>| kept.contains(t) implies pool.contains(t) by {
        lemma_filter_member(pool, pred, t);
    }
    assert forall|i: int| 0 <= i < kept.len() implies pool.contains(#[trigger] kept[i]) by {
        assert(kept.contains(kept[i]));
    }
    if cat.has_tiers(pool) {
        assert forall|i: int| 0 <= i < kept.len() implies cat.has_tier(#[trigger] kept[i]) by {
            assert(pool.contains(kept[i]));
        }
    }
    if within_level(cat, pool, item_level) {
        assert forall|i: int| 0 <= i < kept.len() implies cat.ilvl_of(#[trigger] kept[i])
            <= item_level by {
            assert(pool.contains(kept[i]));
        }
    }
}

/// What the omens leave of the pool is of the pool.
pub proof fn lemma_omen_pool(
    cat: &Catalog,
    mods: Seq<OpaqueIndex<Tier>>,
    pool: Seq<OpaqueIndex<Tier>>,
    omens: OmenSet,
    item_level: u32,
)
    ensures
        cat.has_tiers(pool) ==> cat.has_tiers(omen_pool(cat, mods, pool, omens)),
        within_level(cat, pool, item_level) ==> within_level(
            cat,
            omen_pool(cat, mods, pool, omens),
            item_level,
        ),
        forall|t: OpaqueIndex<Tier>|
            omen_pool(cat, mods, pool, omens).contains(t) ==> pool.contains(t),
{
    let by_dextral = if omens.dextral {
        pool.filter(has_affix(cat, Affix::Suffix))
    } else {
        pool
    };
    let by_sinistral = if omens.sinistral {
        by_dextral.filter(has_affix(cat, Affix::Prefix))
    } else {
        by_dextral
    };
    lemma_filter_keeps_pool(cat, pool, has_affix(cat, Affix::Suffix), item_level);
    lemma_filter_keeps_pool(cat, by_dextral, has_affix(cat, Affix::Prefix), item_level);
    lemma_filter_keeps_pool(cat, by_sinistral, shares_item_tag(cat, mods), item_level);
}

/// What can be added is of the pool, of a new family, and leaves no affix
/// with more than three.
pub proof fn lemma_slammable(
    cat: &Catalog,
    mods: Seq<OpaqueIndex<Tier>>,
    pool: Seq<OpaqueIndex<Tier>>,
    t: OpaqueIndex<Tier>,
)
    ensures
        slammable(cat, mods, pool).contains(t) <==> {
            &&& pool.contains(t)
            &&& !has_family(cat, mods, cat.family_of(t))
            &&& affix_count(cat, mods, Affix::Prefix) == 3 ==> cat.affix_of(t) == Affix::Suffix
            &&& affix_count(cat, mods, Affix::Suffix) == 3 ==> cat.affix_of(t) == Affix::Prefix
        },
{
    let fresh = pool.filter(fresh_family(cat, mods));
    let by_prefixes = if affix_count(cat, mods, Affix::Prefix) == 3 {
        fresh.filter(has_affix(cat, Affix::Suffix))
    } else {
        fresh
    };
    lemma_filter_member(pool, fresh_family(cat, mods), t);
    lemma_filter_member(fresh, has_affix(cat, Affix::Suffix), t);
    lemma_filter_member(by_prefixes, has_affix(cat, Affix::Prefix), t);
}

/// What a roll may give is of the pool.
pub proof fn lemma_may_roll(cat: &Catalog, pool: Seq<OpaqueIndex<Tier>>, t: OpaqueIndex<Tier>)
    requires
        may_roll(cat, pool, t),
    ensures
        pool.contains(t),
{
    if weight_sum(pool_weights(cat, pool)) == 0 {
        assert(pool[0] == t);
    }
}

/// With one more modifier, an item has one more at that modifier's affix
/// and as many as before at the others.
pub proof fn lemma_affix_count_push(
    cat: &Catalog,
    mods: Seq<OpaqueIndex<Tier>>,
    t: OpaqueIndex<Tier>,
    affix: Affix,
)
    ensures
        affix_count(cat, mods.push(t), affix) == affix_count(cat, mods, affix) + if cat.affix_of(t)
            == affix {
            1nat
        } else {
            0nat
        },
{
    lemma_filter_push(mods, t, has_affix(cat, affix));
}

/// Adding what can be added keeps the families apart, the affixes at three
/// at most, and the tiers at the item's level if the pool is at it.
pub proof fn lemma_slam_keeps(
    cat: &Catalog,
    mods: Seq<OpaqueIndex<Tier>>,
    pool: Seq<OpaqueIndex<Tier>>,
    t: OpaqueIndex<Tier>,
    item_level: u32,
)
    requires
        slammable(cat, mods, pool).contains(t),
    ensures
        pool.contains(t),
        distinct_families(cat, mods) ==> distinct_families(cat, mods.push(t)),
        affix_count(cat, mods, Affix::Prefix) <= 3 ==> affix_count(cat, mods.push(t), Affix::Prefix)
            <= 3,
        affix_count(cat, mods, Affix::Suffix) <= 3 ==> affix_count(cat, mods.push(t), Affix::Suffix)
            <= 3,
        within_level(cat, mods, item_level) && within_level(cat, pool, item_level) ==> within_level(
            cat,
            mods.push(t),
            item_level,
        ),
        cat.has_tiers(mods) && cat.has_tiers(pool) ==> cat.has_tiers(mods.push(t)),
{
    lemma_slammable(cat, mods, pool, t);
    lemma_affix_count_push(cat, mods, t, Affix::Prefix);
    lemma_affix_count_push(cat, mods, t, Affix::Suffix);
    let more = mods.push(t);
    let k = choose|k: int| 0 <= k < pool.len() && pool[k] == t;
    if distinct_families(cat, mods) {
        assert forall|i: int, j: int| 0 <= i < j < more.len() implies cat.family_of(
            #[trigger] more[i],
        ) != cat.family_of(#[trigger] more[j]) by {
            if j < mods.len() {
                assert(more[i] == mods[i] && more[j] == mods[j]);
            } else {
                assert(more[i] == mods[i]);
            }
        }
    }
    if within_level(cat, mods, item_level) && within_level(cat, pool, item_level) {
        assert forall|i: int| 0 <= i < more.len() implies cat.ilvl_of(#[trigger] more[i])
            <= item_level by {
            if i < mods.len() {
                assert(more[i] == mods[i]);
            }
        }
    }
    if cat.has_tiers(mods) && cat.has_tiers(pool) {
        assert forall|i: int| 0 <= i < more.len() implies cat.has_tier(#[trigger] more[i]) by {
            if i < mods.len() {
                assert(more[i] == mods[i]);
            }
        }
    }
}

/// Additions keep what [`lemma_slam_keeps`] says one addition keeps, and
/// what they add is of the pool.
pub proof fn lemma_slams_keep(
    cat: &Catalog,
    before: Seq<OpaqueIndex<Tier>>,
    pool: Seq<OpaqueIndex<Tier>>,
    count: nat,
    after: Seq<OpaqueIndex<Tier>>,
    done: bool,
    item_level: u32,
)
    requires
        slams(cat, before, pool, count, after, done),
    ensures
        distinct_families(cat, before) ==> distinct_families(cat, after),
        affix_count(cat, before, Affix::Prefix) <= 3 ==> affix_count(cat, after, Affix::Prefix) <= 3,
        affix_count(cat, before, Affix::Suffix) <= 3 ==> affix_count(cat, after, Affix::Suffix) <= 3,
        within_level(cat, before, item_level) && within_level(cat, pool, item_level)
            ==> within_level(cat, after, item_level),
        cat.has_tiers(before) && cat.has_tiers(pool) ==> cat.has_tiers(after),
        forall|k: int| before.len() <= k < after.len() ==> pool.contains(#[trigger] after[k]),
    decreases after.len() - before.len(),
{
    if after.len() == before.len() {
        assert(after =~= before);
    } else {
        let last = after.len() - 1;
        let most = after.take(last);
        assert(most.take(before.len() as int) =~= before);
        assert forall|k: int| before.len() <= k < most.len() implies may_roll(
            cat,
            slammable(cat, most.take(k), pool),
            #[trigger] most[k],
        ) by {
            assert(most.take(k) =~= after.take(k));
            assert(most[k] == after[k]);
        }
        assert(slams(cat, before, pool, (most.len() - before.len()) as nat, most, true));
        lemma_slams_keep(
            cat,
            before,
            pool,
            (most.len() - before.len()) as nat,
            most,
            true,
            item_level,
        );
        lemma_may_roll(cat, slammable(cat, most, pool), after[last]);
        lemma_slam_keeps(cat, most, pool, after[last], item_level);
        assert(most.push(after[last]) =~= after);
        assert forall|k: int| before.len() <= k < after.len() implies pool.contains(
            #[trigger] after[k],
        ) by {
            if k < last {
                assert(most[k] == after[k]);
            }
        }
    }
}

/// What of `pool` can be added to the item.
pub fn filter_slammable(cat: &Catalog, item: &ItemState, pool: &[OpaqueIndex<Tier>]) -> (kept: Vec<
    OpaqueIndex<Tier>,
>)
    requires
        cat.wf(),
        item.wf(cat),
        cat.has_tiers(pool@),
    ensures
        kept@ == slammable(cat, item.mods@, pool@),
        cat.has_tiers(kept@),
{
    let families = item.mod_familities(cat);
    let mut kept = filter_out_families(cat, pool, &families);
    proof {
        assert forall|i: int| 0 <= i < pool@.len() implies outside_families(cat, families@)(
            #[trigger] pool@[i],
        ) == fresh_family(cat, item.mods@)(pool@[i]) by {
            let family = cat.family_of(pool@[i]);
            if lists(families@, family) {
                let k = choose|k: int|
                    0 <= k < families@.len() && (#[trigger] families@[k])@ == family;
                assert(cat.family_of(item.mods@[k]) == family);
            }
            if has_family(cat, item.mods@, family) {
                let k = choose|k: int|
                    0 <= k < item.mods@.len() && cat.family_of(#[trigger] item.mods@[k]) == family;
                assert(families@[k]@ == family);
            }
        }
        lemma_filter_same(
            pool@,
            outside_families(cat, families@),
            fresh_family(cat, item.mods@),
        );
        lemma_filter_keeps_pool(cat, pool@, fresh_family(cat, item.mods@), 0);
    }
    if item.num_prefixes(cat) == 3 {
        proof {
            lemma_filter_keeps_pool(cat, kept@, has_affix(cat, Affix::Suffix), 0);
        }
        kept = filter_affix(cat, kept.as_slice(), Affix::Suffix);
    }
    if item.num_suffixes(cat) == 3 {
        proof {
            lemma_filter_keeps_pool(cat, kept@, has_affix(cat, Affix::Prefix), 0);
        }
        kept = filter_affix(cat, kept.as_slice(), Affix::Prefix);
    }
    kept
}

/// What the omens leave of `pool` for adding to the item.
pub fn filter_by_omens(
    cat: &Catalog,
    item: &ItemState,
    pool: &[OpaqueIndex<Tier>],
    omens: &OmenSet,
) -> (kept: Vec<OpaqueIndex<Tier>>)
    requires
        cat.wf(),
        item.wf(cat),
        cat.has_tiers(pool@),
    ensures
        kept@ == omen_pool(cat, item.mods@, pool@, *omens),
        cat.has_tiers(kept@),
{
    proof {
        lemma_omen_pool(cat, item.mods@, pool@, *omens, 0);
    }
    let mut kept: Vec<OpaqueIndex<Tier>> = if omens.dextral {
        filter_affix(cat, pool, Affix::Suffix)
    } else {
        copy_pool(pool)
    };
    proof {
        lemma_filter_keeps_pool(cat, pool@, has_affix(cat, Affix::Suffix), 0);
        lemma_filter_keeps_pool(cat, kept@, has_affix(cat, Affix::Prefix), 0);
    }
    if omens.sinistral {
        kept = filter_affix(cat, kept.as_slice(), Affix::Prefix);
    }
    if omens.homogenous {
        let tags = item.mod_tags(cat);
        proof {
            if tags@.len() > 0 {
                assert(lists(tags@, tags@[0]@));
            }
            if tagged(cat, item.mods@) {
                let tag = choose|tag: Seq<char>| has_tag(cat, item.mods@, tag);
                assert(lists(tags@, tag));
            }
        }
        if tags.len() > 0 {
            proof {
                assert forall|i: int| 0 <= i < kept@.len() implies shares_tag(cat, tags@)(
                    #[trigger] kept@[i],
                ) == shares_item_tag(cat, item.mods@)(kept@[i]) by {
                    let own = cat.tags_of(kept@[i]);
                    if shares_tag(cat, tags@)(kept@[i]) {
                        let j = choose|j: int|
                            0 <= j < own.len() && lists(tags@, (#[trigger] own[j])@);
                        assert(has_tag(cat, item.mods@, own[j]@));
                    }
                    if shares_item_tag(cat, item.mods@)(kept@[i]) {
                        let j = choose|j: int|
                            0 <= j < own.len() && has_tag(cat, item.mods@, (#[trigger] own[j])@);
                        assert(lists(tags@, own[j]@));
                    }
                }
                lemma_filter_same(kept@, shares_tag(cat, tags@), shares_item_tag(cat, item.mods@));
            }
            kept = filter_tags(cat, kept.as_slice(), &tags);
        }
    }
    kept
}

/// The pool as a vector of its own.
pub fn copy_pool(pool: &[OpaqueIndex<Tier>]) -> (copy: Vec<OpaqueIndex<Tier>>)
    ensures
        copy@ == pool@,
{
    let mut copy: Vec<OpaqueIndex<Tier>> = Vec::new();
    let mut i: usize = 0;
    while i < pool.len()
        invariant
            i <= pool.len(),
            copy@ == pool@.take(i as int),
        decreases pool.len() - i,
    {
        proof {
            lemma_take_step(pool@, i as int);
        }
        copy.push(pool[i]);
        i += 1;
    }
    assert(pool@.take(pool.len() as int) =~= pool@);
    copy
}

/// The weight of each tier of the pool.
pub fn weights_of(cat: &Catalog, pool: &[OpaqueIndex<Tier>]) -> (weights: Vec<u32>)
    requires
        cat.has_tiers(pool@),
    ensures
        weights@ == pool_weights(cat, pool@),
{
    let mut weights: Vec<u32> = Vec::new();
    let mut i: usize = 0;
    while i < pool.len()
        invariant
            i <= pool.len(),
            cat.has_tiers(pool@),
            weights@.len() == i,
            forall|k: int| 0 <= k < i ==> weights@[k] == cat.weight_of(pool@[k]),
        decreases pool.len() - i,
    {
        weights.push(cat.get_tier(pool[i]).weight);
        i += 1;
    }
    assert(weights@ =~= pool_weights(cat, pool@));
    weights
}

/// The tier of the pool that the draw `t` falls on, by the tiers' weights.
pub fn roll_at(cat: &Catalog, pool: &[OpaqueIndex<Tier>], t: u128) -> (rolled: OpaqueIndex<Tier>)
    requires
        cat.has_tiers(pool@),
        t < weight_sum(pool_weights(cat, pool@)),
    ensures
        exists|i: int| falls_on(pool_weights(cat, pool@), t as nat, i) && rolled == pool@[i],
{
    let weights = weights_of(cat, pool);
    *choice_at(pool, weights.as_slice(), t)
}

/// Rolls a tier of the pool, each as often as its weight says. Where no
/// tier has weight the first is given, and nothing where the pool is empty.
pub fn roll(cat: &Catalog, pool: &[OpaqueIndex<Tier>]) -> (rolled: Option<OpaqueIndex<Tier>>)
    requires
        cat.has_tiers(pool@),
    ensures
        match rolled {
            Some(t) => may_roll(cat, pool@, t),
            None => pool@.len() == 0,
        },
{
    if pool.len() == 0 {
        return None;
    }
    let weights = weights_of(cat, pool);
    if total_weight(weights.as_slice()) == 0 {
        Some(pool[0])
    } else {
        let t = *choice(pool, weights.as_slice());
        Some(t)
    }
}

/// Adds `count` tiers of `pool` to the item, one after the other, each
/// rolled among what can then be added. Stops where nothing can be added,
/// and tells whether all were added.
pub fn slam(cat: &Catalog, item: &mut ItemState, pool: &[OpaqueIndex<Tier>], count: usize) -> (done:
    bool)
    requires
        cat.wf(),
        old(item).wf(cat),
        cat.has_tiers(pool@),
    ensures
        final(item).same_frame(old(item)),
        final(item).wf(cat),
        slams(cat, old(item).mods@, pool@, count as nat, final(item).mods@, done),
{
    let ghost before = item.mods@;
    let mut k: usize = 0;
    assert(item.mods@.take(before.len() as int) =~= before);
    while k < count
        invariant
            k <= count,
            cat.wf(),
            item.wf(cat),
            cat.has_tiers(pool@),
            item.same_frame(old(item)),
            before == old(item).mods@,
            slams(cat, before, pool@, k as nat, item.mods@, true),
        decreases count - k,
    {
        let addable = filter_slammable(cat, item, pool);
        match roll(cat, addable.as_slice()) {
            None => {
                return false;
            },
            Some(t) => {
                let ghost mods = item.mods@;
                proof {
                    lemma_may_roll(cat, addable@, t);
                    lemma_slam_keeps(cat, mods, pool@, t, 0);
                }
                item.mods.push(t);
                proof {
                    let after = item.mods@;
                    assert(after.take(before.len() as int) =~= before);
                    assert forall|j: int| before.len() <= j < after.len() implies may_roll(
                        cat,
                        slammable(cat, after.take(j), pool@),
                        #[trigger] after[j],
                    ) by {
                        if j < mods.len() {
                            assert(after.take(j) =~= mods.take(j));
                            assert(after[j] == mods[j]);
                        } else {
                            assert(after.take(j) =~= mods);
                        }
                    }
                }
            },
        }
        k += 1;
    }
    true
}

/// The modifiers of the item that may be taken off under the omens.
pub fn removal_candidates(cat: &Catalog, item: &ItemState, omens: &OmenSet) -> (kept: Vec<
    OpaqueIndex<Tier>,
>)
    requires
        item.wf(cat),
    ensures
        kept@ == removable(cat, item.mods@, *omens),
        cat.has_tiers(kept@),
        forall|t: OpaqueIndex<Tier>| kept@.contains(t) ==> item.mods@.contains(t),
{
    let mut kept: Vec<OpaqueIndex<Tier>> = if omens.dextral {
        filter_affix(cat, item.mods.as_slice(), Affix::Suffix)
    } else {
        copy_pool(item.mods.as_slice())
    };
    proof {
        lemma_filter_keeps_pool(cat, item.mods@, has_affix(cat, Affix::Suffix), 0);
        lemma_filter_keeps_pool(cat, kept@, has_affix(cat, Affix::Prefix), 0);
    }
    if omens.sinistral {
        kept = filter_affix(cat, kept.as_slice(), Affix::Prefix);
    }
    proof {
        lemma_filter_keeps_pool(cat, kept@, lowest_in(cat, kept@), 0);
    }
    if omens.whittling {
        kept = filter_lowest_tier(cat, kept.as_slice());
    }
    kept
}

/// Takes `t` off the list, wherever it stands.
pub fn remove_all(list: &mut Vec<OpaqueIndex<Tier>>, t: OpaqueIndex<Tier>)
    ensures
        final(list)@ == old(list)@.filter(other_than(t)),
{
    let mut kept: Vec<OpaqueIndex<Tier>> = Vec::new();
    let mut i: usize = 0;
    assert(list@.take(0).filter(other_than(t)) =~= Seq::empty()) by {
        reveal(Seq::filter);
    }
    while i < list.len()
        invariant
            i <= list.len(),
            list@ == old(list)@,
            kept@ == list@.take(i as int).filter(other_than(t)),
        decreases list.len() - i,
    {
        let x = list[i];
        proof {
            lemma_take_step(list@, i as int);
            lemma_filter_push(list@.take(i as int), x, other_than(t));
            OpaqueIndex::lemma_view_eq(x, t);
        }
        if x.index() != t.index() {
            kept.push(x);
        }
        i += 1;
    }
    assert(list@.take(list.len() as int) =~= list@);
    *list = kept;
}

/// What a filter keeps of the modifiers of an item has its families apart
/// and is at the item's level, if the modifiers were, and has no more at an
/// affix than they had.
pub proof fn lemma_filter_keeps_mods(
    cat: &Catalog,
    mods: Seq<OpaqueIndex<Tier>>,
    pred: spec_fn(OpaqueIndex<Tier>) -> bool,
    affix: Affix,
)
    ensures
        distinct_families(cat, mods) ==> distinct_families(cat, mods.filter(pred)),
        affix_count(cat, mods.filter(pred), affix) <= affix_count(cat, mods, affix),
        mods.filter(pred).len() <= mods.len(),
    decreases mods.len(),
{
    reveal(Seq::filter);
    if mods.len() > 0 {
        let rest = mods.drop_last();
        let last = mods.last();
        let kept = rest.filter(pred);
        lemma_filter_keeps_mods(cat, rest, pred, affix);
        assert(rest.push(last) =~= mods);
        lemma_filter_push(rest, last, has_affix(cat, affix));
        lemma_filter_push(kept, last, has_affix(cat, affix));
        if distinct_families(cat, mods) {
            assert forall|i: int, j: int| 0 <= i < j < rest.len() implies cat.family_of(
                #[trigger] rest[i],
            ) != cat.family_of(#[trigger] rest[j]) by {
                assert(rest[i] == mods[i] && rest[j] == mods[j]);
            }
            if pred(last) {
                let more = kept.push(last);
                assert forall|i: int, j: int| 0 <= i < j < more.len() implies cat.family_of(
                    #[trigger] more[i],
                ) != cat.family_of(#[trigger] more[j]) by {
                    if j < kept.len() {
                        assert(more[i] == kept[i] && more[j] == kept[j]);
                    } else {
                        lemma_filter_member(rest, pred, kept[i]);
                        assert(kept.contains(kept[i]));
                        let k = choose|k: int| 0 <= k < rest.len() && rest[k] == kept[i];
                        assert(mods[k] == kept[i]);
                        assert(mods[mods.len() - 1] == last);
                    }
                }
            }
        }
    }
}

/// Taking `t` off after `gone` is taking off `gone` and `t`.
pub proof fn lemma_remove_one_more(
    list: Seq<OpaqueIndex<Tier>>,
    gone: Seq<OpaqueIndex<Tier>>,
    t: OpaqueIndex<Tier>,
)
    ensures
        list.filter(none_of(gone)).filter(other_than(t)) == list.filter(none_of(gone.push(t))),
{
    let both = |x: OpaqueIndex<Tier>| none_of(gone)(x) && other_than(t)(x);
    crate::util::seqs::lemma_filter_twice(list, none_of(gone), other_than(t));
    assert forall|i: int| 0 <= i < list.len() implies both(#[trigger] list[i]) == none_of(
        gone.push(t),
    )(list[i]) by {
        let x = list[i];
        let more = gone.push(t);
        if more.contains(x) {
            let k = choose|k: int| 0 <= k < more.len() && more[k] == x;
            if k < gone.len() {
                assert(gone[k] == x);
            }
        }
        if gone.contains(x) {
            let k = choose|k: int| 0 <= k < gone.len() && gone[k] == x;
            assert(more[k] == x);
        }
        if x == t {
            assert(more[gone.len() as int] == x);
        }
    }
    lemma_filter_same(list, both, none_of(gone.push(t)));
}

/// Removals keep the families apart, leave no more at an affix than there
/// were, and leave fewer modifiers where one was done.
pub proof fn lemma_annuls_keep(
    cat: &Catalog,
    before: Seq<OpaqueIndex<Tier>>,
    candidates: Seq<OpaqueIndex<Tier>>,
    count: nat,
    after: Seq<OpaqueIndex<Tier>>,
    done: bool,
    item_level: u32,
)
    requires
        annuls(before, candidates, count, after, done),
    ensures
        distinct_families(cat, before) ==> distinct_families(cat, after),
        affix_count(cat, after, Affix::Prefix) <= affix_count(cat, before, Affix::Prefix),
        affix_count(cat, after, Affix::Suffix) <= affix_count(cat, before, Affix::Suffix),
        within_level(cat, before, item_level) ==> within_level(cat, after, item_level),
        cat.has_tiers(before) ==> cat.has_tiers(after),
        after.len() <= before.len(),
        forall|t: OpaqueIndex<Tier>| after.contains(t) ==> before.contains(t),
        (done && count > 0 && forall|t: OpaqueIndex<Tier>|
            candidates.contains(t) ==> before.contains(t)) ==> after.len() < before.len(),
{
    let gone = choose|gone: Seq<OpaqueIndex<Tier>>|
        {
            &&& gone.len() <= count
            &&& done == (gone.len() == count)
            &&& gone.no_duplicates()
            &&& forall|k: int| 0 <= k < gone.len() ==> candidates.contains(#[trigger] gone[k])
            &&& after == before.filter(none_of(gone))
            &&& !done ==> candidates.filter(none_of(gone)).len() == 0
        };
    lemma_filter_keeps_mods(cat, before, none_of(gone), Affix::Prefix);
    lemma_filter_keeps_mods(cat, before, none_of(gone), Affix::Suffix);
    lemma_filter_keeps_pool(cat, before, none_of(gone), item_level);
    if done && count > 0 && forall|t: OpaqueIndex<Tier>|
        candidates.contains(t) ==> before.contains(t) {
        let t = gone[0];
        assert(candidates.contains(t));
        assert(gone.contains(t));
        lemma_filter_shorter(before, none_of(gone), t);
    }
}

/// A filter that drops an item of the sequence keeps fewer than there were.
pub proof fn lemma_filter_shorter(
    list: Seq<OpaqueIndex<Tier>>,
    pred: spec_fn(OpaqueIndex<Tier>) -> bool,
    t: OpaqueIndex<Tier>,
)
    requires
        list.contains(t),
        !pred(t),
    ensures
        list.filter(pred).len() < list.len(),
    decreases list.len(),
{
    reveal(Seq::filter);
    let rest = list.drop_last();
    rest.lemma_filter_len(pred);
    if pred(list.last()) {
        let k = choose|k: int| 0 <= k < list.len() && list[k] == t;
        assert(rest[k] == t);
        lemma_filter_shorter(rest, pred, t);
    }
}

/// Takes `count` of the candidates off the item, one after the other, each
/// drawn among the candidates that are left, all as often. Stops where no
/// candidate is left, and tells whether all were taken.
pub fn annul(item: &mut ItemState, candidates: Vec<OpaqueIndex<Tier>>, count: usize) -> (done: bool)
    ensures
        final(item).same_frame(old(item)),
        annuls(old(item).mods@, candidates@, count as nat, final(item).mods@, done),
{
    let ghost before = item.mods@;
    let ghost mut gone: Seq<OpaqueIndex<Tier>> = Seq::empty();
    let mut left = candidates;
    let mut k: usize = 0;
    proof {
        assert forall|i: int| 0 <= i < before.len() implies none_of(gone)(#[trigger] before[i])
            == (|x: OpaqueIndex<Tier>| true)(before[i]) by {}
        lemma_filter_same(before, none_of(gone), |x: OpaqueIndex<Tier>| true);
        lemma_filter_all(before);
        assert forall|i: int| 0 <= i < left@.len() implies none_of(gone)(#[trigger] left@[i]) == (
        |x: OpaqueIndex<Tier>| true)(left@[i]) by {}
        lemma_filter_same(left@, none_of(gone), |x: OpaqueIndex<Tier>| true);
        lemma_filter_all(left@);
    }
    while k < count
        invariant
            k <= count,
            item.same_frame(old(item)),
            before == old(item).mods@,
            gone.len() == k,
            gone.no_duplicates(),
            forall|j: int| 0 <= j < gone.len() ==> candidates@.contains(#[trigger] gone[j]),
            item.mods@ == before.filter(none_of(gone)),
            left@ == candidates@.filter(none_of(gone)),
        decreases count - k,
    {
        if left.len() == 0 {
            return false;
        }
        let i = crate::util::rand::draw_index(left.len());
        let t = left[i];
        proof {
            lemma_filter_member(candidates@, none_of(gone), t);
            assert(left@.contains(t));
            lemma_remove_one_more(before, gone, t);
            lemma_remove_one_more(candidates@, gone, t);
        }
        remove_all(&mut item.mods, t);
        remove_all(&mut left, t);
        proof {
            let more = gone.push(t);
            assert forall|a: int, b: int| 0 <= a < more.len() && 0 <= b < more.len() && a
                != b implies more[a] != more[b] by {
                if a < gone.len() && b < gone.len() {
                } else if a < gone.len() {
                    assert(gone.contains(gone[a]));
                } else {
                    assert(gone.contains(gone[b]));
                }
            }
            gone = more;
        }
        k += 1;
    }
    true
}

/// A filter that everything meets keeps everything.
pub proof fn lemma_filter_all(list: Seq<OpaqueIndex<Tier>>)
    ensures
        list.filter(|x: OpaqueIndex<Tier>| true) == list,
    decreases list.len(),
{
    reveal(Seq::filter);
    if list.len() > 0 {
        lemma_filter_all(list.drop_last());
        assert(list.drop_last().push(list.last()) =~= list);
    }
}

} // verus!
