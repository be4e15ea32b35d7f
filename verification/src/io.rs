//! What is written down of a strategy and of the item that it was made for,
//! with names in the place of positions in the catalog, so that it can be
//! read again with another catalog of the same names.

use crate::catalog::Catalog;
use crate::currency::{Currency, CurrencyType};
use crate::hashvec::OpaqueIndex;
use crate::item_state::{ItemState, Rarity};
use crate::strategy::{met_on, Condition, ConditionGroup, ModifierCondition, Strategy};
use crate::types::{Modifier, OmenSet, Tier};
use std::ops::RangeInclusive;
use vstd::prelude::*;

verus! {

/// An item, its modifiers by the ids of their tiers.
#[derive(Debug, Clone)]
pub struct SavedItem {
    pub base_type: String,
    pub item_level: u32,
    pub rarity: Rarity,
    pub mods: Vec<String>,
}

/// A condition on a modifier, the modifier by the name of its group.
#[derive(Debug, Clone)]
pub struct SavedModifierCondition {
    pub mod_group: String,
    pub levels: Vec<u32>,
}

/// A group of a condition, its modifiers by the names of their groups.
#[derive(Debug, Clone)]
pub enum SavedConditionGroup {
    Count { count: RangeInclusive<usize>, mods: Vec<SavedModifierCondition> },
    Not(Vec<String>),
    AffixCount {
        suffixes: RangeInclusive<usize>,
        prefixes: RangeInclusive<usize>,
        affixes: RangeInclusive<usize>,
    },
}

/// A state of an item, as it is written down.
#[derive(Debug, Clone)]
pub struct SavedCondition {
    pub rarity: Rarity,
    pub groups: Vec<SavedConditionGroup>,
}

/// A strategy and the item that it was made for.
#[derive(Debug, Clone)]
pub struct SavedStrategy {
    pub base_item: SavedItem,
    /// The rules, each currency by its name.
    pub strategy: Vec<(SavedCondition, Option<(OmenSet, String)>)>,
}

/// The name that could not be found when something saved was read.
#[derive(Debug, Clone)]
pub enum DecodeError {
    UnknownTier(String),
    UnknownModifier(String),
    UnknownCurrency(String),
}

/// Every tier of the catalog stands under its own id, and every modifier
/// under its own group.
pub open spec fn named(cat: &Catalog) -> bool {
    &&& forall|i: int|
        0 <= i < cat.tiers.values().len() ==> cat.tiers.names().contains_key(
            (#[trigger] cat.tiers.values()[i]).id@,
        ) && cat.tiers.names()[cat.tiers.values()[i].id@] == i
    &&& forall|i: int|
        0 <= i < cat.mods.values().len() ==> cat.mods.names().contains_key(
            (#[trigger] cat.mods.values()[i]).group@,
        ) && cat.mods.names()[cat.mods.values()[i].group@] == i
}

/// `ids` are the ids of the tiers `mods`, in their order.
pub open spec fn tiers_saved(cat: &Catalog, mods: Seq<OpaqueIndex<Tier>>, ids: Seq<String>) -> bool {
    &&& ids.len() == mods.len()
    &&& forall|i: int|
        0 <= i < mods.len() ==> cat.has_tier(mods[i]) && (#[trigger] ids[i])@ == cat.tier(
            mods[i],
        ).id@
}

/// `groups` are the names of the modifiers `mods`, in their order.
pub open spec fn groups_saved(
    cat: &Catalog,
    mods: Seq<OpaqueIndex<Modifier>>,
    groups: Seq<String>,
) -> bool {
    &&& groups.len() == mods.len()
    &&& forall|i: int|
        0 <= i < mods.len() ==> 0 <= mods[i]@ < cat.mods.values().len() && (#[trigger] groups[i])@
            == cat.mods.values()[mods[i]@].group@
}

/// `saved` is what is written down of the item.
pub open spec fn item_saved(cat: &Catalog, item: &ItemState, saved: &SavedItem) -> bool {
    &&& saved.base_type@ == item.base_type@
    &&& saved.item_level == item.item_level
    &&& saved.rarity == item.rarity
    &&& tiers_saved(cat, item.mods@, saved.mods@)
}

/// `saved` is what is written down of the condition.
pub open spec fn modifier_condition_saved(
    cat: &Catalog,
    cond: &ModifierCondition,
    saved: &SavedModifierCondition,
) -> bool {
    &&& 0 <= cond.mod_group@ < cat.mods.values().len()
    &&& saved.mod_group@ == cat.mods.values()[cond.mod_group@].group@
    &&& saved.levels@ == cond.levels@
}

/// `saved` is what is written down of the group.
pub open spec fn group_saved(cat: &Catalog, group: &ConditionGroup, saved: &SavedConditionGroup) -> bool {
    match (group, saved) {
        (
            ConditionGroup::Count { count, mods },
            SavedConditionGroup::Count { count: saved_count, mods: saved_mods },
        ) => {
            &&& saved_count@ == count@
            &&& saved_mods@.len() == mods@.len()
            &&& forall|k: int|
                0 <= k < mods@.len() ==> modifier_condition_saved(
                    cat,
                    &mods@[k],
                    #[trigger] &saved_mods@[k],
                )
        },
        (ConditionGroup::Not(mods), SavedConditionGroup::Not(groups)) => groups_saved(
            cat,
            mods@,
            groups@,
        ),
        (
            ConditionGroup::AffixCount { suffixes, prefixes, affixes },
            SavedConditionGroup::AffixCount {
                suffixes: saved_suffixes,
                prefixes: saved_prefixes,
                affixes: saved_affixes,
            },
        ) => saved_suffixes@ == suffixes@ && saved_prefixes@ == prefixes@ && saved_affixes@
            == affixes@,
        _ => false,
    }
}

/// `saved` is what is written down of the condition.
pub open spec fn condition_saved(cat: &Catalog, cond: &Condition, saved: &SavedCondition) -> bool {
    &&& saved.rarity == cond.rarity
    &&& saved.groups@.len() == cond.groups@.len()
    &&& forall|k: int|
        0 <= k < cond.groups@.len() ==> group_saved(cat, &cond.groups@[k], #[trigger] &saved.groups@[k])
}

/// `saved` is what is written down of what a rule says to use: the same
/// omens, and the name of the currency.
pub open spec fn action_saved(
    action: Option<(OmenSet, CurrencyType)>,
    saved: Option<(OmenSet, String)>,
) -> bool {
    match (action, saved) {
        (None, None) => true,
        (Some((omens, currency)), Some((saved_omens, name))) => saved_omens == omens && name@
            == currency.spec_name(),
        _ => false,
    }
}

/// `saved` is what is written down of the rules of the strategy.
pub open spec fn strategy_saved(
    cat: &Catalog,
    strategy: &Strategy,
    saved: Seq<(SavedCondition, Option<(OmenSet, String)>)>,
) -> bool {
    &&& saved.len() == strategy.0@.len()
    &&& forall|k: int|
        0 <= k < saved.len() ==> condition_saved(cat, &strategy.0@[k].0, &(#[trigger] saved[k]).0)
            && action_saved(strategy.0@[k].1, saved[k].1)
}

/// Two conditions on a modifier that are saved as the same are met by the
/// same tiers.
pub proof fn lemma_modifier_condition(
    cat: &Catalog,
    first: &ModifierCondition,
    second: &ModifierCondition,
    saved: &SavedModifierCondition,
    mods: Seq<OpaqueIndex<Tier>>,
)
    requires
        named(cat),
        modifier_condition_saved(cat, first, saved),
        modifier_condition_saved(cat, second, saved),
    ensures
        first.mod_group@ == second.mod_group@,
        first.levels@ == second.levels@,
        first.met_on(cat, mods) == second.met_on(cat, mods),
{
    let a = cat.mods.values()[first.mod_group@];
    let b = cat.mods.values()[second.mod_group@];
    assert(cat.mods.names()[a.group@] == first.mod_group@);
    assert(cat.mods.names()[b.group@] == second.mod_group@);
    if first.met_on(cat, mods) {
        let i = choose|i: int| 0 <= i < mods.len() && first.met_by(&cat.tier(#[trigger] mods[i]));
        assert(second.met_by(&cat.tier(mods[i])));
    }
    if second.met_on(cat, mods) {
        let i = choose|i: int| 0 <= i < mods.len() && second.met_by(&cat.tier(#[trigger] mods[i]));
        assert(first.met_by(&cat.tier(mods[i])));
    }
}

/// Of two lists of conditions of which each pair is met together, as many
/// are met of the one as of the other.
pub proof fn lemma_as_many_met(
    cat: &Catalog,
    first: Seq<ModifierCondition>,
    second: Seq<ModifierCondition>,
    mods: Seq<OpaqueIndex<Tier>>,
)
    requires
        first.len() == second.len(),
        forall|k: int|
            0 <= k < first.len() ==> (#[trigger] first[k]).met_on(cat, mods) == second[k].met_on(
                cat,
                mods,
            ),
    ensures
        first.filter(met_on(cat, mods)).len() == second.filter(met_on(cat, mods)).len(),
    decreases first.len(),
{
    reveal(Seq::filter);
    if first.len() > 0 {
        let f = first.drop_last();
        let s = second.drop_last();
        assert forall|k: int| 0 <= k < f.len() implies (#[trigger] f[k]).met_on(cat, mods)
            == s[k].met_on(cat, mods) by {
            assert(f[k] == first[k] && s[k] == second[k]);
        }
        lemma_as_many_met(cat, f, s, mods);
        assert(first[first.len() - 1].met_on(cat, mods) == second[first.len() - 1].met_on(
            cat,
            mods,
        ));
    }
}

/// Two groups that are saved as the same hold of the same items.
pub proof fn lemma_group(
    cat: &Catalog,
    first: &ConditionGroup,
    second: &ConditionGroup,
    saved: &SavedConditionGroup,
    item: &ItemState,
)
    requires
        named(cat),
        group_saved(cat, first, saved),
        group_saved(cat, second, saved),
    ensures
        first.holds(cat, item) == second.holds(cat, item),
{
    match (first, second, saved) {
        (
            ConditionGroup::Count { count: c1, mods: m1 },
            ConditionGroup::Count { count: c2, mods: m2 },
            SavedConditionGroup::Count { count: sc, mods: sm },
        ) => {
            assert forall|k: int| 0 <= k < m1@.len() implies (#[trigger] m1@[k]).met_on(
                cat,
                item.mods@,
            ) == m2@[k].met_on(cat, item.mods@) by {
                assert(modifier_condition_saved(cat, &m1@[k], &sm@[k]));
                assert(modifier_condition_saved(cat, &m2@[k], &sm@[k]));
                lemma_modifier_condition(cat, &m1@[k], &m2@[k], &sm@[k], item.mods@);
            }
            lemma_as_many_met(cat, m1@, m2@, item.mods@);
        },
        (ConditionGroup::Not(g1), ConditionGroup::Not(g2), SavedConditionGroup::Not(names)) => {
            assert forall|k: int| 0 <= k < g1@.len() implies (#[trigger] g1@[k])@ == g2@[k]@ by {
                let a = cat.mods.values()[g1@[k]@];
                let b = cat.mods.values()[g2@[k]@];
                assert(names@[k]@ == a.group@);
                assert(names@[k]@ == b.group@);
                assert(cat.mods.names()[a.group@] == g1@[k]@);
                assert(cat.mods.names()[b.group@] == g2@[k]@);
            }
            if first.holds(cat, item) {
                assert forall|k: int| 0 <= k < g2@.len() implies !crate::strategy::has_modifier(
                    cat,
                    item.mods@,
                    (#[trigger] g2@[k])@,
                ) by {
                    assert(g1@[k]@ == g2@[k]@);
                }
            }
            if second.holds(cat, item) {
                assert forall|k: int| 0 <= k < g1@.len() implies !crate::strategy::has_modifier(
                    cat,
                    item.mods@,
                    (#[trigger] g1@[k])@,
                ) by {
                    assert(g1@[k]@ == g2@[k]@);
                }
            }
        },
        _ => {},
    }
}

/// Two conditions that are saved as the same hold of the same items.
pub proof fn lemma_condition(
    cat: &Catalog,
    first: &Condition,
    second: &Condition,
    saved: &SavedCondition,
    item: &ItemState,
)
    requires
        named(cat),
        condition_saved(cat, first, saved),
        condition_saved(cat, second, saved),
    ensures
        first.holds(cat, item) == second.holds(cat, item),
{
    assert forall|k: int| 0 <= k < first.groups@.len() implies (#[trigger] first.groups@[k]).holds(
        cat,
        item,
    ) == second.groups@[k].holds(cat, item) by {
        assert(group_saved(cat, &first.groups@[k], &saved.groups@[k]));
        assert(group_saved(cat, &second.groups@[k], &saved.groups@[k]));
        lemma_group(cat, &first.groups@[k], &second.groups@[k], &saved.groups@[k], item);
    }
    if first.holds(cat, item) {
        assert forall|k: int| 0 <= k < second.groups@.len() implies (#[trigger] second.groups@[k]).holds(
            cat,
            item,
        ) by {
            assert(first.groups@[k].holds(cat, item));
        }
    }
    if second.holds(cat, item) {
        assert forall|k: int| 0 <= k < first.groups@.len() implies (#[trigger] first.groups@[k]).holds(
            cat,
            item,
        ) by {
            assert(second.groups@[k].holds(cat, item));
        }
    }
}

/// What was saved and read again is what it was: two items that are saved
/// as the same have the same base, level, rarity and modifiers; and two
/// strategies that are saved as the same select the same rule for every
/// item, with the same omens and a currency of the same name.
pub proof fn lemma_round_trip(
    cat: &Catalog,
    item: &ItemState,
    strategy: &Strategy,
    saved: &SavedStrategy,
    read_item: &ItemState,
    read_strategy: &Strategy,
)
    requires
        named(cat),
        item_saved(cat, item, &saved.base_item),
        strategy_saved(cat, strategy, saved.strategy@),
        item_saved(cat, read_item, &saved.base_item),
        strategy_saved(cat, read_strategy, saved.strategy@),
    ensures
        read_item.base_type@ == item.base_type@,
        read_item.item_level == item.item_level,
        read_item.rarity == item.rarity,
        read_item.mods@ == item.mods@,
        read_strategy.0@.len() == strategy.0@.len(),
        forall|probe: ItemState, found: Option<usize>| #[trigger]
            read_strategy.selects(cat, &probe, found) == strategy.selects(cat, &probe, found),
        forall|k: int|
            0 <= k < strategy.0@.len() ==> match ((#[trigger] strategy.0@[k]).1, read_strategy.0@[k].1) {
                (None, None) => true,
                (Some((omens, currency)), Some((read_omens, read_currency))) => read_omens == omens
                    && read_currency.spec_name() == currency.spec_name(),
                _ => false,
            },
{
    assert forall|i: int| 0 <= i < item.mods@.len() implies read_item.mods@[i] == item.mods@[i] by {
        let id = saved.base_item.mods@[i]@;
        assert(cat.tiers.names()[cat.tiers.values()[item.mods@[i]@].id@] == item.mods@[i]@);
        assert(cat.tiers.names()[cat.tiers.values()[read_item.mods@[i]@].id@] == read_item.mods@[i]@);
        OpaqueIndex::lemma_view_eq(read_item.mods@[i], item.mods@[i]);
    }
    assert(read_item.mods@ =~= item.mods@);
    assert forall|probe: ItemState, k: int| 0 <= k < strategy.0@.len() implies #[trigger] strategy.0@[k].0.holds(
        cat,
        &probe,
    ) == read_strategy.0@[k].0.holds(cat, &probe) by {
        assert(condition_saved(cat, &strategy.0@[k].0, &saved.strategy@[k].0));
        assert(condition_saved(cat, &read_strategy.0@[k].0, &saved.strategy@[k].0));
        lemma_condition(
            cat,
            &strategy.0@[k].0,
            &read_strategy.0@[k].0,
            &saved.strategy@[k].0,
            &probe,
        );
    }
    assert forall|probe: ItemState, found: Option<usize>| #[trigger]
        read_strategy.selects(cat, &probe, found) == strategy.selects(cat, &probe, found) by {
        match found {
            Some(i) => {
                if i < strategy.0@.len() {
                    assert(strategy.0@[i as int].0.holds(cat, &probe) == read_strategy.0@[i as int].0.holds(
                        cat,
                        &probe,
                    ));
                    if strategy.selects(cat, &probe, found) {
                        assert forall|j: int| 0 <= j < i implies !(
                        #[trigger] read_strategy.0@[j]).0.holds(cat, &probe) by {
                            assert(!strategy.0@[j].0.holds(cat, &probe));
                        }
                    }
                    if read_strategy.selects(cat, &probe, found) {
                        assert forall|j: int| 0 <= j < i implies !(#[trigger] strategy.0@[j]).0.holds(
                            cat,
                            &probe,
                        ) by {
                            assert(!read_strategy.0@[j].0.holds(cat, &probe));
                        }
                    }
                }
            },
            None => {
                if strategy.selects(cat, &probe, found) {
                    assert forall|j: int| 0 <= j < read_strategy.0@.len() implies !(
                    #[trigger] read_strategy.0@[j]).0.holds(cat, &probe) by {
                        assert(!strategy.0@[j].0.holds(cat, &probe));
                    }
                }
                if read_strategy.selects(cat, &probe, found) {
                    assert forall|j: int| 0 <= j < strategy.0@.len() implies !(
                    #[trigger] strategy.0@[j]).0.holds(cat, &probe) by {
                        assert(!read_strategy.0@[j].0.holds(cat, &probe));
                    }
                }
            },
        }
    }
    assert forall|k: int| 0 <= k < strategy.0@.len() implies match (
        (#[trigger] strategy.0@[k]).1,
        read_strategy.0@[k].1,
    ) {
        (None, None) => true,
        (Some((omens, currency)), Some((read_omens, read_currency))) => read_omens == omens
            && read_currency.spec_name() == currency.spec_name(),
        _ => false,
    } by {
        assert(action_saved(strategy.0@[k].1, saved.strategy@[k].1));
        assert(action_saved(read_strategy.0@[k].1, saved.strategy@[k].1));
    }
}

/// The saved group names the modifier `name`.
pub open spec fn group_names(group: &SavedConditionGroup, name: Seq<char>) -> bool {
    match group {
        SavedConditionGroup::Count { count, mods } => exists|j: int|
            0 <= j < mods@.len() && (#[trigger] mods@[j]).mod_group@ == name,
        SavedConditionGroup::Not(names) => exists|j: int|
            0 <= j < names@.len() && (#[trigger] names@[j])@ == name,
        SavedConditionGroup::AffixCount { .. } => false,
    }
}

/// The modifier that stands under a name has that name as its group.
pub proof fn lemma_named_modifier(cat: &Catalog, name: Seq<char>)
    requires
        cat.wf(),
        named(cat),
        cat.mods.names().contains_key(name),
    ensures
        0 <= cat.mods.names()[name] < cat.mods.values().len(),
        cat.mods.values()[cat.mods.names()[name]].group@ == name,
{
    cat.mods.lemma_wf();
    let m = cat.mods.names()[name];
    let own = cat.mods.values()[m].group@;
    assert(cat.mods.names().contains_key(own) && cat.mods.names()[own] == m);
}

/// The tier that stands under an id has that id.
pub proof fn lemma_named_tier(cat: &Catalog, id: Seq<char>)
    requires
        cat.wf(),
        named(cat),
        cat.tiers.names().contains_key(id),
    ensures
        0 <= cat.tiers.names()[id] < cat.tiers.values().len(),
        cat.tiers.values()[cat.tiers.names()[id]].id@ == id,
{
    cat.tiers.lemma_wf();
    let t = cat.tiers.names()[id];
    let own = cat.tiers.values()[t].id@;
    assert(cat.tiers.names().contains_key(own) && cat.tiers.names()[own] == t);
}

/// Every modifier that the group names is of the catalog.
pub open spec fn group_refers(cat: &Catalog, group: &ConditionGroup) -> bool {
    match group {
        ConditionGroup::Count { count, mods } => forall|j: int|
            0 <= j < mods@.len() ==> 0 <= (#[trigger] mods@[j]).mod_group@ < cat.mods.values().len(),
        ConditionGroup::Not(mods) => forall|j: int|
            0 <= j < mods@.len() ==> 0 <= (#[trigger] mods@[j])@ < cat.mods.values().len(),
        ConditionGroup::AffixCount { .. } => true,
    }
}

/// Every modifier that the condition names is of the catalog.
pub open spec fn condition_refers(cat: &Catalog, cond: &Condition) -> bool {
    forall|k: int| 0 <= k < cond.groups@.len() ==> group_refers(cat, #[trigger] &cond.groups@[k])
}

/// Every modifier that the strategy names is of the catalog.
pub open spec fn strategy_refers(cat: &Catalog, strategy: &Strategy) -> bool {
    forall|k: int|
        0 <= k < strategy.0@.len() ==> condition_refers(cat, &(#[trigger] strategy.0@[k]).0)
}

/// Whether every modifier that the strategy names is of the catalog.
pub fn check_refers(cat: &Catalog, strategy: &Strategy) -> (ok: bool)
    ensures
        ok == strategy_refers(cat, strategy),
{
    let m = cat.mods.len();
    let mut k: usize = 0;
    while k < strategy.0.len()
        invariant
            k <= strategy.0.len(),
            m == cat.mods.values().len(),
            forall|j: int| 0 <= j < k ==> condition_refers(cat, &(#[trigger] strategy.0@[j]).0),
        decreases strategy.0.len() - k,
    {
        let cond = &strategy.0[k].0;
        let mut g: usize = 0;
        while g < cond.groups.len()
            invariant
                g <= cond.groups.len(),
                m == cat.mods.values().len(),
                k < strategy.0@.len(),
                *cond == strategy.0@[k as int].0,
                forall|j: int| 0 <= j < g ==> group_refers(cat, #[trigger] &cond.groups@[j]),
            decreases cond.groups.len() - g,
        {
            if !check_group_refers(cat, &cond.groups[g]) {
                assert(!group_refers(cat, &cond.groups@[g as int]));
                return false;
            }
            g += 1;
        }
        k += 1;
    }
    true
}

/// Whether every modifier that the group names is of the catalog.
pub fn check_group_refers(cat: &Catalog, group: &ConditionGroup) -> (ok: bool)
    ensures
        ok == group_refers(cat, group),
{
    let m = cat.mods.len();
    match group {
        ConditionGroup::Count { count, mods } => {
            let mut j: usize = 0;
            while j < mods.len()
                invariant
                    j <= mods.len(),
                    m == cat.mods.values().len(),
                    group matches ConditionGroup::Count { count: c, mods: listed } && listed@
                        == mods@,
                    forall|i: int| 0 <= i < j ==> 0 <= (#[trigger] mods@[i]).mod_group@ < m,
                decreases mods.len() - j,
            {
                if mods[j].mod_group.index() >= m {
                    assert(!(mods@[j as int].mod_group@ < m));
                    return false;
                }
                j += 1;
            }
            true
        },
        ConditionGroup::Not(mods) => {
            let mut j: usize = 0;
            while j < mods.len()
                invariant
                    j <= mods.len(),
                    m == cat.mods.values().len(),
                    group matches ConditionGroup::Not(listed) && listed@ == mods@,
                    forall|i: int| 0 <= i < j ==> 0 <= (#[trigger] mods@[i])@ < m,
                decreases mods.len() - j,
            {
                if mods[j].index() >= m {
                    assert(!(mods@[j as int]@ < m));
                    return false;
                }
                j += 1;
            }
            true
        },
        ConditionGroup::AffixCount { .. } => true,
    }
}

/// The range, once more.
fn copy_range(range: &RangeInclusive<usize>) -> (copy: RangeInclusive<usize>)
    ensures
        copy@ == range@,
{
    range.clone()
}

/// The levels, once more.
fn copy_levels(levels: &Vec<u32>) -> (copy: Vec<u32>)
    ensures
        copy@ == levels@,
{
    let mut copy: Vec<u32> = Vec::new();
    let mut i: usize = 0;
    while i < levels.len()
        invariant
            i <= levels.len(),
            copy@ == levels@.take(i as int),
        decreases levels.len() - i,
    {
        copy.push(levels[i]);
        assert(levels@.take(i + 1) =~= levels@.take(i as int).push(levels@[i as int]));
        i += 1;
    }
    assert(levels@.take(levels.len() as int) =~= levels@);
    copy
}

/// What is written down of the group.
fn save_group(cat: &Catalog, group: &ConditionGroup) -> (saved: SavedConditionGroup)
    requires
        group_refers(cat, group),
    ensures
        group_saved(cat, group, &saved),
{
    match group {
        ConditionGroup::Count { count, mods } => {
            let mut saved_mods: Vec<SavedModifierCondition> = Vec::new();
            let mut j: usize = 0;
            while j < mods.len()
                invariant
                    j <= mods.len(),
                    saved_mods@.len() == j,
                    forall|k: int|
                        0 <= k < mods@.len() ==> 0 <= (#[trigger] mods@[k]).mod_group@
                            < cat.mods.values().len(),
                    forall|k: int|
                        0 <= k < j ==> modifier_condition_saved(
                            cat,
                            &mods@[k],
                            #[trigger] &saved_mods@[k],
                        ),
                decreases mods.len() - j,
            {
                let cond = &mods[j];
                saved_mods.push(
                    SavedModifierCondition {
                        mod_group: cat.mods.get(cond.mod_group).group.clone(),
                        levels: copy_levels(&cond.levels),
                    },
                );
                j += 1;
            }
            SavedConditionGroup::Count { count: copy_range(count), mods: saved_mods }
        },
        ConditionGroup::Not(mods) => {
            let mut names: Vec<String> = Vec::new();
            let mut j: usize = 0;
            while j < mods.len()
                invariant
                    j <= mods.len(),
                    names@.len() == j,
                    forall|k: int|
                        0 <= k < mods@.len() ==> 0 <= (#[trigger] mods@[k])@
                            < cat.mods.values().len(),
                    forall|k: int|
                        0 <= k < j ==> (#[trigger] names@[k])@ == cat.mods.values()[mods@[k]@].group@,
                decreases mods.len() - j,
            {
                names.push(cat.mods.get(mods[j]).group.clone());
                j += 1;
            }
            SavedConditionGroup::Not(names)
        },
        ConditionGroup::AffixCount { suffixes, prefixes, affixes } => SavedConditionGroup::AffixCount {
            suffixes: copy_range(suffixes),
            prefixes: copy_range(prefixes),
            affixes: copy_range(affixes),
        },
    }
}

/// What is written down of the condition.
fn save_condition(cat: &Catalog, cond: &Condition) -> (saved: SavedCondition)
    requires
        condition_refers(cat, cond),
    ensures
        condition_saved(cat, cond, &saved),
{
    let mut groups: Vec<SavedConditionGroup> = Vec::new();
    let mut k: usize = 0;
    while k < cond.groups.len()
        invariant
            k <= cond.groups.len(),
            groups@.len() == k,
            condition_refers(cat, cond),
            forall|j: int|
                0 <= j < k ==> group_saved(cat, &cond.groups@[j], #[trigger] &groups@[j]),
        decreases cond.groups.len() - k,
    {
        groups.push(save_group(cat, &cond.groups[k]));
        k += 1;
    }
    SavedCondition { rarity: cond.rarity, groups }
}

/// The group that was written down, or the name of a modifier that the
/// catalog has not.
fn restore_group(cat: &Catalog, saved: &SavedConditionGroup) -> (read: Result<
    ConditionGroup,
    DecodeError,
>)
    requires
        cat.wf(),
        named(cat),
    ensures
        match read {
            Ok(group) => group_saved(cat, &group, saved),
            Err(DecodeError::UnknownModifier(name)) => group_names(saved, name@)
                && !cat.mods.names().contains_key(name@),
            Err(_) => false,
        },
{
    proof {
        cat.mods.lemma_wf();
    }
    match saved {
        SavedConditionGroup::Count { count, mods } => {
            let mut read: Vec<ModifierCondition> = Vec::new();
            let mut j: usize = 0;
            while j < mods.len()
                invariant
                    j <= mods.len(),
                    read@.len() == j,
                    cat.wf(),
                    named(cat),
                    saved matches SavedConditionGroup::Count { count: c, mods: m } && m@ == mods@,
                    forall|k: int|
                        0 <= k < j ==> modifier_condition_saved(
                            cat,
                            #[trigger] &read@[k],
                            &mods@[k],
                        ),
                decreases mods.len() - j,
            {
                let name = &mods[j].mod_group;
                match cat.mods.get_opaque(name.as_str()) {
                    None => {
                        assert(mods@[j as int].mod_group@ == name@);
                        return Err(DecodeError::UnknownModifier(name.clone()));
                    },
                    Some(mod_group) => {
                        proof {
                            lemma_named_modifier(cat, name@);
                        }
                        read.push(
                            ModifierCondition { mod_group, levels: copy_levels(&mods[j].levels) },
                        );
                    },
                }
                j += 1;
            }
            Ok(ConditionGroup::Count { count: copy_range(count), mods: read })
        },
        SavedConditionGroup::Not(names) => {
            let mut read: Vec<OpaqueIndex<Modifier>> = Vec::new();
            let mut j: usize = 0;
            while j < names.len()
                invariant
                    j <= names.len(),
                    read@.len() == j,
                    cat.wf(),
                    named(cat),
                    saved matches SavedConditionGroup::Not(n) && n@ == names@,
                    forall|k: int|
                        0 <= k < j ==> 0 <= (#[trigger] read@[k])@ < cat.mods.values().len()
                            && names@[k]@ == cat.mods.values()[read@[k]@].group@,
                decreases names.len() - j,
            {
                let name = &names[j];
                match cat.mods.get_opaque(name.as_str()) {
                    None => {
                        assert(names@[j as int]@ == name@);
                        return Err(DecodeError::UnknownModifier(name.clone()));
                    },
                    Some(mod_group) => {
                        proof {
                            lemma_named_modifier(cat, name@);
                        }
                        read.push(mod_group);
                    },
                }
                j += 1;
            }
            Ok(ConditionGroup::Not(read))
        },
        SavedConditionGroup::AffixCount { suffixes, prefixes, affixes } => Ok(
            ConditionGroup::AffixCount {
                suffixes: copy_range(suffixes),
                prefixes: copy_range(prefixes),
                affixes: copy_range(affixes),
            },
        ),
    }
}

/// The condition that was written down, or the name of a modifier that
/// the catalog has not.
fn restore_condition(cat: &Catalog, saved: &SavedCondition) -> (read: Result<Condition, DecodeError>)
    requires
        cat.wf(),
        named(cat),
    ensures
        match read {
            Ok(condition) => condition_saved(cat, &condition, saved),
            Err(DecodeError::UnknownModifier(name)) => !cat.mods.names().contains_key(name@)
                && exists|g: int|
                0 <= g < saved.groups@.len() && group_names(#[trigger] &saved.groups@[g], name@),
            Err(_) => false,
        },
{
    let mut groups: Vec<ConditionGroup> = Vec::new();
    let mut g: usize = 0;
    while g < saved.groups.len()
        invariant
            g <= saved.groups.len(),
            cat.wf(),
            named(cat),
            groups@.len() == g,
            forall|j: int|
                0 <= j < g ==> group_saved(cat, #[trigger] &groups@[j], &saved.groups@[j]),
        decreases saved.groups.len() - g,
    {
        match restore_group(cat, &saved.groups[g]) {
            Err(error) => {
                assert(group_names(&saved.groups@[g as int], error->UnknownModifier_0@));
                return Err(error);
            },
            Ok(group) => {
                groups.push(group);
            },
        }
        g += 1;
    }
    Ok(Condition { rarity: saved.rarity, groups })
}

/// Whether every tier of the catalog stands under its own id, and every
/// modifier under its own group.
pub fn check_names(cat: &Catalog) -> (ok: bool)
    ensures
        ok == named(cat),
{
    let n = cat.tiers.len();
    let mut i: usize = 0;
    while i < n
        invariant
            i <= n,
            n == cat.tiers.values().len(),
            forall|k: int|
                0 <= k < i ==> cat.tiers.names().contains_key((#[trigger] cat.tiers.values()[k]).id@)
                    && cat.tiers.names()[cat.tiers.values()[k].id@] == k,
        decreases n - i,
    {
        let tier = cat.tiers.get(OpaqueIndex::new(i));
        match cat.tiers.get_opaque(tier.id.as_str()) {
            None => {
                return false;
            },
            Some(at) => {
                if at.index() != i {
                    return false;
                }
            },
        }
        i += 1;
    }
    let m = cat.mods.len();
    let mut i: usize = 0;
    while i < m
        invariant
            i <= m,
            m == cat.mods.values().len(),
            forall|k: int|
                0 <= k < n ==> cat.tiers.names().contains_key((#[trigger] cat.tiers.values()[k]).id@)
                    && cat.tiers.names()[cat.tiers.values()[k].id@] == k,
            n == cat.tiers.values().len(),
            forall|k: int|
                0 <= k < i ==> cat.mods.names().contains_key(
                    (#[trigger] cat.mods.values()[k]).group@,
                ) && cat.mods.names()[cat.mods.values()[k].group@] == k,
        decreases m - i,
    {
        let modifier = cat.mods.get(OpaqueIndex::new(i));
        match cat.mods.get_opaque(modifier.group.as_str()) {
            None => {
                return false;
            },
            Some(at) => {
                if at.index() != i {
                    return false;
                }
            },
        }
        i += 1;
    }
    true
}

/// The place of the first of the currencies that has the name, if one has.
pub fn find_currency(currencies: &[CurrencyType], name: &String) -> (found: Option<usize>)
    ensures
        match found {
            Some(j) => j < currencies@.len() && currencies@[j as int].spec_name() == name@
                && forall|k: int| 0 <= k < j ==> (#[trigger] currencies@[k]).spec_name() != name@,
            None => forall|k: int|
                0 <= k < currencies@.len() ==> (#[trigger] currencies@[k]).spec_name() != name@,
        },
{
    let mut j: usize = 0;
    while j < currencies.len()
        invariant
            j <= currencies.len(),
            forall|k: int| 0 <= k < j ==> (#[trigger] currencies@[k]).spec_name() != name@,
        decreases currencies.len() - j,
    {
        let own = currencies[j].name().to_owned();
        if own == *name {
            return Some(j);
        }
        j += 1;
    }
    None
}

/// Every currency of the strategy is one of `currencies`.
pub open spec fn strategy_uses(strategy: &Strategy, currencies: Seq<CurrencyType>) -> bool {
    forall|k: int|
        0 <= k < strategy.0@.len() ==> match (#[trigger] strategy.0@[k]).1 {
            Some((omens, currency)) => exists|j: int|
                0 <= j < currencies.len() && (#[trigger] currencies[j]).same_as(&currency),
            None => true,
        }
}

impl SavedStrategy {
    /// The saved item has a tier of the id `id`.
    pub open spec fn names_tier(&self, id: Seq<char>) -> bool {
        exists|i: int| 0 <= i < self.base_item.mods@.len() && (#[trigger] self.base_item.mods@[i])@ == id
    }

    /// A rule of the saved strategy names the modifier `name`.
    pub open spec fn names_modifier(&self, name: Seq<char>) -> bool {
        exists|k: int, g: int|
            0 <= k < self.strategy@.len() && 0 <= g < self.strategy@[k].0.groups@.len()
                && group_names(#[trigger] &self.strategy@[k].0.groups@[g], name)
    }

    /// A rule of the saved strategy names the currency `name`.
    pub open spec fn names_currency(&self, name: Seq<char>) -> bool {
        exists|k: int|
            0 <= k < self.strategy@.len() && match (#[trigger] self.strategy@[k]).1 {
                Some((omens, currency)) => currency@ == name,
                None => false,
            }
    }

    /// Every name in what is saved is known: the tiers and the modifiers to
    /// the catalog, and the currencies as the name of one of `currencies`.
    pub open spec fn known(&self, cat: &Catalog, currencies: Seq<CurrencyType>) -> bool {
        &&& forall|id: Seq<char>| #[trigger]
            self.names_tier(id) ==> cat.tiers.names().contains_key(id)
        &&& forall|name: Seq<char>| #[trigger]
            self.names_modifier(name) ==> cat.mods.names().contains_key(name)
        &&& forall|name: Seq<char>| #[trigger]
            self.names_currency(name) ==> exists|j: int|
                0 <= j < currencies.len() && (#[trigger] currencies[j]).spec_name() == name
    }

    /// What is written down of the strategy and of the item.
    pub fn new(cat: &Catalog, base_item: &ItemState, strategy: &Strategy) -> (saved: SavedStrategy)
        requires
            base_item.wf(cat),
            strategy_refers(cat, strategy),
        ensures
            item_saved(cat, base_item, &saved.base_item),
            strategy_saved(cat, strategy, saved.strategy@),
            forall|currencies: Seq<CurrencyType>|
                named(cat) && strategy_uses(strategy, currencies) ==> #[trigger] saved.known(
                    cat,
                    currencies,
                ),
    {
        let mut mods: Vec<String> = Vec::new();
        let mut i: usize = 0;
        while i < base_item.mods.len()
            invariant
                i <= base_item.mods.len(),
                base_item.wf(cat),
                mods@.len() == i,
                forall|k: int|
                    0 <= k < i ==> (#[trigger] mods@[k])@ == cat.tier(base_item.mods@[k]).id@,
            decreases base_item.mods.len() - i,
        {
            mods.push(cat.get_tier(base_item.mods[i]).id.clone());
            i += 1;
        }
        let item = SavedItem {
            base_type: base_item.base_type.clone(),
            item_level: base_item.item_level,
            rarity: base_item.rarity,
            mods,
        };
        let mut rules: Vec<(SavedCondition, Option<(OmenSet, String)>)> = Vec::new();
        let mut k: usize = 0;
        while k < strategy.0.len()
            invariant
                k <= strategy.0.len(),
                rules@.len() == k,
                strategy_refers(cat, strategy),
                forall|j: int|
                    0 <= j < k ==> condition_saved(cat, &strategy.0@[j].0, &(#[trigger] rules@[j]).0)
                        && action_saved(strategy.0@[j].1, rules@[j].1),
            decreases strategy.0.len() - k,
        {
            assert(condition_refers(cat, &strategy.0@[k as int].0));
            let condition = save_condition(cat, &strategy.0[k].0);
            let action: Option<(OmenSet, String)> = match &strategy.0[k].1 {
                None => None,
                Some((omens, currency)) => Some((*omens, currency.name().to_owned())),
            };
            rules.push((condition, action));
            k += 1;
        }
        let saved = SavedStrategy { base_item: item, strategy: rules };
        proof {
            assert forall|currencies: Seq<CurrencyType>|
                named(cat) && strategy_uses(strategy, currencies) implies #[trigger] saved.known(
                cat,
                currencies,
            ) by {
                lemma_saved_known(cat, base_item, strategy, &saved, currencies);
            }
        }
        saved
    }

    /// The item and the strategy that were written down, with the tiers
    /// and the modifiers of the catalog and with `currencies`, or the
    /// first name that is not among them.
    pub fn restore(&self, cat: &Catalog, currencies: &[CurrencyType]) -> (read: Result<
        (ItemState, Strategy),
        DecodeError,
    >)
        requires
            cat.wf(),
            named(cat),
        ensures
            match read {
                Ok((item, strategy)) => {
                    &&& item.wf(cat)
                    &&& item_saved(cat, &item, &self.base_item)
                    &&& strategy_saved(cat, &strategy, self.strategy@)
                    &&& strategy_uses(&strategy, currencies@)
                },
                Err(DecodeError::UnknownTier(id)) => self.names_tier(id@)
                    && !cat.tiers.names().contains_key(id@),
                Err(DecodeError::UnknownModifier(name)) => self.names_modifier(name@)
                    && !cat.mods.names().contains_key(name@),
                Err(DecodeError::UnknownCurrency(name)) => self.names_currency(name@) && forall|
                    j: int,
                |
                    0 <= j < currencies@.len() ==> (#[trigger] currencies@[j]).spec_name() != name@,
            },
            self.known(cat, currencies@) ==> read is Ok,
    {
        let mut mods: Vec<OpaqueIndex<Tier>> = Vec::new();
        let mut i: usize = 0;
        while i < self.base_item.mods.len()
            invariant
                i <= self.base_item.mods.len(),
                cat.wf(),
                named(cat),
                mods@.len() == i,
                forall|k: int|
                    0 <= k < i ==> cat.has_tier(#[trigger] mods@[k]) && self.base_item.mods@[k]@
                        == cat.tier(mods@[k]).id@,
            decreases self.base_item.mods.len() - i,
        {
            let id = &self.base_item.mods[i];
            match cat.tiers.get_opaque(id.as_str()) {
                None => {
                    assert(self.base_item.mods@[i as int]@ == id@);
                    assert(self.names_tier(id@));
                    return Err(DecodeError::UnknownTier(id.clone()));
                },
                Some(t) => {
                    proof {
                        lemma_named_tier(cat, id@);
                    }
                    mods.push(t);
                },
            }
            i += 1;
        }
        let item = ItemState {
            base_type: self.base_item.base_type.clone(),
            item_level: self.base_item.item_level,
            rarity: self.base_item.rarity,
            mods,
        };
        let mut rules: Vec<(Condition, Option<(OmenSet, CurrencyType)>)> = Vec::new();
        let mut k: usize = 0;
        while k < self.strategy.len()
            invariant
                k <= self.strategy.len(),
                cat.wf(),
                named(cat),
                rules@.len() == k,
                forall|j: int|
                    0 <= j < k ==> condition_saved(cat, &(#[trigger] rules@[j]).0, &self.strategy@[j].0)
                        && action_saved(rules@[j].1, self.strategy@[j].1),
                forall|j: int|
                    0 <= j < k ==> match (#[trigger] rules@[j]).1 {
                        Some((omens, currency)) => exists|c: int|
                            0 <= c < currencies@.len() && (#[trigger] currencies@[c]).same_as(
                                &currency,
                            ),
                        None => true,
                    },
            decreases self.strategy.len() - k,
        {
            let condition = match restore_condition(cat, &self.strategy[k].0) {
                Err(error) => {
                    proof {
                        let name = error->UnknownModifier_0@;
                        let g = choose|g: int|
                            0 <= g < self.strategy@[k as int].0.groups@.len() && group_names(
                                #[trigger] &self.strategy@[k as int].0.groups@[g],
                                name,
                            );
                        assert(group_names(&self.strategy@[k as int].0.groups@[g], name));
                        assert(self.names_modifier(name));
                    }
                    return Err(error);
                },
                Ok(condition) => condition,
            };
            let action: Option<(OmenSet, CurrencyType)> = match &self.strategy[k].1 {
                None => None,
                Some((omens, name)) => match find_currency(currencies, name) {
                    None => {
                        assert(self.strategy@[k as int].1 matches Some((o, n)) && n@ == name@);
                        assert(self.names_currency(name@));
                        return Err(DecodeError::UnknownCurrency(name.clone()));
                    },
                    Some(c) => {
                        let currency = currencies[c].clone();
                        proof {
                            currencies@[c as int].lemma_same_as(cat, &currency);
                        }
                        Some((*omens, currency))
                    },
                },
            };
            rules.push((condition, action));
            k += 1;
        }
        let strategy = Strategy(rules);
        Ok((item, strategy))
    }
}

/// What is written down of an item and a strategy names only what is
/// known, so it is read again without an error: the tiers and the modifiers
/// by the catalog, and the currencies by any list that holds those of the
/// strategy.
pub proof fn lemma_saved_known(
    cat: &Catalog,
    item: &ItemState,
    strategy: &Strategy,
    saved: &SavedStrategy,
    currencies: Seq<CurrencyType>,
)
    requires
        named(cat),
        item_saved(cat, item, &saved.base_item),
        strategy_saved(cat, strategy, saved.strategy@),
        strategy_uses(strategy, currencies),
    ensures
        saved.known(cat, currencies),
{
    assert forall|id: Seq<char>| #[trigger] saved.names_tier(id) implies cat.tiers.names().contains_key(
        id,
    ) by {
        let i = choose|i: int|
            0 <= i < saved.base_item.mods@.len() && (#[trigger] saved.base_item.mods@[i])@ == id;
        assert(cat.has_tier(item.mods@[i]));
        assert(cat.tiers.values()[item.mods@[i]@].id@ == id);
    }
    assert forall|name: Seq<char>| #[trigger]
        saved.names_modifier(name) implies cat.mods.names().contains_key(name) by {
        let (k, g) = choose|k: int, g: int|
            0 <= k < saved.strategy@.len() && 0 <= g < saved.strategy@[k].0.groups@.len()
                && group_names(#[trigger] &saved.strategy@[k].0.groups@[g], name);
        let cond = strategy.0@[k].0;
        assert(condition_saved(cat, &cond, &saved.strategy@[k].0));
        assert(group_saved(cat, &cond.groups@[g], &saved.strategy@[k].0.groups@[g]));
        match (cond.groups@[g], saved.strategy@[k].0.groups@[g]) {
            (
                ConditionGroup::Count { count, mods },
                SavedConditionGroup::Count { count: saved_count, mods: saved_mods },
            ) => {
                let j = choose|j: int|
                    0 <= j < saved_mods@.len() && (#[trigger] saved_mods@[j]).mod_group@ == name;
                assert(modifier_condition_saved(cat, &mods@[j], &saved_mods@[j]));
                assert(cat.mods.values()[mods@[j].mod_group@].group@ == name);
            },
            (ConditionGroup::Not(mods), SavedConditionGroup::Not(groups)) => {
                let j = choose|j: int| 0 <= j < groups@.len() && (#[trigger] groups@[j])@ == name;
                assert(cat.mods.values()[mods@[j]@].group@ == name);
            },
            _ => {},
        }
    }
    assert forall|name: Seq<char>| #[trigger] saved.names_currency(name) implies exists|j: int|
        0 <= j < currencies.len() && (#[trigger] currencies[j]).spec_name() == name by {
        let k = choose|k: int|
            0 <= k < saved.strategy@.len() && match (#[trigger] saved.strategy@[k]).1 {
                Some((omens, currency)) => currency@ == name,
                None => false,
            };
        assert(action_saved(strategy.0@[k].1, saved.strategy@[k].1));
        match strategy.0@[k].1 {
            Some((omens, currency)) => {
                let j = choose|j: int|
                    0 <= j < currencies.len() && (#[trigger] currencies[j]).same_as(&currency);
                currencies[j].lemma_same_as(cat, &currency);
            },
            None => {},
        }
    }
}

} // verus!
