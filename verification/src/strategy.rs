//! Strategies: ordered rules that tell, from the state of an item, which
//! currency to use next, or that the item is finished.

use crate::catalog::Catalog;
use crate::currency::{CraftError, Currency, CurrencyType};
use crate::hashvec::OpaqueIndex;
use crate::item_state::{affix_count, within_level, ItemState, Rarity};
use crate::types::{Affix, Modifier, OmenSet, Tier};
use crate::util::seqs::{lemma_filter_push, lemma_take_step};
use std::ops::RangeInclusive;
use vstd::prelude::*;

verus! {

/// `RangeInclusive::clone`, which duplicates the range: the copy has clones
/// of the two bounds, and is exhausted where the range is.
pub assume_specification<Idx: Clone>[ <RangeInclusive<Idx> as Clone>::clone ](
    range: &RangeInclusive<Idx>,
) -> (copy: RangeInclusive<Idx>)
    ensures
        cloned(range@.start, copy@.start),
        cloned(range@.end, copy@.end),
        copy@.exhausted == range@.exhausted,
;

/// `n` lies in the range.
pub open spec fn in_range(range: RangeInclusive<usize>, n: int) -> bool {
    range@.start <= n && if range@.exhausted {
        n < range@.end
    } else {
        n <= range@.end
    }
}

/// Whether `n` lies in the range.
pub fn within(range: &RangeInclusive<usize>, n: usize) -> (b: bool)
    ensures
        b == in_range(*range, n as int),
{
    range.contains(&n)
}

/// A modifier at one of some levels.
#[derive(Clone, Debug)]
pub struct ModifierCondition {
    pub mod_group: OpaqueIndex<Modifier>,
    pub levels: Vec<u32>,
}

impl ModifierCondition {
    /// `tier` is a tier of the modifier, at one of the levels.
    pub open spec fn met_by(&self, tier: &Tier) -> bool {
        tier.mod_id@ == self.mod_group@ && self.levels@.contains(tier.ilvl)
    }

    /// One of `mods` meets the condition.
    pub open spec fn met_on(&self, cat: &Catalog, mods: Seq<OpaqueIndex<Tier>>) -> bool {
        exists|i: int| 0 <= i < mods.len() && self.met_by(&cat.tier(#[trigger] mods[i]))
    }

    /// Whether `tier` is a tier of the modifier, at one of the levels.
    pub fn check(&self, tier: &Tier) -> (met: bool)
        ensures
            met == self.met_by(tier),
    {
        if tier.mod_id.index() != self.mod_group.index() {
            return false;
        }
        let mut k: usize = 0;
        while k < self.levels.len()
            invariant
                k <= self.levels.len(),
                tier.mod_id@ == self.mod_group@,
                forall|j: int| 0 <= j < k ==> self.levels@[j] != tier.ilvl,
            decreases self.levels.len() - k,
        {
            if self.levels[k] == tier.ilvl {
                assert(self.levels@[k as int] == tier.ilvl);
                return true;
            }
            k += 1;
        }
        false
    }

    /// Whether one of the item's modifiers meets the condition.
    pub fn check_item(&self, cat: &Catalog, item: &ItemState) -> (met: bool)
        requires
            item.wf(cat),
        ensures
            met == self.met_on(cat, item.mods@),
    {
        let mut i: usize = 0;
        while i < item.mods.len()
            invariant
                i <= item.mods.len(),
                item.wf(cat),
                forall|j: int| 0 <= j < i ==> !self.met_by(&cat.tier(#[trigger] item.mods@[j])),
            decreases item.mods.len() - i,
        {
            if self.check(cat.get_tier(item.mods[i])) {
                return true;
            }
            i += 1;
        }
        false
    }
}

/// The test "is met on an item with the modifiers `mods`".
pub open spec fn met_on(cat: &Catalog, mods: Seq<OpaqueIndex<Tier>>) -> spec_fn(
    ModifierCondition,
) -> bool {
    |cond: ModifierCondition| cond.met_on(cat, mods)
}

/// One of `mods` is a tier of the modifier at the position `group`.
pub open spec fn has_modifier(cat: &Catalog, mods: Seq<OpaqueIndex<Tier>>, group: int) -> bool {
    exists|i: int| 0 <= i < mods.len() && cat.group_of(#[trigger] mods[i]) == group
}

/// One thing that a condition asks of an item.
#[derive(Clone, Debug)]
pub enum ConditionGroup {
    /// As many of the conditions are met as `count` says.
    Count { count: RangeInclusive<usize>, mods: Vec<ModifierCondition> },
    /// The item has none of these modifiers.
    Not(Vec<OpaqueIndex<Modifier>>),
    /// The item has as many suffixes, prefixes, and both together, as the
    /// ranges say.
    AffixCount {
        suffixes: RangeInclusive<usize>,
        prefixes: RangeInclusive<usize>,
        affixes: RangeInclusive<usize>,
    },
}

/// An item has at most as many prefixes and suffixes together as it has
/// modifiers.
pub proof fn lemma_affixes_fit(cat: &Catalog, mods: Seq<OpaqueIndex<Tier>>)
    ensures
        affix_count(cat, mods, Affix::Prefix) + affix_count(cat, mods, Affix::Suffix) <= mods.len(),
    decreases mods.len(),
{
    reveal(Seq::filter);
    if mods.len() > 0 {
        lemma_affixes_fit(cat, mods.drop_last());
    }
}

impl ConditionGroup {
    /// The item is as the group asks.
    pub open spec fn holds(&self, cat: &Catalog, item: &ItemState) -> bool {
        match self {
            ConditionGroup::Count { count, mods } => in_range(
                *count,
                mods@.filter(met_on(cat, item.mods@)).len() as int,
            ),
            ConditionGroup::Not(groups) => forall|k: int|
                0 <= k < groups@.len() ==> !has_modifier(cat, item.mods@, (#[trigger] groups@[k])@),
            ConditionGroup::AffixCount { suffixes, prefixes, affixes } => {
                let p = affix_count(cat, item.mods@, Affix::Prefix);
                let s = affix_count(cat, item.mods@, Affix::Suffix);
                in_range(*prefixes, p as int) && in_range(*suffixes, s as int) && in_range(
                    *affixes,
                    (p + s) as int,
                )
            },
        }
    }

    /// Whether the item is as the group asks.
    pub fn check(&self, cat: &Catalog, item: &ItemState) -> (holds: bool)
        requires
            item.wf(cat),
        ensures
            holds == self.holds(cat, item),
    {
        match self {
            ConditionGroup::Count { count, mods } => {
                let mut passed: usize = 0;
                let mut k: usize = 0;
                assert(mods@.take(0).filter(met_on(cat, item.mods@)).len() == 0) by {
                    reveal(Seq::filter);
                }
                while k < mods.len()
                    invariant
                        k <= mods.len(),
                        item.wf(cat),
                        passed == mods@.take(k as int).filter(met_on(cat, item.mods@)).len(),
                        passed <= k,
                    decreases mods.len() - k,
                {
                    proof {
                        lemma_take_step(mods@, k as int);
                        lemma_filter_push(
                            mods@.take(k as int),
                            mods@[k as int],
                            met_on(cat, item.mods@),
                        );
                    }
                    if mods[k].check_item(cat, item) {
                        passed += 1;
                    }
                    k += 1;
                }
                assert(mods@.take(mods.len() as int) =~= mods@);
                within(count, passed)
            },
            ConditionGroup::Not(groups) => {
                let mut k: usize = 0;
                while k < groups.len()
                    invariant
                        k <= groups.len(),
                        *self == ConditionGroup::Not(*groups),
                        item.wf(cat),
                        forall|j: int|
                            0 <= j < k ==> !has_modifier(cat, item.mods@, (#[trigger] groups@[j])@),
                    decreases groups.len() - k,
                {
                    let group = groups[k].index();
                    let mut i: usize = 0;
                    while i < item.mods.len()
                        invariant
                            i <= item.mods.len(),
                            k < groups.len(),
                            *self == ConditionGroup::Not(*groups),
                            group == groups@[k as int]@,
                            item.wf(cat),
                            forall|j: int|
                                0 <= j < i ==> cat.group_of(#[trigger] item.mods@[j]) != group,
                        decreases item.mods.len() - i,
                    {
                        if cat.get_tier(item.mods[i]).mod_id.index() == group {
                            assert(has_modifier(cat, item.mods@, groups@[k as int]@));
                            assert(self matches ConditionGroup::Not(g) && g@ == groups@);
                            return false;
                        }
                        i += 1;
                    }
                    k += 1;
                }
                true
            },
            ConditionGroup::AffixCount { suffixes, prefixes, affixes } => {
                let item_prefixes = item.num_prefixes(cat);
                let item_suffixes = item.num_suffixes(cat);
                let n = item.mods.len();
                proof {
                    lemma_affixes_fit(cat, item.mods@);
                }
                assert(item_prefixes + item_suffixes <= n);
                let both = item_prefixes + item_suffixes;
                within(prefixes, item_prefixes) && within(suffixes, item_suffixes) && within(
                    affixes,
                    both,
                )
            },
        }
    }
}

/// A state of an item: its rarity, and what all the groups ask.
#[derive(Clone, Debug)]
pub struct Condition {
    pub rarity: Rarity,
    pub groups: Vec<ConditionGroup>,
}

impl Condition {
    /// The item is in the state.
    pub open spec fn holds(&self, cat: &Catalog, item: &ItemState) -> bool {
        item.rarity == self.rarity && forall|k: int|
            0 <= k < self.groups@.len() ==> (#[trigger] self.groups@[k]).holds(cat, item)
    }

    /// Whether the item is in the state.
    pub fn check(&self, cat: &Catalog, item: &ItemState) -> (holds: bool)
        requires
            item.wf(cat),
        ensures
            holds == self.holds(cat, item),
    {
        if item.rarity != self.rarity {
            return false;
        }
        let mut k: usize = 0;
        while k < self.groups.len()
            invariant
                k <= self.groups.len(),
                item.wf(cat),
                forall|j: int| 0 <= j < k ==> (#[trigger] self.groups@[j]).holds(cat, item),
            decreases self.groups.len() - k,
        {
            if !self.groups[k].check(cat, item) {
                return false;
            }
            k += 1;
        }
        true
    }
}

/// Rules in the order in which they are tried: a state, and either the
/// omens and the currency to use on an item in that state, or nothing, where
/// an item in that state is finished.
#[derive(Clone, Debug)]
pub struct Strategy(pub Vec<(Condition, Option<(OmenSet, CurrencyType)>)>);

/// What one step of a strategy came to.
#[derive(Debug)]
pub enum Step {
    /// No rule is for an item in this state.
    NoMatchingState,
    /// The rule at `rule` says that the item is finished.
    Finished { rule: usize },
    /// The currency of the rule at `rule` cannot be used on the item.
    InvalidCraft { rule: usize },
    /// The currency of the rule at `rule` was used on the item. `done` is
    /// what its use returned.
    Crafted { rule: usize, done: Result<(), CraftError> },
}

impl Strategy {
    /// Every currency of the strategy is of the catalog.
    pub open spec fn wf(&self, cat: &Catalog) -> bool {
        forall|k: int|
            0 <= k < self.0@.len() ==> match (#[trigger] self.0@[k]).1 {
                Some((omens, currency)) => currency.wf(cat),
                None => true,
            }
    }

    /// Whether every currency of the strategy is of the catalog.
    pub fn is_wf(&self, cat: &Catalog) -> (wf: bool)
        ensures
            wf == self.wf(cat),
    {
        let mut k: usize = 0;
        while k < self.0.len()
            invariant
                k <= self.0.len(),
                forall|j: int|
                    0 <= j < k ==> match (#[trigger] self.0@[j]).1 {
                        Some((omens, currency)) => currency.wf(cat),
                        None => true,
                    },
            decreases self.0.len() - k,
        {
            match &self.0[k].1 {
                Some((omens, currency)) => {
                    if !currency.is_wf(cat) {
                        return false;
                    }
                },
                None => {},
            }
            k += 1;
        }
        true
    }

    /// `found` is the first rule whose state the item is in, or nothing
    /// where it is in the state of none.
    pub open spec fn selects(&self, cat: &Catalog, item: &ItemState, found: Option<usize>) -> bool {
        match found {
            Some(i) => {
                &&& i < self.0@.len()
                &&& self.0@[i as int].0.holds(cat, item)
                &&& forall|j: int| 0 <= j < i ==> !(#[trigger] self.0@[j]).0.holds(cat, item)
            },
            None => forall|j: int| 0 <= j < self.0@.len() ==> !(#[trigger] self.0@[j]).0.holds(
                cat,
                item,
            ),
        }
    }

    /// A strategy selects one thing only for an item: the rule found for it
    /// is the same whenever it is asked for.
    pub proof fn lemma_selects_one(
        &self,
        cat: &Catalog,
        item: &ItemState,
        first: Option<usize>,
        second: Option<usize>,
    )
        requires
            self.selects(cat, item, first),
            self.selects(cat, item, second),
        ensures
            first == second,
    {
        match (first, second) {
            (Some(i), Some(j)) => {
                if i < j {
                    assert(!self.0@[i as int].0.holds(cat, item));
                }
                if j < i {
                    assert(!self.0@[j as int].0.holds(cat, item));
                }
            },
            (Some(i), None) => {
                assert(!self.0@[i as int].0.holds(cat, item));
            },
            (None, Some(j)) => {
                assert(!self.0@[j as int].0.holds(cat, item));
            },
            (None, None) => {},
        }
    }

    /// The place of the first rule whose state the item is in, if it is in
    /// the state of any.
    pub fn get(&self, cat: &Catalog, item: &ItemState) -> (found: Option<usize>)
        requires
            item.wf(cat),
        ensures
            self.selects(cat, item, found),
    {
        let mut i: usize = 0;
        while i < self.0.len()
            invariant
                i <= self.0.len(),
                item.wf(cat),
                forall|j: int| 0 <= j < i ==> !(#[trigger] self.0@[j]).0.holds(cat, item),
            decreases self.0.len() - i,
        {
            if self.0[i].0.check(cat, item) {
                return Some(i);
            }
            i += 1;
        }
        None
    }

    /// What to use on the item in its state: the omens and the currency of
    /// the first rule for that state, or nothing where the rule says that
    /// the item is finished. Where no rule is for the state, that is told.
    pub fn get_craft(&self, cat: &Catalog, item: &ItemState) -> (craft: Result<
        Option<&(OmenSet, CurrencyType)>,
        NoMatchingState,
    >)
        requires
            item.wf(cat),
        ensures
            match craft {
                Ok(action) => exists|i: usize|
                    self.selects(cat, item, Some(i)) && match action {
                        Some(pair) => self.0@[i as int].1 == Some(*pair),
                        None => self.0@[i as int].1 is None,
                    },
                Err(_) => self.selects(cat, item, None),
            },
    {
        match self.get(cat, item) {
            None => Err(NoMatchingState),
            Some(i) => Ok(self.0[i].1.as_ref()),
        }
    }

    /// One step of the strategy: finds the rule for the item's state, and
    /// uses its currency on the item if it can be used.
    pub fn step(&self, cat: &Catalog, item: &mut ItemState, candidate_tiers: &[OpaqueIndex<Tier>]) -> (step:
        Step)
        requires
            cat.wf(),
            self.wf(cat),
            old(item).wf(cat),
            cat.has_tiers(candidate_tiers@),
        ensures
            final(item).wf(cat),
            match step {
                Step::NoMatchingState => {
                    &&& self.selects(cat, old(item), None)
                    &&& *final(item) == *old(item)
                },
                Step::Finished { rule } => {
                    &&& self.selects(cat, old(item), Some(rule))
                    &&& self.0@[rule as int].1 is None
                    &&& *final(item) == *old(item)
                },
                Step::InvalidCraft { rule } => {
                    &&& self.selects(cat, old(item), Some(rule))
                    &&& self.0@[rule as int].1 matches Some((omens, currency))
                    &&& !currency.usable(cat, old(item), candidate_tiers@, omens)
                    &&& *final(item) == *old(item)
                },
                Step::Crafted { rule, done } => {
                    &&& self.selects(cat, old(item), Some(rule))
                    &&& self.0@[rule as int].1 matches Some((omens, currency))
                    &&& currency.usable(cat, old(item), candidate_tiers@, omens)
                    &&& currency.crafts(
                        cat,
                        old(item),
                        candidate_tiers@,
                        omens,
                        final(item),
                        done is Ok,
                    )
                    &&& old(item).rarity.rank() <= final(item).rarity.rank()
                    &&& old(item).valid(cat) && within_level(
                        cat,
                        candidate_tiers@,
                        old(item).item_level,
                    ) && currency.sound_on(cat, old(item), candidate_tiers@, omens)
                        ==> final(item).valid(cat)
                },
            },
    {
        let rule = match self.get(cat, item) {
            None => {
                return Step::NoMatchingState;
            },
            Some(rule) => rule,
        };
        match &self.0[rule].1 {
            None => Step::Finished { rule },
            Some((omens, currency)) => {
                if !currency.can_be_used(cat, item, candidate_tiers, omens) {
                    return Step::InvalidCraft { rule };
                }
                let done = currency.craft(cat, item, candidate_tiers, omens);
                Step::Crafted { rule, done }
            },
        }
    }
}

/// No rule of the strategy is for the state of the item.
#[derive(Debug, Clone, Copy, PartialEq, Eq, Structural)]
pub struct NoMatchingState;

/// Counts one more step from the rule at `from` to the rule at `to`, if
/// there was a rule before.
pub fn record_transition(transitions: &mut Vec<Vec<usize>>, from: Option<usize>, to: usize)
    ensures
        final(transitions)@.len() == old(transitions)@.len(),
        forall|r: int, c: int|
            0 <= r < old(transitions)@.len() && 0 <= c < old(transitions)@[r]@.len() ==> {
                &&& final(transitions)@[r]@.len() == old(transitions)@[r]@.len()
                &&& #[trigger] final(transitions)@[r]@[c] == if from == Some(r as usize) && c == to
                    && old(transitions)@[r]@[c] < usize::MAX {
                    (old(transitions)@[r]@[c] + 1) as usize
                } else {
                    old(transitions)@[r]@[c]
                }
            },
{
    if let Some(prev) = from {
        if prev < transitions.len() && to < transitions[prev].len() {
            let count = transitions[prev][to];
            if count < usize::MAX {
                let mut row = transitions[prev].clone();
                row.set(to, count + 1);
                transitions.set(prev, row);
            }
        }
    }
}

} // verus!
