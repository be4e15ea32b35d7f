//! The tables of the game's data files, and how the tiers, the modifiers
//! and the essences of the catalog are made from them.

#![allow(non_snake_case)]

use crate::currency::essence::{lists_base, tiers_for, Essence, EssenceTiers, PerfectEssence};
use crate::currency::steps::copy_pool;
use crate::currency::CurrencyType;
use crate::hashvec::{HashVec, OpaqueIndex};
use crate::item_state::{contains_text, each_once, lemma_lists_push, lists};
use crate::types::{Affix, ModType, Modifier, Tier};
use crate::util::text::{begins_with, ends_with, ends_with_text, starts_with};
use vstd::hash_set::StringHashSet;
use vstd::prelude::*;

verus! {

/// A row of the table of tiers.
#[derive(Debug, Clone)]
pub struct ModsRecord {
    pub Id: String,
    /// The row of the modifier in the table of modifiers.
    pub ModType: usize,
    pub Domain: usize,
    /// Rows of the table of families; the first is the family.
    pub Families: Vec<usize>,
    /// Rows of the table of tags.
    pub ImplicitTags: Vec<usize>,
    /// 1 for a prefix, 2 for a suffix.
    pub GenerationType: u32,
    pub Level: u32,
    pub Name: String,
    /// Rows of the table of stats.
    pub Stat1: Option<usize>,
    pub Stat2: Option<usize>,
    pub Stat3: Option<usize>,
    pub Stat4: Option<usize>,
    pub Stat1Value: [i32; 2],
    pub Stat2Value: [i32; 2],
    pub Stat3Value: [i32; 2],
    pub Stat4Value: [i32; 2],
}

/// A row of the table of modifiers.
#[derive(Debug, Clone)]
pub struct ModTypeRecord {
    pub Name: String,
}

/// A row of the table of families.
#[derive(Debug, Clone)]
pub struct ModFamilyRecord {
    pub Id: String,
}

/// A row of the table of stats.
#[derive(Debug, Clone)]
pub struct StatRecord {
    pub Id: String,
}

/// A row of the table of base items.
#[derive(Debug, Clone)]
pub struct BaseItemTypesRecord {
    pub Name: String,
    pub ItemClass: usize,
    pub ModDomain: usize,
}

/// A row of the table of item classes.
#[derive(Debug, Clone)]
pub struct ItemClassesRecord {
    pub Id: String,
}

/// A row of the table of tags.
#[derive(Debug, Clone)]
pub struct TagsRecord {
    pub Id: String,
    pub DisplayString: Option<String>,
}

/// A row of the table of essences.
#[derive(Debug, Clone)]
pub struct EssencesRecord {
    /// The row of the essence in the table of base items.
    pub BaseItemType: usize,
}

/// A row of the table of what essences are for.
#[derive(Debug, Clone)]
pub struct EssenceTargetItemCategoriesRecord {
    /// Rows of the table of item classes.
    pub ItemClasses: Vec<usize>,
}

/// A row of the table of essence modifiers: what an essence gives on the
/// items of a category.
#[derive(Debug, Clone)]
pub struct EssenceModsRecord {
    /// The row of the essence in the table of essences.
    pub Essence: usize,
    /// The row in the table of target categories.
    pub TargetItemCategory: usize,
    /// The row of the one tier that the essence gives, if it gives one.
    pub Mod1: Option<usize>,
    /// The tier that is shown on an essence that gives one of several.
    pub DisplayMod: Option<usize>,
    /// The rows of the tiers that the essence gives one of.
    pub OutcomeMods: Vec<usize>,
}

/// The tables.
pub struct Dats {
    pub mods: Vec<ModsRecord>,
    pub mod_type: Vec<ModTypeRecord>,
    pub mod_family: Vec<ModFamilyRecord>,
    pub stats: Vec<StatRecord>,
    pub base_item_types: Vec<BaseItemTypesRecord>,
    pub item_classes: Vec<ItemClassesRecord>,
    pub tags: Vec<TagsRecord>,
    pub essences: Vec<EssencesRecord>,
    pub essence_target_item_categories: Vec<EssenceTargetItemCategoriesRecord>,
    pub essence_mods: Vec<EssenceModsRecord>,
}

/// The affix that a generation type stands for.
pub open spec fn generation_affix(generation: u32) -> Affix {
    if generation == 1 {
        Affix::Prefix
    } else if generation == 2 {
        Affix::Suffix
    } else {
        Affix::Corrupted
    }
}

/// The row of the family of a tier: the first of its families, or the first
/// row where it has none.
pub open spec fn family_row(row: &ModsRecord) -> int {
    if row.Families@.len() > 0 {
        row.Families@[0] as int
    } else {
        0
    }
}

/// A stat of a row with its range, if the stat is given.
pub open spec fn given_stat(stat: Option<usize>, range: [i32; 2]) -> Seq<(usize, [i32; 2])> {
    match stat {
        Some(stat) => seq![(stat, range)],
        None => seq![],
    }
}

/// The stats of a row that are given, with their ranges, in their order.
pub open spec fn row_stats(row: &ModsRecord) -> Seq<(usize, [i32; 2])> {
    given_stat(row.Stat1, row.Stat1Value) + given_stat(row.Stat2, row.Stat2Value) + given_stat(
        row.Stat3,
        row.Stat3Value,
    ) + given_stat(row.Stat4, row.Stat4Value)
}

impl Dats {
    /// The row of tiers points to rows that the other tables have.
    pub open spec fn row_ok(&self, row: &ModsRecord) -> bool {
        &&& row.ModType < self.mod_type@.len()
        &&& family_row(row) < self.mod_family@.len()
        &&& forall|k: int|
            0 <= k < row.ImplicitTags@.len() ==> #[trigger] row.ImplicitTags@[k] < self.tags@.len()
        &&& row.Stat1 matches Some(s) ==> s < self.stats@.len()
        &&& row.Stat2 matches Some(s) ==> s < self.stats@.len()
        &&& row.Stat3 matches Some(s) ==> s < self.stats@.len()
        &&& row.Stat4 matches Some(s) ==> s < self.stats@.len()
    }

    /// The table of tiers can be read: every row points to rows that the
    /// other tables have, and no id is that of two rows.
    pub open spec fn tiers_ok(&self) -> bool {
        &&& forall|i: int| 0 <= i < self.mods@.len() ==> self.row_ok(#[trigger] &self.mods@[i])
        &&& forall|i: int, j: int|
            0 <= i < j < self.mods@.len() ==> (#[trigger] self.mods@[i]).Id@ != (
            #[trigger] self.mods@[j]).Id@
    }

    /// Whether the row of tiers points to rows that the other tables have.
    pub fn check_row(&self, row: &ModsRecord) -> (ok: bool)
        ensures
            ok == self.row_ok(row),
    {
        if row.ModType >= self.mod_type.len() {
            return false;
        }
        let family: usize = if row.Families.len() > 0 {
            row.Families[0]
        } else {
            0
        };
        if family >= self.mod_family.len() {
            return false;
        }
        let mut k: usize = 0;
        while k < row.ImplicitTags.len()
            invariant
                k <= row.ImplicitTags.len(),
                forall|j: int| 0 <= j < k ==> #[trigger] row.ImplicitTags@[j] < self.tags@.len(),
            decreases row.ImplicitTags.len() - k,
        {
            if row.ImplicitTags[k] >= self.tags.len() {
                return false;
            }
            k += 1;
        }
        let n = self.stats.len();
        let ok1 = match row.Stat1 {
            Some(s) => s < n,
            None => true,
        };
        let ok2 = match row.Stat2 {
            Some(s) => s < n,
            None => true,
        };
        let ok3 = match row.Stat3 {
            Some(s) => s < n,
            None => true,
        };
        let ok4 = match row.Stat4 {
            Some(s) => s < n,
            None => true,
        };
        ok1 && ok2 && ok3 && ok4
    }

    /// Whether the table of tiers can be read.
    pub fn check_tiers(&self) -> (ok: bool)
        ensures
            ok == self.tiers_ok(),
    {
        let mut seen = StringHashSet::new();
        let mut i: usize = 0;
        while i < self.mods.len()
            invariant
                i <= self.mods.len(),
                forall|k: int| 0 <= k < i ==> self.row_ok(#[trigger] &self.mods@[k]),
                forall|a: int, b: int|
                    0 <= a < b < i ==> (#[trigger] self.mods@[a]).Id@ != (#[trigger] self.mods@[b]).Id@,
                forall|id: Seq<char>|
                    seen@.contains(id) <==> exists|k: int|
                        0 <= k < i && (#[trigger] self.mods@[k]).Id@ == id,
            decreases self.mods.len() - i,
        {
            if !self.check_row(&self.mods[i]) {
                return false;
            }
            let ghost before = seen@;
            let fresh = seen.insert(self.mods[i].Id.clone());
            if !fresh {
                proof {
                    let id = self.mods@[i as int].Id@;
                    assert(before.contains(id));
                    let k = choose|k: int| 0 <= k < i && (#[trigger] self.mods@[k]).Id@ == id;
                    assert(self.mods@[k].Id@ == self.mods@[i as int].Id@);
                }
                return false;
            }
            proof {
                assert forall|id: Seq<char>|
                    seen@.contains(id) <==> exists|k: int|
                        0 <= k < i + 1 && (#[trigger] self.mods@[k]).Id@ == id by {
                    if before.contains(id) {
                        let k = choose|k: int| 0 <= k < i && (#[trigger] self.mods@[k]).Id@ == id;
                        assert(0 <= k < i + 1 && self.mods@[k].Id@ == id);
                    }
                    if id == self.mods@[i as int].Id@ {
                        assert(0 <= i < i + 1 && self.mods@[i as int].Id@ == id);
                    }
                    if exists|k: int| 0 <= k < i + 1 && (#[trigger] self.mods@[k]).Id@ == id {
                        let k = choose|k: int|
                            0 <= k < i + 1 && (#[trigger] self.mods@[k]).Id@ == id;
                        if k < i {
                            assert(before.contains(id));
                        }
                    }
                }
                assert forall|a: int, b: int| 0 <= a < b < i + 1 implies (#[trigger] self.mods@[a]).Id@
                    != (#[trigger] self.mods@[b]).Id@ by {
                    if b == i {
                        if self.mods@[a].Id@ == self.mods@[b].Id@ {
                            assert(before.contains(self.mods@[b].Id@));
                        }
                    }
                }
            }
            i += 1;
        }
        true
    }
}

/// `tag` is shown for one of the tags of the row.
pub open spec fn row_has_tag(dats: &Dats, row: &ModsRecord, tag: Seq<char>) -> bool {
    exists|k: int|
        0 <= k < row.ImplicitTags@.len() && shown_as(
            dats.tags@[(#[trigger] row.ImplicitTags@[k]) as int].DisplayString,
            tag,
        )
}

/// The tag is shown, and as `tag`.
pub open spec fn shown_as(shown: Option<String>, tag: Seq<char>) -> bool {
    shown matches Some(text) && text@ == tag
}

/// The name of the modifier of the row.
pub open spec fn row_group(dats: &Dats, row: &ModsRecord) -> Seq<char> {
    dats.mod_type@[row.ModType as int].Name@
}

/// `tier` is the tier that the row describes, whatever its weight.
pub open spec fn tier_of_row(row: &ModsRecord, tier: &Tier) -> bool {
    &&& tier.id@ == row.Id@
    &&& tier.name@ == row.Name@
    &&& tier.affix == generation_affix(row.GenerationType)
    &&& tier.ilvl == row.Level
    &&& tier.mod_domain == row.Domain
    &&& tier.value_ranges@ == row_stats(row).map_values(|pair: (usize, [i32; 2])| pair.1)
}

/// `modifier` is the modifier that the row describes.
pub open spec fn modifier_of_row(dats: &Dats, row: &ModsRecord, modifier: &Modifier) -> bool {
    &&& modifier.group@ == row_group(dats, row)
    &&& modifier.family@ == dats.mod_family@[family_row(row)].Id@
    &&& modifier.stats@.len() == row_stats(row).len()
    &&& forall|k: int|
        0 <= k < row_stats(row).len() ==> (#[trigger] modifier.stats@[k])@
            == dats.stats@[row_stats(row)[k].0 as int].Id@
    &&& forall|tag: Seq<char>| lists(modifier.tags@, tag) == row_has_tag(dats, row, tag)
    &&& each_once(modifier.tags@)
}

/// Adds the stat of a row and its range to the lists, if the stat is given.
fn push_stat(
    dats: &Dats,
    stat: Option<usize>,
    range: [i32; 2],
    stats: &mut Vec<String>,
    ranges: &mut Vec<[i32; 2]>,
    Ghost(so_far): Ghost<Seq<(usize, [i32; 2])>>,
)
    requires
        stat matches Some(s) ==> s < dats.stats@.len(),
        old(stats)@.len() == so_far.len(),
        old(ranges)@ == so_far.map_values(|pair: (usize, [i32; 2])| pair.1),
        forall|k: int|
            0 <= k < so_far.len() ==> (#[trigger] old(stats)@[k])@ == dats.stats@[so_far[k].0 as int].Id@,
    ensures
        final(stats)@.len() == (so_far + given_stat(stat, range)).len(),
        final(ranges)@ == (so_far + given_stat(stat, range)).map_values(
            |pair: (usize, [i32; 2])| pair.1,
        ),
        forall|k: int|
            0 <= k < (so_far + given_stat(stat, range)).len() ==> (#[trigger] final(stats)@[k])@
                == dats.stats@[(so_far + given_stat(stat, range))[k].0 as int].Id@,
{
    match stat {
        Some(row) => {
            stats.push(dats.stats[row].Id.clone());
            ranges.push(range);
            proof {
                let more = so_far + given_stat(stat, range);
                assert(more =~= so_far.push((row, range)));
                assert(ranges@ =~= more.map_values(|pair: (usize, [i32; 2])| pair.1));
            }
        },
        None => {
            assert(so_far + given_stat(stat, range) =~= so_far);
        },
    }
}

/// The modifier and the value ranges that a row of tiers describes.
fn read_row(dats: &Dats, row: &ModsRecord) -> (read: (Modifier, Vec<[i32; 2]>))
    requires
        dats.row_ok(row),
    ensures
        modifier_of_row(dats, row, &read.0),
        read.1@ == row_stats(row).map_values(|pair: (usize, [i32; 2])| pair.1),
{
    let mut stats: Vec<String> = Vec::new();
    let mut value_ranges: Vec<[i32; 2]> = Vec::new();
    let ghost s0: Seq<(usize, [i32; 2])> = Seq::empty();
    let ghost s1 = s0 + given_stat(row.Stat1, row.Stat1Value);
    let ghost s2 = s1 + given_stat(row.Stat2, row.Stat2Value);
    let ghost s3 = s2 + given_stat(row.Stat3, row.Stat3Value);
    assert(value_ranges@ =~= s0.map_values(|pair: (usize, [i32; 2])| pair.1));
    push_stat(dats, row.Stat1, row.Stat1Value, &mut stats, &mut value_ranges, Ghost(s0));
    push_stat(dats, row.Stat2, row.Stat2Value, &mut stats, &mut value_ranges, Ghost(s1));
    push_stat(dats, row.Stat3, row.Stat3Value, &mut stats, &mut value_ranges, Ghost(s2));
    push_stat(dats, row.Stat4, row.Stat4Value, &mut stats, &mut value_ranges, Ghost(s3));
    assert(s3 + given_stat(row.Stat4, row.Stat4Value) =~= row_stats(row));
    let family: usize = if row.Families.len() > 0 {
        row.Families[0]
    } else {
        0
    };
    let mut tags: Vec<String> = Vec::new();
    let mut k: usize = 0;
    while k < row.ImplicitTags.len()
        invariant
            k <= row.ImplicitTags.len(),
            dats.row_ok(row),
            each_once(tags@),
            forall|tag: Seq<char>|
                lists(tags@, tag) == exists|j: int|
                    0 <= j < k && shown_as(
                        dats.tags@[(#[trigger] row.ImplicitTags@[j]) as int].DisplayString,
                        tag,
                    ),
        decreases row.ImplicitTags.len() - k,
    {
        let ghost before = tags@;
        let ghost shown = dats.tags@[row.ImplicitTags@[k as int] as int].DisplayString;
        let mut added = false;
        match &dats.tags[row.ImplicitTags[k]].DisplayString {
            Some(text) => {
                if !contains_text(&tags, text) {
                    tags.push(text.clone());
                    added = true;
                }
            },
            None => {},
        }
        proof {
            assert forall|tag: Seq<char>|
                lists(tags@, tag) == exists|j: int|
                    0 <= j < k + 1 && shown_as(
                        dats.tags@[(#[trigger] row.ImplicitTags@[j]) as int].DisplayString,
                        tag,
                    ) by {
                let earlier = exists|j: int|
                    0 <= j < k && shown_as(
                        dats.tags@[(#[trigger] row.ImplicitTags@[j]) as int].DisplayString,
                        tag,
                    );
                let now = exists|j: int|
                    0 <= j < k + 1 && shown_as(
                        dats.tags@[(#[trigger] row.ImplicitTags@[j]) as int].DisplayString,
                        tag,
                    );
                if added {
                    lemma_lists_push(before, shown->0, tag);
                }
                if earlier {
                    let j = choose|j: int|
                        0 <= j < k && shown_as(
                            dats.tags@[(#[trigger] row.ImplicitTags@[j]) as int].DisplayString,
                            tag,
                        );
                    assert(0 <= j < k + 1);
                }
                if shown_as(shown, tag) {
                    assert(shown_as(
                        dats.tags@[row.ImplicitTags@[k as int] as int].DisplayString,
                        tag,
                    ));
                }
                if now {
                    let j = choose|j: int|
                        0 <= j < k + 1 && shown_as(
                            dats.tags@[(#[trigger] row.ImplicitTags@[j]) as int].DisplayString,
                            tag,
                        );
                    if j < k {
                        assert(earlier);
                    }
                }
            }
        }
        k += 1;
    }
    let modifier = Modifier {
        group: dats.mod_type[row.ModType].Name.clone(),
        tags,
        mod_type: ModType::Normal,
        stats,
        family: dats.mod_family[family].Id.clone(),
    };
    (modifier, value_ranges)
}

/// The tables hold the first `rows` rows of the table of tiers: `tiers` a
/// tier for each, under its id, and `mods` a modifier for each modifier
/// that they name, made from the first row that names it.
pub open spec fn rows_loaded(
    dats: &Dats,
    rows: int,
    tiers: &HashVec<Tier>,
    mods: &HashVec<Modifier>,
) -> bool {
    &&& tiers.wf()
    &&& mods.wf()
    &&& tiers.values().len() == rows
    // Each row has its tier, under its id and of its modifier.
    &&& forall|i: int|
        0 <= i < rows ==> {
            let row = #[trigger] dats.mods@[i];
            let tier = tiers.values()[i];
            &&& tier_of_row(&row, &tier)
            &&& tiers.names().contains_key(row.Id@)
            &&& tiers.names()[row.Id@] == i
            &&& mods.names().contains_key(row_group(dats, &row))
            &&& mods.names()[row_group(dats, &row)] == tier.mod_id@
        }
    // No tier is under another name.
    &&& forall|id: Seq<char>| #[trigger]
        tiers.names().contains_key(id) ==> 0 <= tiers.names()[id] < rows
            && dats.mods@[tiers.names()[id]].Id@ == id
    // Each modifier stands under its own name, and is made from the first
    // row that names it.
    &&& forall|name: Seq<char>| #[trigger]
        mods.names().contains_key(name) ==> 0 <= mods.names()[name] < mods.values().len()
            && mods.values()[mods.names()[name]].group@ == name
    &&& forall|m: int| 0 <= m < mods.values().len() ==> #[trigger] first_named(dats, rows, mods, m)
}

/// The modifier at `m` is made from the first of the first `rows` rows
/// that names it, and stands under that name.
pub open spec fn first_named(dats: &Dats, rows: int, mods: &HashVec<Modifier>, m: int) -> bool {
    exists|i: int|
        {
            &&& 0 <= i < rows
            &&& #[trigger] modifier_of_row(dats, &dats.mods@[i], &mods.values()[m])
            &&& mods.names().contains_key(row_group(dats, &dats.mods@[i]))
            &&& mods.names()[row_group(dats, &dats.mods@[i])] == m
            &&& forall|j: int|
                0 <= j < i ==> row_group(dats, #[trigger] &dats.mods@[j]) != row_group(
                    dats,
                    &dats.mods@[i],
                )
        }
}

/// The tiers and the modifiers of the table of tiers: a tier for each row,
/// in the order of the rows and under the id of its row, with no weight
/// yet; and a modifier for each modifier that the rows name, in the order
/// in which they first name it.
pub fn load_mod_tiers(dats: &Dats) -> (loaded: (HashVec<Tier>, HashVec<Modifier>))
    requires
        dats.tiers_ok(),
    ensures
        rows_loaded(dats, dats.mods@.len() as int, &loaded.0, &loaded.1),
        forall|i: int| 0 <= i < loaded.0.values().len() ==> (#[trigger] loaded.0.values()[i]).weight == 0,
{
    let mut tiers: HashVec<Tier> = HashVec::new();
    let mut mods: HashVec<Modifier> = HashVec::new();
    let mut i: usize = 0;
    proof {
        tiers.lemma_wf();
        mods.lemma_wf();
    }
    while i < dats.mods.len()
        invariant
            i <= dats.mods.len(),
            dats.tiers_ok(),
            rows_loaded(dats, i as int, &tiers, &mods),
            forall|k: int| 0 <= k < tiers.values().len() ==> (#[trigger] tiers.values()[k]).weight == 0,
        decreases dats.mods.len() - i,
    {
        let row = &dats.mods[i];
        let ghost tiers0 = tiers;
        let ghost mods0 = mods;
        let (modifier, value_ranges) = read_row(dats, row);
        let mod_group = &dats.mod_type[row.ModType].Name;
        let known = mods.contains_key(mod_group.as_str());
        let mod_id = if !known {
            mods.insert(mod_group.clone(), modifier)
        } else {
            mods.opaque(mod_group.as_str())
        };
        let affix = if row.GenerationType == 1 {
            Affix::Prefix
        } else if row.GenerationType == 2 {
            Affix::Suffix
        } else {
            Affix::Corrupted
        };
        proof {
            if tiers0.names().contains_key(row.Id@) {
                let k = tiers0.names()[row.Id@];
                assert(dats.mods@[k].Id@ == dats.mods@[i as int].Id@);
            }
        }
        tiers.insert(
            row.Id.clone(),
            Tier {
                id: row.Id.clone(),
                name: row.Name.clone(),
                mod_id,
                affix,
                ilvl: row.Level,
                value_ranges,
                weight: 0,
                mod_domain: row.Domain,
            },
        );
        proof {
            tiers.lemma_wf();
            mods.lemma_wf();
            tiers0.lemma_wf();
            mods0.lemma_wf();
            let g = row_group(dats, row);
            assert forall|k: int| 0 <= k < i + 1 implies {
                let r = #[trigger] dats.mods@[k];
                let tier = tiers.values()[k];
                &&& tier_of_row(&r, &tier)
                &&& tiers.names().contains_key(r.Id@)
                &&& tiers.names()[r.Id@] == k
                &&& mods.names().contains_key(row_group(dats, &r))
                &&& mods.names()[row_group(dats, &r)] == tier.mod_id@
            } by {
                if k < i {
                    assert(tiers.values()[k] == tiers0.values()[k]);
                    assert(dats.mods@[k].Id@ != dats.mods@[i as int].Id@);
                }
            }
            assert forall|m: int| 0 <= m < mods.values().len() implies #[trigger] first_named(
                dats,
                i + 1,
                &mods,
                m,
            ) by {
                if m < mods0.values().len() {
                    assert(mods.values()[m] == mods0.values()[m]);
                    assert(first_named(dats, i as int, &mods0, m));
                    let a = choose|a: int|
                        {
                            &&& 0 <= a < i
                            &&& #[trigger] modifier_of_row(dats, &dats.mods@[a], &mods0.values()[m])
                            &&& mods0.names().contains_key(row_group(dats, &dats.mods@[a]))
                            &&& mods0.names()[row_group(dats, &dats.mods@[a])] == m
                            &&& forall|j: int|
                                0 <= j < a ==> row_group(dats, #[trigger] &dats.mods@[j])
                                    != row_group(dats, &dats.mods@[a])
                        };
                    assert(modifier_of_row(dats, &dats.mods@[a], &mods.values()[m]));
                } else {
                    let a = i as int;
                    assert(!known);
                    assert(modifier_of_row(dats, &dats.mods@[a], &mods.values()[m]));
                    assert forall|j: int| 0 <= j < a implies row_group(
                        dats,
                        #[trigger] &dats.mods@[j],
                    ) != g by {
                        assert(mods0.names().contains_key(row_group(dats, &dats.mods@[j])));
                    }
                }
            }
        }
        i += 1;
    }
    (tiers, mods)
}

/// The names of the item classes that a row of essence modifiers is for.
pub open spec fn row_bases(dats: &Dats, row: &EssenceModsRecord) -> Seq<Seq<char>> {
    let classes = dats.essence_target_item_categories@[row.TargetItemCategory as int].ItemClasses@;
    Seq::new(classes.len(), |k: int| dats.item_classes@[classes[k] as int].Id@)
}

/// The rows of the tiers that a row of essence modifiers gives: the one,
/// or else those of which it gives one.
pub open spec fn row_mod_rows(row: &EssenceModsRecord) -> Seq<usize> {
    match row.Mod1 {
        Some(m) => seq![m],
        None => row.OutcomeMods@,
    }
}

/// The tiers that a row of essence modifiers gives.
pub open spec fn row_tiers(dats: &Dats, tiers: &HashVec<Tier>, row: &EssenceModsRecord) -> Seq<
    OpaqueIndex<Tier>,
> {
    Seq::new(
        row_mod_rows(row).len(),
        |k: int| tiers.position(dats.mods@[row_mod_rows(row)[k] as int].Id@),
    )
}

/// The row of essence modifiers at `r` gives the essence `essence` tiers
/// on the base `base`.
pub open spec fn gives(dats: &Dats, r: int, essence: usize, base: Seq<char>) -> bool {
    dats.essence_mods@[r].Essence == essence && row_bases(dats, &dats.essence_mods@[r]).contains(
        base,
    )
}

/// The name marks an essence of the highest grade.
pub open spec fn perfect_name(name: Seq<char>) -> bool {
    ||| begins_with(name, "Perfect"@)
    ||| ends_with_text(name, "Insanity"@)
    ||| ends_with_text(name, "Hysteria"@)
    ||| ends_with_text(name, "Horror"@)
    ||| ends_with_text(name, "Delirium"@)
    ||| ends_with_text(name, "Abyss"@)
}

/// Whether the name marks an essence of the highest grade.
pub fn is_perfect_name(name: &str) -> (perfect: bool)
    ensures
        perfect == perfect_name(name@),
{
    starts_with(name, "Perfect") || ends_with(name, "Insanity") || ends_with(name, "Hysteria")
        || ends_with(name, "Horror") || ends_with(name, "Delirium") || ends_with(name, "Abyss")
}

impl Dats {
    /// The row of essence modifiers points to rows that the other tables
    /// have.
    pub open spec fn essence_row_ok(&self, row: &EssenceModsRecord) -> bool {
        &&& row.Essence < self.essences@.len()
        &&& self.essences@[row.Essence as int].BaseItemType < self.base_item_types@.len()
        &&& row.TargetItemCategory < self.essence_target_item_categories@.len()
        &&& {
            let classes = self.essence_target_item_categories@[row.TargetItemCategory as int].ItemClasses@;
            forall|k: int| 0 <= k < classes.len() ==> #[trigger] classes[k] < self.item_classes@.len()
        }
        &&& forall|k: int|
            0 <= k < row_mod_rows(row).len() ==> (#[trigger] row_mod_rows(row)[k]) < self.mods@.len()
    }

    /// The table of essence modifiers can be read.
    pub open spec fn essences_ok(&self) -> bool {
        forall|r: int|
            0 <= r < self.essence_mods@.len() ==> self.essence_row_ok(
                #[trigger] &self.essence_mods@[r],
            )
    }

    /// Whether the table of essence modifiers can be read.
    pub fn check_essences(&self) -> (ok: bool)
        ensures
            ok == self.essences_ok(),
    {
        let mut r: usize = 0;
        while r < self.essence_mods.len()
            invariant
                r <= self.essence_mods.len(),
                forall|j: int| 0 <= j < r ==> self.essence_row_ok(#[trigger] &self.essence_mods@[j]),
            decreases self.essence_mods.len() - r,
        {
            if !self.check_essence_row(&self.essence_mods[r]) {
                return false;
            }
            r += 1;
        }
        true
    }

    /// Whether the row of essence modifiers can be read.
    pub fn check_essence_row(&self, row: &EssenceModsRecord) -> (ok: bool)
        ensures
            ok == self.essence_row_ok(row),
    {
        if row.Essence >= self.essences.len() {
            return false;
        }
        if self.essences[row.Essence].BaseItemType >= self.base_item_types.len() {
            return false;
        }
        if row.TargetItemCategory >= self.essence_target_item_categories.len() {
            return false;
        }
        let classes = &self.essence_target_item_categories[row.TargetItemCategory].ItemClasses;
        let mut k: usize = 0;
        while k < classes.len()
            invariant
                k <= classes.len(),
                row.TargetItemCategory < self.essence_target_item_categories@.len(),
                *classes == self.essence_target_item_categories@[row.TargetItemCategory as int].ItemClasses,
                forall|j: int| 0 <= j < k ==> #[trigger] classes@[j] < self.item_classes@.len(),
            decreases classes.len() - k,
        {
            if classes[k] >= self.item_classes.len() {
                assert(!(classes@[k as int] < self.item_classes@.len()));
                return false;
            }
            k += 1;
        }
        match row.Mod1 {
            Some(m) => {
                if m >= self.mods.len() {
                    assert(row_mod_rows(row)[0] == m);
                    return false;
                }
                true
            },
            None => {
                let mut k: usize = 0;
                while k < row.OutcomeMods.len()
                    invariant
                        k <= row.OutcomeMods.len(),
                        row.Mod1 is None,
                        forall|j: int|
                            0 <= j < k ==> (#[trigger] row.OutcomeMods@[j]) < self.mods@.len(),
                    decreases row.OutcomeMods.len() - k,
                {
                    let m = row.OutcomeMods[k];
                    if m >= self.mods.len() {
                        assert(row_mod_rows(row)[k as int] == m);
                        return false;
                    }
                    k += 1;
                }
                true
            },
        }
    }
}

/// What a table of an essence holds after the first `k` of `bases` were
/// set to `tiers` in a table that held `held`.
pub open spec fn with_bases(
    held: Map<Seq<char>, Seq<OpaqueIndex<Tier>>>,
    bases: Seq<Seq<char>>,
    tiers: Seq<OpaqueIndex<Tier>>,
    k: nat,
) -> Map<Seq<char>, Seq<OpaqueIndex<Tier>>>
    decreases k,
{
    if k == 0 {
        held
    } else {
        with_bases(held, bases, tiers, (k - 1) as nat).insert(bases[k - 1], tiers)
    }
}

/// What the first `rows` rows of essence modifiers give the essence
/// `essence`: for each base the tiers of the last row that names it.
pub open spec fn essence_map(dats: &Dats, tiers: &HashVec<Tier>, essence: usize, rows: nat) -> Map<
    Seq<char>,
    Seq<OpaqueIndex<Tier>>,
>
    decreases rows,
{
    if rows == 0 {
        Map::empty()
    } else {
        let before = essence_map(dats, tiers, essence, (rows - 1) as nat);
        let row = dats.essence_mods@[rows - 1];
        if row.Essence == essence {
            with_bases(
                before,
                row_bases(dats, &row),
                row_tiers(dats, tiers, &row),
                row_bases(dats, &row).len(),
            )
        } else {
            before
        }
    }
}

/// No base is twice in the table.
pub open spec fn keys_apart(table: Seq<(String, Vec<OpaqueIndex<Tier>>)>) -> bool {
    forall|i: int, j: int|
        0 <= i < j < table.len() ==> (#[trigger] table[i]).0@ != (#[trigger] table[j]).0@
}

/// The table holds what `held` says.
pub open spec fn table_is(
    table: Seq<(String, Vec<OpaqueIndex<Tier>>)>,
    held: Map<Seq<char>, Seq<OpaqueIndex<Tier>>>,
) -> bool {
    &&& keys_apart(table)
    &&& forall|base: Seq<char>| #[trigger] lists_base(table, base) == held.contains_key(base)
    &&& forall|base: Seq<char>| #[trigger]
        held.contains_key(base) ==> tiers_for(table, base) == held[base]
}

/// In a table without a base twice, the tiers for the base of an entry are
/// those of the entry.
pub proof fn lemma_tiers_for(table: Seq<(String, Vec<OpaqueIndex<Tier>>)>, i: int)
    requires
        keys_apart(table),
        0 <= i < table.len(),
    ensures
        lists_base(table, table[i].0@),
        tiers_for(table, table[i].0@) == table[i].1@,
{
    let base = table[i].0@;
    assert(table[i].0@ == base);
    let j = choose|j: int| 0 <= j < table.len() && (#[trigger] table[j]).0@ == base;
    if i < j {
        assert(table[i].0@ != table[j].0@);
    }
    if j < i {
        assert(table[j].0@ != table[i].0@);
    }
}

/// Sets the tiers for `base` in the table.
fn set_entry(
    table: &mut EssenceTiers,
    base: String,
    tiers: Vec<OpaqueIndex<Tier>>,
    Ghost(held): Ghost<Map<Seq<char>, Seq<OpaqueIndex<Tier>>>>,
)
    requires
        table_is(old(table)@, held),
    ensures
        table_is(final(table)@, held.insert(base@, tiers@)),
{
    let ghost before = table@;
    let mut i: usize = 0;
    while i < table.len()
        invariant
            i <= table.len(),
            table@ == before,
            table_is(before, held),
            forall|j: int| 0 <= j < i ==> (#[trigger] table@[j]).0@ != base@,
        decreases table.len() - i,
    {
        if table[i].0 == base {
            table[i].1 = tiers;
            proof {
                let after = table@;
                assert(after.len() == before.len());
                assert forall|j: int| 0 <= j < after.len() implies (#[trigger] after[j]).0@
                    == before[j].0@ && (j != i ==> after[j].1@ == before[j].1@) by {}
                assert(keys_apart(after));
                assert forall|b: Seq<char>| #[trigger]
                    lists_base(after, b) == held.insert(base@, tiers@).contains_key(b) by {
                    if lists_base(after, b) {
                        let j = choose|j: int| 0 <= j < after.len() && (#[trigger] after[j]).0@ == b;
                        assert(before[j].0@ == b);
                    }
                    if lists_base(before, b) {
                        let j = choose|j: int|
                            0 <= j < before.len() && (#[trigger] before[j]).0@ == b;
                        assert(after[j].0@ == b);
                    }
                    if b == base@ {
                        assert(after[i as int].0@ == b);
                    }
                }
                assert forall|b: Seq<char>| #[trigger]
                    held.insert(base@, tiers@).contains_key(b) implies tiers_for(after, b)
                    == held.insert(base@, tiers@)[b] by {
                    assert(lists_base(after, b));
                    let j = choose|j: int| 0 <= j < after.len() && (#[trigger] after[j]).0@ == b;
                    lemma_tiers_for(after, j);
                    if j != i {
                        assert(before[j].0@ == b);
                        lemma_tiers_for(before, j);
                    }
                }
            }
            return ;
        }
        i += 1;
    }
    table.push((base, tiers));
    proof {
        let after = table@;
        let n = before.len() as int;
        assert forall|j: int| 0 <= j < n implies (#[trigger] after[j]) == before[j] by {}
        assert(keys_apart(after));
        assert forall|b: Seq<char>| #[trigger]
            lists_base(after, b) == held.insert(base@, tiers@).contains_key(b) by {
            if lists_base(after, b) {
                let j = choose|j: int| 0 <= j < after.len() && (#[trigger] after[j]).0@ == b;
                if j < n {
                    assert(before[j].0@ == b);
                }
            }
            if lists_base(before, b) {
                let j = choose|j: int| 0 <= j < before.len() && (#[trigger] before[j]).0@ == b;
                assert(after[j].0@ == b);
            }
            if b == base@ {
                assert(after[n].0@ == b);
            }
        }
        assert forall|b: Seq<char>| #[trigger]
            held.insert(base@, tiers@).contains_key(b) implies tiers_for(after, b) == held.insert(
            base@,
            tiers@,
        )[b] by {
            assert(lists_base(after, b));
            let j = choose|j: int| 0 <= j < after.len() && (#[trigger] after[j]).0@ == b;
            lemma_tiers_for(after, j);
            if j < n {
                assert(before[j].0@ == b);
                lemma_tiers_for(before, j);
            }
        }
    }
}

/// The table of tiers has a tier for each row of the tables, under the id
/// of the row.
pub open spec fn tiers_listed(dats: &Dats, tiers: &HashVec<Tier>) -> bool {
    forall|i: int|
        0 <= i < dats.mods@.len() ==> tiers.names().contains_key((#[trigger] dats.mods@[i]).Id@)
}

/// Setting all the bases of a row is what the row adds to what an essence
/// holds.
pub proof fn lemma_essence_map_step(dats: &Dats, tiers: &HashVec<Tier>, essence: usize, rows: nat)
    requires
        rows < dats.essence_mods@.len(),
    ensures
        dats.essence_mods@[rows as int].Essence != essence ==> essence_map(
            dats,
            tiers,
            essence,
            rows + 1,
        ) == essence_map(dats, tiers, essence, rows),
        dats.essence_mods@[rows as int].Essence == essence ==> essence_map(
            dats,
            tiers,
            essence,
            rows + 1,
        ) == with_bases(
            essence_map(dats, tiers, essence, rows),
            row_bases(dats, &dats.essence_mods@[rows as int]),
            row_tiers(dats, tiers, &dats.essence_mods@[rows as int]),
            row_bases(dats, &dats.essence_mods@[rows as int]).len(),
        ),
{
}

/// An essence that none of the first `rows` rows names holds nothing.
pub proof fn lemma_essence_map_empty(dats: &Dats, tiers: &HashVec<Tier>, essence: usize, rows: nat)
    requires
        rows <= dats.essence_mods@.len(),
        forall|r: int| 0 <= r < rows ==> (#[trigger] dats.essence_mods@[r]).Essence != essence,
    ensures
        essence_map(dats, tiers, essence, rows) == Map::<
            Seq<char>,
            Seq<OpaqueIndex<Tier>>,
        >::empty(),
    decreases rows,
{
    if rows > 0 {
        lemma_essence_map_empty(dats, tiers, essence, (rows - 1) as nat);
        assert(dats.essence_mods@[rows - 1].Essence != essence);
    }
}

/// The essence at the row `essence` of the table of essences, as a
/// currency: of the highest grade where its name says so, and with what all
/// the rows of essence modifiers give it.
pub open spec fn essence_of(
    dats: &Dats,
    tiers: &HashVec<Tier>,
    essence: usize,
    currency: &CurrencyType,
) -> bool {
    let name = dats.base_item_types@[dats.essences@[essence as int].BaseItemType as int].Name@;
    let held = essence_map(dats, tiers, essence, dats.essence_mods@.len());
    match currency {
        CurrencyType::Essence(made) => !perfect_name(name) && made.name@ == name && table_is(
            made.tiers@,
            held,
        ),
        CurrencyType::PerfectEssence(made) => perfect_name(name) && made.name@ == name && table_is(
            made.tiers@,
            held,
        ),
        _ => false,
    }
}

/// One of the first `rows` rows of essence modifiers names the essence.
pub open spec fn essence_named(dats: &Dats, rows: int, essence: usize) -> bool {
    exists|r: int| 0 <= r < rows && (#[trigger] dats.essence_mods@[r]).Essence == essence
}

/// `essences` are the essences that the rows of essence modifiers name,
/// each once, and `index` tells for each its row in the table of essences.
pub open spec fn essences_loaded(
    dats: &Dats,
    tiers: &HashVec<Tier>,
    essences: Seq<CurrencyType>,
    index: Seq<usize>,
) -> bool {
    &&& index.len() == essences.len()
    &&& index.no_duplicates()
    &&& forall|r: int|
        0 <= r < dats.essence_mods@.len() ==> index.contains(
            (#[trigger] dats.essence_mods@[r]).Essence,
        )
    &&& forall|p: int|
        0 <= p < index.len() ==> essence_named(
            dats,
            dats.essence_mods@.len() as int,
            #[trigger] index[p],
        ) && essence_of(dats, tiers, index[p], &essences[p])
}

/// The first `rows` rows of essence modifiers are gathered in `grouped`:
/// an entry for each essence that they name, with what they give it.
spec fn gathered(
    dats: &Dats,
    tiers: &HashVec<Tier>,
    rows: int,
    grouped: Seq<(usize, EssenceTiers)>,
) -> bool {
    &&& forall|i: int, j: int|
        0 <= i < j < grouped.len() ==> (#[trigger] grouped[i]).0 != (#[trigger] grouped[j]).0
    &&& forall|r: int|
        0 <= r < rows ==> has_entry(grouped, (#[trigger] dats.essence_mods@[r]).Essence)
    &&& forall|i: int|
        0 <= i < grouped.len() ==> essence_named(dats, rows, (#[trigger] grouped[i]).0) && table_is(
            grouped[i].1@,
            essence_map(dats, tiers, grouped[i].0, rows as nat),
        )
}

/// An entry of `grouped` is for the essence.
spec fn has_entry(grouped: Seq<(usize, EssenceTiers)>, essence: usize) -> bool {
    exists|i: int| 0 <= i < grouped.len() && (#[trigger] grouped[i]).0 == essence
}

/// The essences of the tables: one for each essence that the table of
/// essence modifiers names, with the tiers that it gives on each base. An
/// essence is of the highest grade where its name begins with "Perfect" or
/// ends with one of "Insanity", "Hysteria", "Horror", "Delirium", "Abyss".
pub fn load_essences(dats: &Dats, tiers: &HashVec<Tier>) -> (essences: Vec<CurrencyType>)
    requires
        tiers.wf(),
        tiers_listed(dats, tiers),
        dats.essences_ok(),
    ensures
        exists|index: Seq<usize>| essences_loaded(dats, tiers, essences@, index),
{
    let mut grouped: Vec<(usize, EssenceTiers)> = Vec::new();
    let n = dats.essence_mods.len();
    let mut r: usize = 0;
    while r < n
        invariant
            r <= n,
            n == dats.essence_mods@.len(),
            tiers.wf(),
            tiers_listed(dats, tiers),
            dats.essences_ok(),
            gathered(dats, tiers, r as int, grouped@),
        decreases n - r,
    {
        let row = &dats.essence_mods[r];
        let essence = row.Essence;
        assert(dats.essence_row_ok(&dats.essence_mods@[r as int]));
        // The tiers that the row gives.
        let mut mods: Vec<OpaqueIndex<Tier>> = Vec::new();
        match row.Mod1 {
            Some(m) => {
                assert(row_mod_rows(row)[0] == m);
                let t = tiers.opaque(dats.mods[m].Id.as_str());
                mods.push(t);
                proof {
                    tiers.lemma_wf();
                    OpaqueIndex::lemma_view_eq(t, row_tiers(dats, tiers, row)[0]);
                    assert(mods@ =~= row_tiers(dats, tiers, row));
                }
            },
            None => {
                let mut k: usize = 0;
                while k < row.OutcomeMods.len()
                    invariant
                        k <= row.OutcomeMods.len(),
                        tiers.wf(),
                        tiers_listed(dats, tiers),
                        row.Mod1 is None,
                        dats.essence_row_ok(row),
                        mods@.len() == k,
                        forall|j: int|
                            0 <= j < k ==> #[trigger] mods@[j] == row_tiers(dats, tiers, row)[j],
                    decreases row.OutcomeMods.len() - k,
                {
                    let m = row.OutcomeMods[k];
                    assert(row_mod_rows(row)[k as int] == m);
                    let t = tiers.opaque(dats.mods[m].Id.as_str());
                    proof {
                        tiers.lemma_wf();
                        OpaqueIndex::lemma_view_eq(t, row_tiers(dats, tiers, row)[k as int]);
                    }
                    mods.push(t);
                    k += 1;
                }
                assert(mods@ =~= row_tiers(dats, tiers, row));
            },
        }
        // The entry of the essence.
        let mut at: usize = 0;
        while at < grouped.len() && grouped[at].0 != essence
            invariant
                at <= grouped.len(),
                forall|j: int| 0 <= j < at ==> (#[trigger] grouped@[j]).0 != essence,
            decreases grouped.len() - at,
        {
            at += 1;
        }
        let ghost grouped0 = grouped@;
        if at == grouped.len() {
            grouped.push((essence, Vec::new()));
            proof {
                assert forall|q: int| 0 <= q < r implies (#[trigger] dats.essence_mods@[q]).Essence
                    != essence by {
                    assert(has_entry(grouped0, dats.essence_mods@[q].Essence));
                }
                lemma_essence_map_empty(dats, tiers, essence, r as nat);
                assert forall|b: Seq<char>| !#[trigger] lists_base(grouped@[at as int].1@, b) by {}
            }
        }
        let classes = &dats.essence_target_item_categories[row.TargetItemCategory].ItemClasses;
        let ghost bases = row_bases(dats, row);
        let ghost before = essence_map(dats, tiers, essence, r as nat);
        let ghost grouped1 = grouped@;
        let mut k: usize = 0;
        while k < classes.len()
            invariant
                k <= classes.len(),
                at < grouped.len(),
                grouped@.len() == grouped1.len(),
                forall|j: int| 0 <= j < grouped@.len() && j != at ==> #[trigger] grouped@[j] == grouped1[j],
                grouped@[at as int].0 == essence,
                row.TargetItemCategory < dats.essence_target_item_categories@.len(),
                *classes == dats.essence_target_item_categories@[row.TargetItemCategory as int].ItemClasses,
                dats.essence_row_ok(row),
                bases == row_bases(dats, row),
                mods@ == row_tiers(dats, tiers, row),
                table_is(grouped@[at as int].1@, with_bases(before, bases, mods@, k as nat)),
            decreases classes.len() - k,
        {
            let base = dats.item_classes[classes[k]].Id.clone();
            let copy = copy_pool(mods.as_slice());
            let ghost held = with_bases(before, bases, mods@, k as nat);
            assert(bases[k as int] == base@);
            set_entry(&mut grouped[at].1, base, copy, Ghost(held));
            k += 1;
        }
        proof {
            lemma_essence_map_step(dats, tiers, essence, r as nat);
            assert forall|i: int| 0 <= i < grouped@.len() implies essence_named(
                dats,
                r + 1,
                (#[trigger] grouped@[i]).0,
            ) && table_is(grouped@[i].1@, essence_map(dats, tiers, grouped@[i].0, (r + 1) as nat)) by {
                if i != at {
                    assert(grouped@[i] == grouped1[i]);
                    assert(grouped1[i] == grouped0[i]);
                    assert(essence_named(dats, r as int, grouped0[i].0));
                    let q = choose|q: int|
                        0 <= q < r && (#[trigger] dats.essence_mods@[q]).Essence == grouped0[i].0;
                    assert(0 <= q < r + 1);
                    lemma_essence_map_step(dats, tiers, grouped@[i].0, r as nat);
                } else {
                    assert(dats.essence_mods@[r as int].Essence == essence);
                }
            }
            assert forall|q: int| 0 <= q < r + 1 implies has_entry(
                grouped@,
                (#[trigger] dats.essence_mods@[q]).Essence,
            ) by {
                if q < r {
                    assert(has_entry(grouped0, dats.essence_mods@[q].Essence));
                    let i = choose|i: int|
                        0 <= i < grouped0.len() && (#[trigger] grouped0[i]).0
                            == dats.essence_mods@[q].Essence;
                    assert(grouped@[i].0 == grouped0[i].0);
                } else {
                    assert(grouped@[at as int].0 == essence);
                }
            }
            assert forall|i: int, j: int| 0 <= i < j < grouped@.len() implies (
            #[trigger] grouped@[i]).0 != (#[trigger] grouped@[j]).0 by {
                assert(grouped@[i].0 == grouped1[i].0);
                assert(grouped@[j].0 == grouped1[j].0);
            }
        }
        r += 1;
    }
    let mut essences: Vec<CurrencyType> = Vec::new();
    let ghost index: Seq<usize> = Seq::empty();
    let mut i: usize = 0;
    let mut grouped = grouped;
    let ghost all = grouped@;
    while grouped.len() > 0
        invariant
            gathered(dats, tiers, n as int, all),
            n == dats.essence_mods@.len(),
            dats.essences_ok(),
            essences@.len() == index.len(),
            index.len() + grouped@.len() == all.len(),
            forall|p: int| 0 <= p < grouped@.len() ==> #[trigger] grouped@[p] == all[p],
            forall|p: int|
                0 <= p < index.len() ==> (#[trigger] index[p]) == all[all.len() - 1 - p].0
                    && essence_of(dats, tiers, index[p], &essences@[p]),
        decreases grouped.len(),
    {
        let ghost last = grouped@.len() - 1;
        let (essence, table) = grouped.pop().unwrap();
        proof {
            assert(all[last] == (essence, table));
            assert(essence_named(dats, n as int, all[last].0));
            let q = choose|q: int|
                0 <= q < n && (#[trigger] dats.essence_mods@[q]).Essence == essence;
            assert(dats.essence_row_ok(&dats.essence_mods@[q]));
        }
        let name = &dats.base_item_types[dats.essences[essence].BaseItemType].Name;
        let currency = if is_perfect_name(name.as_str()) {
            CurrencyType::PerfectEssence(PerfectEssence { name: name.clone(), tiers: table })
        } else {
            CurrencyType::Essence(Essence { name: name.clone(), tiers: table })
        };
        essences.push(currency);
        proof {
            index = index.push(essence);
        }
    }
    proof {
        assert forall|a: int, b: int| 0 <= a < index.len() && 0 <= b < index.len() && a
            != b implies index[a] != index[b] by {
            let x = all.len() - 1 - a;
            let y = all.len() - 1 - b;
            if x < y {
                assert(all[x].0 != all[y].0);
            } else {
                assert(all[y].0 != all[x].0);
            }
        }
        assert forall|q: int| 0 <= q < dats.essence_mods@.len() implies index.contains(
            (#[trigger] dats.essence_mods@[q]).Essence,
        ) by {
            assert(has_entry(all, dats.essence_mods@[q].Essence));
            let i = choose|i: int|
                0 <= i < all.len() && (#[trigger] all[i]).0 == dats.essence_mods@[q].Essence;
            assert(index[all.len() - 1 - i] == all[i].0);
        }
        assert forall|p: int| 0 <= p < index.len() implies essence_named(
            dats,
            dats.essence_mods@.len() as int,
            #[trigger] index[p],
        ) by {
            assert(essence_named(dats, n as int, all[all.len() - 1 - p].0));
        }
        assert(essences_loaded(dats, tiers, essences@, index));
    }
    essences
}

} // verus!
