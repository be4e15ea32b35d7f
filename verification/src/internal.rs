//! How the catalog and the essences are made from the tables.

use crate::catalog::Catalog;
use crate::currency::CurrencyType;
use crate::io::named;
use crate::parsers::dat::{
    essences_loaded, first_named, load_essences, load_mod_tiers, modifier_of_row, row_group,
    rows_loaded, tier_of_row, Dats,
};
use crate::parsers::poe2db::{ItemRoot, Modifier};
use crate::types::Tier;
use vstd::hash_map::StringHashMap;
use vstd::prelude::*;

verus! {

/// What is made from the tables: the catalog, and the essences.
pub struct GameData {
    pub catalog: Catalog,
    pub essences: Vec<CurrencyType>,
}

/// Why the tables could not be read.
#[derive(Debug, Clone, Copy, PartialEq, Eq, Structural)]
pub enum InitError {
    /// The table of tiers points to a row that is not there, or has an id
    /// twice.
    BadTiers,
    /// The table of essence modifiers points to a row that is not there,
    /// or to a tier that is not there.
    BadEssences,
}

/// The weights that the first `count` of `rolls` give: for each id the
/// chance of the last that has it.
pub open spec fn with_weights(held: Map<Seq<char>, u32>, rolls: Seq<Modifier>, count: nat) -> Map<
    Seq<char>,
    u32,
>
    decreases count,
{
    if count == 0 {
        held
    } else {
        with_weights(held, rolls, (count - 1) as nat).insert(
            rolls[count - 1].Code@,
            rolls[count - 1].DropChance,
        )
    }
}

/// The weights that the first `count` base items give.
pub open spec fn weight_map(items: Seq<(String, ItemRoot)>, count: nat) -> Map<Seq<char>, u32>
    decreases count,
{
    if count == 0 {
        Map::empty()
    } else {
        with_weights(
            weight_map(items, (count - 1) as nat),
            items[count - 1].1.normal@,
            items[count - 1].1.normal@.len(),
        )
    }
}

/// The weight of the tier of the id `id`: what the base items give it, or
/// nothing where none names it.
pub open spec fn weight_for(items: Seq<(String, ItemRoot)>, id: Seq<char>) -> u32 {
    let weights = weight_map(items, items.len());
    if weights.contains_key(id) {
        weights[id]
    } else {
        0
    }
}

/// The ids of the tiers that roll on a base item, in their order.
pub open spec fn codes_of(rolls: Seq<Modifier>, ids: Seq<String>) -> bool {
    &&& ids.len() == rolls.len()
    &&& forall|k: int| 0 <= k < rolls.len() ==> (#[trigger] ids[k])@ == rolls[k].Code@
}

/// The listing holds what the first `count` base items say: for each name
/// the tiers of the last base item of that name.
pub open spec fn bases_listed(
    items: Seq<(String, ItemRoot)>,
    count: int,
    listing: Map<Seq<char>, Vec<String>>,
) -> bool {
    &&& forall|name: Seq<char>| #[trigger]
        listing.contains_key(name) <==> exists|i: int|
            0 <= i < count && (#[trigger] items[i]).0@ == name
    &&& forall|i: int|
        0 <= i < count && (forall|j: int| i < j < count ==> (#[trigger] items[j]).0@ != items[i].0@)
            ==> codes_of((#[trigger] items[i]).1.normal@, listing[items[i].0@]@)
}

/// The catalog is made from the tables: the tiers and the modifiers from
/// the table of tiers, each tier with the weight that the base items give
/// it, and for each base item the tiers that roll on it.
pub open spec fn catalog_of(dats: &Dats, items: Seq<(String, ItemRoot)>, cat: &Catalog) -> bool {
    &&& rows_loaded(dats, dats.mods@.len() as int, &cat.tiers, &cat.mods)
    &&& forall|i: int|
        0 <= i < cat.tiers.values().len() ==> (#[trigger] cat.tiers.values()[i]).weight
            == weight_for(items, cat.tiers.values()[i].id@)
    &&& bases_listed(items, items.len() as int, cat.item_tiers@)
}

/// The weights that the base items give, by the id of the tier.
fn read_weights(items: &Vec<(String, ItemRoot)>) -> (weights: StringHashMap<u32>)
    ensures
        weights@ == weight_map(items@, items@.len()),
{
    let mut weights: StringHashMap<u32> = StringHashMap::new();
    let mut i: usize = 0;
    while i < items.len()
        invariant
            i <= items.len(),
            weights@ == weight_map(items@, i as nat),
        decreases items.len() - i,
    {
        let rolls = &items[i].1.normal;
        let ghost before = weights@;
        let mut k: usize = 0;
        while k < rolls.len()
            invariant
                k <= rolls.len(),
                weights@ == with_weights(before, rolls@, k as nat),
            decreases rolls.len() - k,
        {
            weights.insert(rolls[k].Code.clone(), rolls[k].DropChance);
            k += 1;
        }
        i += 1;
    }
    weights
}

/// Makes the catalog and the essences from the tables: the tiers and the
/// modifiers of the table of tiers, each tier with the weight that the
/// base items give it, the tiers that roll on each base item, and the
/// essences of the table of essence modifiers.
pub fn init(dats: &Dats, items: &Vec<(String, ItemRoot)>) -> (made: Result<GameData, InitError>)
    ensures
        match made {
            Ok(data) => {
                &&& data.catalog.wf()
                &&& named(&data.catalog)
                &&& catalog_of(dats, items@, &data.catalog)
                &&& exists|index: Seq<usize>|
                    essences_loaded(dats, &data.catalog.tiers, data.essences@, index)
            },
            Err(InitError::BadTiers) => !dats.tiers_ok(),
            Err(InitError::BadEssences) => dats.tiers_ok() && !dats.essences_ok(),
        },
{
    if !dats.check_tiers() {
        return Err(InitError::BadTiers);
    }
    if !dats.check_essences() {
        return Err(InitError::BadEssences);
    }
    let (mut tiers, mods) = load_mod_tiers(dats);
    let weights = read_weights(items);
    let n = tiers.len();
    let ghost loaded = tiers;
    let values = tiers.values_mut();
    let mut i: usize = 0;
    while i < n
        invariant
            i <= n,
            n == values@.len(),
            n == loaded.values().len(),
            weights@ == weight_map(items@, items@.len()),
            forall|k: int|
                0 <= k < n ==> (#[trigger] values@[k]) == (Tier {
                    weight: values@[k].weight,
                    ..loaded.values()[k]
                }),
            forall|k: int|
                0 <= k < i ==> (#[trigger] values@[k]).weight == weight_for(
                    items@,
                    loaded.values()[k].id@,
                ),
        decreases n - i,
    {
        let weight = match weights.get(values[i].id.as_str()) {
            Some(weight) => *weight,
            None => 0,
        };
        values[i].weight = weight;
        i += 1;
    }
    let mut listing: StringHashMap<Vec<String>> = StringHashMap::new();
    let mut i: usize = 0;
    while i < items.len()
        invariant
            i <= items.len(),
            bases_listed(items@, i as int, listing@),
        decreases items.len() - i,
    {
        let rolls = &items[i].1.normal;
        let mut ids: Vec<String> = Vec::new();
        let mut k: usize = 0;
        while k < rolls.len()
            invariant
                k <= rolls.len(),
                ids@.len() == k,
                forall|j: int| 0 <= j < k ==> (#[trigger] ids@[j])@ == rolls@[j].Code@,
            decreases rolls.len() - k,
        {
            ids.push(rolls[k].Code.clone());
            k += 1;
        }
        let ghost before = listing@;
        listing.insert(items[i].0.clone(), ids);
        proof {
            let name = items@[i as int].0@;
            assert forall|key: Seq<char>| #[trigger]
                listing@.contains_key(key) <==> exists|a: int|
                    0 <= a < i + 1 && (#[trigger] items@[a]).0@ == key by {
                if before.contains_key(key) {
                    let a = choose|a: int| 0 <= a < i && (#[trigger] items@[a]).0@ == key;
                    assert(0 <= a < i + 1 && items@[a].0@ == key);
                }
                if key == name {
                    assert(0 <= i < i + 1 && items@[i as int].0@ == key);
                }
                if exists|a: int| 0 <= a < i + 1 && (#[trigger] items@[a]).0@ == key {
                    let a = choose|a: int| 0 <= a < i + 1 && (#[trigger] items@[a]).0@ == key;
                    if a < i {
                        assert(before.contains_key(key));
                    }
                }
            }
            assert forall|a: int|
                0 <= a < i + 1 && (forall|j: int|
                    a < j < i + 1 ==> (#[trigger] items@[j]).0@ != items@[a].0@) implies codes_of(
                (#[trigger] items@[a]).1.normal@,
                listing@[items@[a].0@]@,
            ) by {
                if a < i {
                    assert(items@[i as int].0@ != items@[a].0@);
                    assert forall|j: int| a < j < i implies (#[trigger] items@[j]).0@
                        != items@[a].0@ by {}
                }
            }
        }
        i += 1;
    }
    proof {
        loaded.lemma_wf();
        tiers.lemma_wf();
        mods.lemma_wf();
        let rows = dats.mods@.len() as int;
        assert forall|k: int| 0 <= k < rows implies {
            let row = #[trigger] dats.mods@[k];
            let tier = tiers.values()[k];
            &&& tier_of_row(&row, &tier)
            &&& tiers.names().contains_key(row.Id@)
            &&& tiers.names()[row.Id@] == k
            &&& mods.names().contains_key(row_group(dats, &row))
            &&& mods.names()[row_group(dats, &row)] == tier.mod_id@
        } by {
            assert(tiers.values()[k] == (Tier {
                weight: tiers.values()[k].weight,
                ..loaded.values()[k]
            }));
        }
        assert(rows_loaded(dats, rows, &tiers, &mods));
        assert forall|k: int| 0 <= k < tiers.values().len() implies 0 <= (
        #[trigger] tiers.values()[k]).mod_id@ < mods.values().len() by {
            let row = dats.mods@[k];
            assert(mods.names()[row_group(dats, &row)] == tiers.values()[k].mod_id@);
        }
        assert forall|m: int| 0 <= m < mods.values().len() implies mods.names().contains_key(
            (#[trigger] mods.values()[m]).group@,
        ) && mods.names()[mods.values()[m].group@] == m by {
            assert(first_named(dats, rows, &mods, m));
            let a = choose|a: int|
                {
                    &&& 0 <= a < rows
                    &&& #[trigger] modifier_of_row(dats, &dats.mods@[a], &mods.values()[m])
                    &&& mods.names().contains_key(row_group(dats, &dats.mods@[a]))
                    &&& mods.names()[row_group(dats, &dats.mods@[a])] == m
                    &&& forall|j: int|
                        0 <= j < a ==> row_group(dats, #[trigger] &dats.mods@[j]) != row_group(
                            dats,
                            &dats.mods@[a],
                        )
                };
        }
        assert forall|k: int| 0 <= k < tiers.values().len() implies tiers.names().contains_key(
            (#[trigger] tiers.values()[k]).id@,
        ) && tiers.names()[tiers.values()[k].id@] == k by {
            let row = dats.mods@[k];
            assert(tier_of_row(&row, &tiers.values()[k]));
        }
    }
    let essences = load_essences(dats, &tiers);
    let ghost index = choose|index: Seq<usize>| essences_loaded(dats, &tiers, essences@, index);
    let catalog = Catalog { tiers, mods, item_tiers: listing };
    let data = GameData { catalog, essences };
    assert(essences_loaded(dats, &data.catalog.tiers, data.essences@, index));
    Ok(data)
}

} // verus!
