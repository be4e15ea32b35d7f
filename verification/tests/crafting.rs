use poe_crafting::catalog::Catalog;
use poe_crafting::hashvec::{HashVec, OpaqueIndex};
use poe_crafting::item_state::{ItemState, Rarity};
use poe_crafting::types::{Affix, ModType, Modifier, Tier};
use poe_crafting::crafting::{
    filter_affix, filter_better_currency, filter_lowest_tier, filter_out_families, filter_tags,
};
use poe_crafting::omen::{
    DextralAnnulment, DextralCoronation, DextralCrystallisation, SinistralAnnulment,
    SinistralCoronation, SinistralCrystallisation,
};

/// (group, family, tags, [(tier id, affix, level, weight)])
fn rows() -> Vec<(&'static str, &'static str, Vec<&'static str>, Vec<(&'static str, Affix, u32, u32)>)> {
    vec![
        ("Life", "Life", vec!["Life"], vec![
            ("Life1", Affix::Prefix, 1, 100),
            ("Life2", Affix::Prefix, 30, 60),
            ("Life3", Affix::Prefix, 60, 20),
        ]),
        ("Mana", "Mana", vec!["Mana"], vec![
            ("Mana1", Affix::Prefix, 1, 100),
            ("Mana2", Affix::Prefix, 40, 50),
        ]),
        ("Armour", "Defences", vec!["Defences"], vec![
            ("Armour1", Affix::Prefix, 5, 80),
        ]),
        ("Evasion", "Evasion", vec!["Defences"], vec![
            ("Evasion1", Affix::Prefix, 10, 80),
        ]),
        ("FireResistance", "FireResistance", vec!["Fire", "Resistance"], vec![
            ("FireRes1", Affix::Suffix, 1, 100),
            ("FireRes2", Affix::Suffix, 36, 40),
        ]),
        ("ColdResistance", "ColdResistance", vec!["Cold", "Resistance"], vec![
            ("ColdRes1", Affix::Suffix, 1, 100),
        ]),
        ("Speed", "Speed", vec!["Speed"], vec![
            ("Speed1", Affix::Suffix, 20, 30),
        ]),
        ("Crit", "Crit", vec![], vec![
            ("Crit1", Affix::Suffix, 50, 10),
        ]),
    ]
}

fn catalog() -> Catalog {
    let mut tiers: HashVec<Tier> = HashVec::new();
    let mut mods: HashVec<Modifier> = HashVec::new();
    let mut ids: Vec<String> = Vec::new();
    for (group, family, tags, group_tiers) in rows() {
        let mod_id = mods.insert(
            group.to_string(),
            Modifier {
                group: group.to_string(),
                tags: tags.iter().map(|t| t.to_string()).collect(),
                mod_type: ModType::Normal,
                stats: vec![],
                family: family.to_string(),
            },
        );
        for (id, affix, ilvl, weight) in group_tiers {
            tiers.insert(
                id.to_string(),
                Tier {
                    id: id.to_string(),
                    name: id.to_string(),
                    mod_id,
                    affix,
                    ilvl,
                    value_ranges: vec![],
                    weight,
                    mod_domain: 1,
                },
            );
            ids.push(id.to_string());
        }
    }
    let mut cat = Catalog::new(tiers, mods).unwrap();
    cat.list_base("Ring".to_string(), ids);
    cat
}

fn tier(cat: &Catalog, id: &str) -> OpaqueIndex<Tier> {
    cat.tiers.opaque(id)
}

fn item(cat: &Catalog, rarity: Rarity, level: u32, mods: &[&str]) -> ItemState {
    ItemState {
        base_type: "Ring".to_string(),
        item_level: level,
        rarity,
        mods: mods.iter().map(|id| tier(cat, id)).collect(),
    }
}

fn ids(cat: &Catalog, tiers: &[OpaqueIndex<Tier>]) -> Vec<String> {
    tiers.iter().map(|t| cat.get_tier(*t).id.clone()).collect()
}

fn pool(cat: &Catalog, ids: &[&str]) -> Vec<OpaqueIndex<Tier>> {
    ids.iter().map(|id| tier(cat, id)).collect()
}

#[test]
fn affix_filter_keeps_the_affix() {
    let cat = catalog();
    let p = pool(&cat, &["Life1", "FireRes1", "Mana2", "Crit1"]);
    assert_eq!(ids(&cat, &filter_affix(&cat, &p, Affix::Prefix)), vec!["Life1", "Mana2"]);
    assert_eq!(ids(&cat, &filter_affix(&cat, &p, Affix::Suffix)), vec!["FireRes1", "Crit1"]);
    assert!(filter_affix(&cat, &p, Affix::Corrupted).is_empty());
}

#[test]
fn tag_filter_keeps_what_shares_a_tag() {
    let cat = catalog();
    let p = pool(&cat, &["Life1", "FireRes1", "ColdRes1", "Crit1", "Armour1"]);
    let tags = vec!["Resistance".to_string(), "Defences".to_string()];
    assert_eq!(ids(&cat, &filter_tags(&cat, &p, &tags)), vec!["FireRes1", "ColdRes1", "Armour1"]);
    // Without tags the filter keeps the pool as it is.
    assert_eq!(
        ids(&cat, &filter_tags(&cat, &p, &vec![])),
        vec!["Life1", "FireRes1", "ColdRes1", "Crit1", "Armour1"]
    );
    assert!(filter_tags(&cat, &[], &tags).is_empty());
}

#[test]
fn lowest_tier_filter_keeps_the_lowest_level() {
    let cat = catalog();
    let p = pool(&cat, &["Life2", "Armour1", "Speed1", "Armour1"]);
    assert_eq!(ids(&cat, &filter_lowest_tier(&cat, &p)), vec!["Armour1", "Armour1"]);
    let one = pool(&cat, &["Crit1"]);
    assert_eq!(ids(&cat, &filter_lowest_tier(&cat, &one)), vec!["Crit1"]);
    assert!(filter_lowest_tier(&cat, &[]).is_empty());
}

#[test]
fn family_filter_drops_the_families() {
    let cat = catalog();
    let p = pool(&cat, &["Life1", "Life2", "Armour1", "Evasion1", "FireRes1"]);
    let families = vec!["Life".to_string(), "Defences".to_string()];
    assert_eq!(ids(&cat, &filter_out_families(&cat, &p, &families)), vec!["Evasion1", "FireRes1"]);
}

#[test]
fn a_raised_pool_keeps_the_tiers_at_the_level() {
    let cat = catalog();
    let p = pool(&cat, &["Life1", "Life2", "Life3", "Mana1", "Mana2"]);
    assert_eq!(ids(&cat, &filter_better_currency(&cat, &p, 35)), vec!["Life3", "Mana2"]);
    assert_eq!(ids(&cat, &filter_better_currency(&cat, &p, 30)), vec!["Life2", "Life3", "Mana2"]);
}

#[test]
fn a_raised_pool_keeps_the_highest_tier_of_a_modifier_below_the_level() {
    let cat = catalog();
    let p = pool(&cat, &["Life1", "Life2", "Mana1", "Mana2", "Armour1"]);
    assert_eq!(ids(&cat, &filter_better_currency(&cat, &p, 35)), vec!["Life2", "Mana2", "Armour1"]);
    assert_eq!(ids(&cat, &filter_better_currency(&cat, &p, 70)), vec!["Life2", "Mana2", "Armour1"]);
}

#[test]
fn a_raised_pool_is_in_the_order_of_the_modifiers() {
    let cat = catalog();
    let p = pool(&cat, &["Crit1", "FireRes2", "Armour1", "Life3", "FireRes1", "Mana2"]);
    assert_eq!(
        ids(&cat, &filter_better_currency(&cat, &p, 35)),
        vec!["Life3", "Mana2", "Armour1", "FireRes2", "Crit1"]
    );
}

#[test]
fn a_raised_pool_is_of_the_pool_and_not_empty() {
    let cat = catalog();
    let all: Vec<&str> = rows().iter().flat_map(|r| r.3.iter().map(|t| t.0)).collect();
    let p = pool(&cat, &all);
    for level in [0, 1, 35, 50, 55, 70, 100] {
        let raised = filter_better_currency(&cat, &p, level);
        assert!(!raised.is_empty());
        assert!(raised.len() <= p.len());
        for t in &raised {
            assert!(p.contains(t));
        }
        for group in 0..8 {
            assert!(raised.iter().any(|t| cat.get_tier(*t).mod_id.index() == group));
        }
    }
    assert!(filter_better_currency(&cat, &[], 35).is_empty());
}

#[test]
fn the_omens_of_the_affixes_filter_by_affix() {
    let cat = catalog();
    let p = pool(&cat, &["Life1", "FireRes1", "Mana2", "Crit1"]);
    let prefixes = vec!["Life1", "Mana2"];
    let suffixes = vec!["FireRes1", "Crit1"];
    assert_eq!(ids(&cat, &SinistralAnnulment::filter_mods(&cat, &p)), prefixes);
    assert_eq!(ids(&cat, &DextralAnnulment::filter_mods(&cat, &p)), suffixes);
    assert_eq!(ids(&cat, &SinistralCoronation::filter_mods(&cat, &p)), prefixes);
    assert_eq!(ids(&cat, &DextralCoronation::filter_mods(&cat, &p)), suffixes);
    assert_eq!(ids(&cat, &SinistralCrystallisation::filter_mods(&cat, &p)), prefixes);
    assert_eq!(ids(&cat, &DextralCrystallisation::filter_mods(&cat, &p)), suffixes);
}
