use poe_crafting::catalog::Catalog;
use poe_crafting::hashvec::{HashVec, OpaqueIndex};
use poe_crafting::item_state::{ItemState, Rarity};
use poe_crafting::types::{Affix, ModType, Modifier, Tier};
use poe_crafting::currency::essence::{lookup, table_ok};
use poe_crafting::currency::{
    CraftError, Currency, CurrencyType, Desecrate, Essence, PerfectEssence,
};
use poe_crafting::types::{Omen, OmenSet};

/// (group, family, tags, [(tier id, affix, level, weight)])
fn rows() -> Vec<(&'static str, &'static str, Vec<&'static str>, Vec<(&'static str, Affix, u32, u32)>)> {
    vec![
        ("Life", "Life", vec!["Life"], vec![
            ("Life1", Affix::Prefix, 1, 100),
            ("Life2", Affix::Prefix, 30, 60),
            ("Life3", Affix::Prefix, 60, 20),
        ]),
        ("Mana", "Mana", vec!["Mana"], vec![
            ("Mana1", Affix::Prefix, 1, 100),
            ("Mana2", Affix::Prefix, 40, 50),
        ]),
        ("Armour", "Defences", vec!["Defences"], vec![
            ("Armour1", Affix::Prefix, 5, 80),
        ]),
        ("Evasion", "Evasion", vec!["Defences"], vec![
            ("Evasion1", Affix::Prefix, 10, 80),
        ]),
        ("FireResistance", "FireResistance", vec!["Fire", "Resistance"], vec![
            ("FireRes1", Affix::Suffix, 1, 100),
            ("FireRes2", Affix::Suffix, 36, 40),
        ]),
        ("ColdResistance", "ColdResistance", vec!["Cold", "Resistance"], vec![
            ("ColdRes1", Affix::Suffix, 1, 100),
        ]),
        ("Speed", "Speed", vec!["Speed"], vec![
            ("Speed1", Affix::Suffix, 20, 30),
        ]),
        ("Crit", "Crit", vec![], vec![
            ("Crit1", Affix::Suffix, 50, 10),
        ]),
    ]
}

fn catalog() -> Catalog {
    let mut tiers: HashVec<Tier> = HashVec::new();
    let mut mods: HashVec<Modifier> = HashVec::new();
    let mut ids: Vec<String> = Vec::new();
    for (group, family, tags, group_tiers) in rows() {
        let mod_id = mods.insert(
            group.to_string(),
            Modifier {
                group: group.to_string(),
                tags: tags.iter().map(|t| t.to_string()).collect(),
                mod_type: ModType::Normal,
                stats: vec![],
                family: family.to_string(),
            },
        );
        for (id, affix, ilvl, weight) in group_tiers {
            tiers.insert(
                id.to_string(),
                Tier {
                    id: id.to_string(),
                    name: id.to_string(),
                    mod_id,
                    affix,
                    ilvl,
                    value_ranges: vec![],
                    weight,
                    mod_domain: 1,
                },
            );
            ids.push(id.to_string());
        }
    }
    let mut cat = Catalog::new(tiers, mods).unwrap();
    cat.list_base("Ring".to_string(), ids);
    cat
}

fn tier(cat: &Catalog, id: &str) -> OpaqueIndex<Tier> {
    cat.tiers.opaque(id)
}

fn item(cat: &Catalog, rarity: Rarity, level: u32, mods: &[&str]) -> ItemState {
    ItemState {
        base_type: "Ring".to_string(),
        item_level: level,
        rarity,
        mods: mods.iter().map(|id| tier(cat, id)).collect(),
    }
}

fn ids(cat: &Catalog, tiers: &[OpaqueIndex<Tier>]) -> Vec<String> {
    tiers.iter().map(|t| cat.get_tier(*t).id.clone()).collect()
}

fn essence(cat: &Catalog, id: &str) -> Essence {
    Essence { name: "Essence".to_string(), tiers: vec![("Ring".to_string(), vec![tier(cat, id)])] }
}

fn perfect(cat: &Catalog, ids: &[&str]) -> PerfectEssence {
    PerfectEssence {
        name: "Perfect Essence".to_string(),
        tiers: vec![("Ring".to_string(), ids.iter().map(|id| tier(cat, id)).collect())],
    }
}

#[test]
fn a_table_of_an_essence_is_looked_up_by_the_base() {
    let cat = catalog();
    let table = vec![
        ("Ring".to_string(), vec![tier(&cat, "Life3")]),
        ("Bow".to_string(), vec![tier(&cat, "Speed1"), tier(&cat, "Crit1")]),
    ];
    assert!(table_ok(&cat, &table));
    assert_eq!(lookup(&table, &"Bow".to_string()), Some(&vec![tier(&cat, "Speed1"), tier(&cat, "Crit1")]));
    assert_eq!(lookup(&table, &"Ring".to_string()), Some(&vec![tier(&cat, "Life3")]));
    assert_eq!(lookup(&table, &"Helmet".to_string()), None);
}

#[test]
fn a_table_with_a_base_twice_or_without_tiers_is_refused() {
    let cat = catalog();
    let twice = vec![
        ("Ring".to_string(), vec![tier(&cat, "Life3")]),
        ("Ring".to_string(), vec![tier(&cat, "Speed1")]),
    ];
    assert!(!table_ok(&cat, &twice));
    assert!(!table_ok(&cat, &vec![("Ring".to_string(), vec![])]));
    assert!(!table_ok(&cat, &vec![("Ring".to_string(), vec![OpaqueIndex::new(99)])]));
}

#[test]
fn an_essence_makes_a_magic_item_rare_with_its_modifier() {
    let cat = catalog();
    let e = essence(&cat, "Life3");
    let mut it = item(&cat, Rarity::Magic, 80, &["Mana1", "FireRes1"]);
    assert!(e.can_be_used(&cat, &it, &[], &OmenSet::new()));
    assert_eq!(e.craft(&cat, &mut it, &[], &OmenSet::new()), Ok(()));
    assert_eq!(it.rarity, Rarity::Rare);
    assert_eq!(ids(&cat, &it.mods), vec!["Mana1", "FireRes1", "Life3"]);
    assert!(it.is_valid(&cat));
    assert_eq!(e.name(), "Essence");
}

#[test]
fn an_essence_needs_a_magic_item_of_its_base_without_its_family() {
    let cat = catalog();
    let e = essence(&cat, "Life3");
    let none = OmenSet::new();
    assert!(!e.can_be_used(&cat, &item(&cat, Rarity::Normal, 80, &[]), &[], &none));
    assert!(!e.can_be_used(&cat, &item(&cat, Rarity::Rare, 80, &[]), &[], &none));
    assert!(!e.can_be_used(&cat, &item(&cat, Rarity::Magic, 80, &["Life1"]), &[], &none));
    let mut bow = item(&cat, Rarity::Magic, 80, &[]);
    bow.base_type = "Bow".to_string();
    assert!(!e.can_be_used(&cat, &bow, &[], &none));
    assert!(e.can_be_used(&cat, &item(&cat, Rarity::Magic, 80, &[]), &[], &none));
}

#[test]
fn a_perfect_essence_adds_its_modifier_where_there_is_room() {
    let cat = catalog();
    let e = perfect(&cat, &["Life3"]);
    let none = OmenSet::new();
    let mut it = item(&cat, Rarity::Rare, 80, &["Mana1", "FireRes1"]);
    assert!(e.can_be_used(&cat, &it, &[], &none));
    assert_eq!(e.craft(&cat, &mut it, &[], &none), Ok(()));
    assert_eq!(ids(&cat, &it.mods), vec!["Mana1", "FireRes1", "Life3"]);
    assert_eq!(it.rarity, Rarity::Rare);
    assert!(it.is_valid(&cat));

    let mut empty = item(&cat, Rarity::Rare, 80, &[]);
    assert!(e.can_be_used(&cat, &empty, &[], &none));
    assert_eq!(e.craft(&cat, &mut empty, &[], &none), Ok(()));
    assert_eq!(ids(&cat, &empty.mods), vec!["Life3"]);

    let mut five = item(&cat, Rarity::Rare, 80, &["Mana1", "Armour1", "FireRes1", "ColdRes1", "Speed1"]);
    assert!(e.can_be_used(&cat, &five, &[], &none));
    assert_eq!(e.craft(&cat, &mut five, &[], &none), Ok(()));
    assert_eq!(
        ids(&cat, &five.mods),
        vec!["Mana1", "Armour1", "FireRes1", "ColdRes1", "Speed1", "Life3"]
    );
    assert!(five.is_valid(&cat));
}

#[test]
fn a_perfect_essence_takes_a_modifier_off_where_there_is_no_room() {
    let cat = catalog();
    let e = perfect(&cat, &["Life3"]);
    let base = item(&cat, Rarity::Rare, 80, &["Mana1", "Armour1", "Evasion1", "FireRes1"]);
    assert!(e.can_be_used(&cat, &base, &[], &OmenSet::new()));
    for _ in 0..100 {
        let mut it = base.clone();
        assert_eq!(e.craft(&cat, &mut it, &[], &OmenSet::new()), Ok(()));
        assert_eq!(it.mods.len(), 4);
        assert_eq!(it.mods[3], tier(&cat, "Life3"));
        assert!(it.mods.contains(&tier(&cat, "FireRes1")));
        assert!(it.is_valid(&cat));
    }
    assert_eq!(e.name(), "Perfect Essence");
}

#[test]
fn a_perfect_essence_heeds_the_affix_omens() {
    let cat = catalog();
    let e = perfect(&cat, &["Life3"]);
    let sinistral = OmenSet::from_vec(&vec![Omen::Sinistral]);
    let dextral = OmenSet::from_vec(&vec![Omen::Dextral]);
    // With room nothing is taken off, whatever the omens.
    let base = item(&cat, Rarity::Rare, 80, &["Mana1", "FireRes1", "ColdRes1"]);
    for omens in [&sinistral, &dextral] {
        let mut it = base.clone();
        assert!(e.can_be_used(&cat, &it, &[], omens));
        assert_eq!(e.craft(&cat, &mut it, &[], omens), Ok(()));
        assert_eq!(ids(&cat, &it.mods), vec!["Mana1", "FireRes1", "ColdRes1", "Life3"]);
    }
    // Without room the omens say at which affix a modifier goes.
    let prefixes = item(&cat, Rarity::Rare, 80, &["Mana1", "Armour1", "Evasion1", "FireRes1"]);
    assert!(e.can_be_used(&cat, &prefixes, &[], &sinistral));
    for _ in 0..50 {
        let mut it = prefixes.clone();
        assert_eq!(e.craft(&cat, &mut it, &[], &sinistral), Ok(()));
        assert_eq!(it.mods.len(), 4);
        assert_eq!(it.mods[2], tier(&cat, "FireRes1"));
        assert_eq!(it.mods[3], tier(&cat, "Life3"));
    }
    assert!(!e.can_be_used(&cat, &prefixes, &[], &dextral));
    assert!(!e.can_be_used(&cat, &item(&cat, Rarity::Magic, 80, &["Mana1"]), &[], &OmenSet::new()));
    assert!(!e.can_be_used(&cat, &item(&cat, Rarity::Rare, 80, &["Life1"]), &[], &OmenSet::new()));
}

#[test]
fn a_perfect_essence_makes_room_at_a_crowded_affix() {
    let cat = catalog();
    let e = perfect(&cat, &["Armour1"]);
    let crowded = item(&cat, Rarity::Rare, 80, &["Mana1", "Evasion1", "Life1", "FireRes1"]);
    assert!(e.can_be_used(&cat, &crowded, &[], &OmenSet::new()));
    for _ in 0..50 {
        let mut it = crowded.clone();
        assert_eq!(e.craft(&cat, &mut it, &[], &OmenSet::new()), Ok(()));
        assert_eq!(it.mods.len(), 4);
        assert_eq!(it.mods[2], tier(&cat, "FireRes1"));
        assert_eq!(it.mods[3], tier(&cat, "Armour1"));
        assert!(it.is_valid(&cat));
    }
    let suffixes_only = OmenSet::from_vec(&vec![Omen::Dextral]);
    assert!(!e.can_be_used(&cat, &crowded, &[], &suffixes_only));
}

#[test]
fn a_perfect_essence_that_gives_one_of_several_adds_what_fits() {
    let cat = catalog();
    let e = perfect(&cat, &["Mana1", "Life2"]);
    let mut it = item(&cat, Rarity::Rare, 80, &["Life1", "ColdRes1"]);
    let dextral = OmenSet::from_vec(&vec![Omen::Dextral]);
    assert!(e.can_be_used(&cat, &it, &[], &dextral));
    assert_eq!(e.craft(&cat, &mut it, &[], &dextral), Ok(()));
    assert_eq!(ids(&cat, &it.mods), vec!["Life1", "ColdRes1", "Mana1"]);
}

#[test]
fn a_perfect_essence_that_cannot_add_says_so() {
    let mut cat = catalog();
    let hybrid = cat.mods.insert(
        "Hybrid".to_string(),
        Modifier {
            group: "Hybrid".to_string(),
            tags: vec![],
            mod_type: ModType::Normal,
            stats: vec![],
            family: "Hybrid".to_string(),
        },
    );
    for (id, affix) in [("HybridPrefix", Affix::Prefix), ("HybridSuffix", Affix::Suffix)] {
        cat.tiers.insert(
            id.to_string(),
            Tier {
                id: id.to_string(),
                name: id.to_string(),
                mod_id: hybrid,
                affix,
                ilvl: 1,
                value_ranges: vec![],
                weight: 10,
                mod_domain: 1,
            },
        );
    }
    let e = perfect(&cat, &["Armour1", "HybridSuffix"]);
    let mut it = item(&cat, Rarity::Rare, 80, &["HybridPrefix", "Mana1", "Evasion1", "ColdRes1"]);
    let dextral = OmenSet::from_vec(&vec![Omen::Dextral]);
    assert!(e.can_be_used(&cat, &it, &[], &dextral));
    assert_eq!(e.craft(&cat, &mut it, &[], &dextral), Err(CraftError::NoCandidates));
    assert_eq!(ids(&cat, &it.mods), vec!["HybridPrefix", "Mana1", "Evasion1", "ColdRes1"]);
    assert!(it.is_valid(&cat));
}

#[test]
fn a_perfect_essence_of_both_affixes_makes_room_on_a_full_item() {
    let mut cat = catalog();
    let hybrid = cat.mods.insert(
        "Hybrid".to_string(),
        Modifier {
            group: "Hybrid".to_string(),
            tags: vec![],
            mod_type: ModType::Normal,
            stats: vec![],
            family: "Hybrid".to_string(),
        },
    );
    for (id, affix) in [("HybridPrefix", Affix::Prefix), ("HybridSuffix", Affix::Suffix)] {
        cat.tiers.insert(
            id.to_string(),
            Tier {
                id: id.to_string(),
                name: id.to_string(),
                mod_id: hybrid,
                affix,
                ilvl: 1,
                value_ranges: vec![],
                weight: 10,
                mod_domain: 1,
            },
        );
    }
    let e = perfect(&cat, &["HybridPrefix", "HybridSuffix"]);
    let full =
        item(&cat, Rarity::Rare, 80, &["Mana1", "Armour1", "Evasion1", "FireRes1", "ColdRes1", "Speed1"]);
    let none = OmenSet::new();
    assert!(e.can_be_used(&cat, &full, &[], &none));
    for _ in 0..50 {
        let mut it = full.clone();
        assert_eq!(e.craft(&cat, &mut it, &[], &none), Ok(()));
        assert_eq!(it.mods.len(), 6);
        let last = cat.get_tier(it.mods[5]).id.clone();
        assert!(last == "HybridPrefix" || last == "HybridSuffix");
        assert!(it.is_valid(&cat));
    }
    let dextral = OmenSet::from_vec(&vec![Omen::Dextral]);
    for _ in 0..20 {
        let mut it = full.clone();
        assert_eq!(e.craft(&cat, &mut it, &[], &dextral), Ok(()));
        assert_eq!(ids(&cat, &it.mods[..3]), vec!["Mana1", "Armour1", "Evasion1"]);
        assert_eq!(it.mods[5], tier(&cat, "HybridSuffix"));
    }
}

fn veiled_catalog() -> Catalog {
    let mut tiers: HashVec<Tier> = HashVec::new();
    let mut mods: HashVec<Modifier> = HashVec::new();
    let rows = [
        ("Veiled1", "VeiledPrefix", Affix::Prefix),
        ("Veiled2", "VeiledSuffix", Affix::Suffix),
        ("Life", "Life1", Affix::Prefix),
        ("Mana", "Mana1", Affix::Prefix),
        ("Armour", "Armour1", Affix::Prefix),
        ("Fire", "FireRes1", Affix::Suffix),
        ("Cold", "ColdRes1", Affix::Suffix),
        ("Speed", "Speed1", Affix::Suffix),
    ];
    for (group, id, affix) in rows {
        let mod_id = mods.insert(
            group.to_string(),
            Modifier {
                group: group.to_string(),
                tags: vec![],
                mod_type: ModType::Normal,
                stats: vec![],
                family: group.to_string(),
            },
        );
        tiers.insert(
            id.to_string(),
            Tier {
                id: id.to_string(),
                name: id.to_string(),
                mod_id,
                affix,
                ilvl: 1,
                value_ranges: vec![],
                weight: 1,
                mod_domain: 1,
            },
        );
    }
    Catalog::new(tiers, mods).unwrap()
}

#[test]
fn a_desecration_adds_a_veiled_modifier() {
    let cat = veiled_catalog();
    let none = OmenSet::new();
    let base = item(&cat, Rarity::Rare, 80, &["Life1", "FireRes1"]);
    assert!(Desecrate.can_be_used(&cat, &base, &[], &none));
    assert!(!Desecrate.can_be_used(&cat, &item(&cat, Rarity::Magic, 80, &[]), &[], &none));
    for _ in 0..50 {
        let mut it = base.clone();
        assert_eq!(Desecrate.craft(&cat, &mut it, &[], &none), Ok(()));
        assert_eq!(it.mods.len(), 3);
        assert!(["VeiledPrefix", "VeiledSuffix"].contains(&cat.get_tier(it.mods[2]).id.as_str()));
        assert!(it.is_valid(&cat));
        let mut it = base.clone();
        assert_eq!(Desecrate.craft(&cat, &mut it, &[], &OmenSet::from_vec(&vec![Omen::Sinistral])), Ok(()));
        assert_eq!(ids(&cat, &it.mods), vec!["Life1", "FireRes1", "VeiledPrefix"]);
        let mut it = base.clone();
        assert_eq!(Desecrate.craft(&cat, &mut it, &[], &OmenSet::from_vec(&vec![Omen::Dextral])), Ok(()));
        assert_eq!(ids(&cat, &it.mods), vec!["Life1", "FireRes1", "VeiledSuffix"]);
    }
    assert_eq!(Desecrate.name(), "Descrate Item");
    assert_eq!(CurrencyType::Desecrate.name(), "Descrate Item");
}

#[test]
fn a_desecration_makes_room_on_a_full_item() {
    let cat = veiled_catalog();
    let full = item(&cat, Rarity::Rare, 80, &["Life1", "Mana1", "Armour1", "FireRes1", "ColdRes1", "Speed1"]);
    for _ in 0..50 {
        let mut it = full.clone();
        assert_eq!(Desecrate.craft(&cat, &mut it, &[], &OmenSet::new()), Ok(()));
        assert_eq!(it.mods.len(), 6);
        assert!(it.is_valid(&cat));
        let mut it = full.clone();
        assert_eq!(Desecrate.craft(&cat, &mut it, &[], &OmenSet::from_vec(&vec![Omen::Sinistral])), Ok(()));
        assert_eq!(it.mods[5], tier(&cat, "VeiledPrefix"));
        assert_eq!(it.num_suffixes(&cat), 3);
        let mut it = full.clone();
        assert_eq!(Desecrate.craft(&cat, &mut it, &[], &OmenSet::from_vec(&vec![Omen::Dextral])), Ok(()));
        assert_eq!(it.mods[5], tier(&cat, "VeiledSuffix"));
        assert_eq!(it.num_prefixes(&cat), 3);
    }
    let mut it = full.clone();
    let both = OmenSet::from_vec(&vec![Omen::Sinistral, Omen::Dextral]);
    assert_eq!(Desecrate.craft(&cat, &mut it, &[], &both), Err(CraftError::NoCandidates));
    assert_eq!(it.mods.len(), 5);
}
