use poe_crafting::builder::{holds_tier, keep_from_level, limit_to_rarity, toggle};
use poe_crafting::catalog::Catalog;
use poe_crafting::hashvec::{HashVec, OpaqueIndex};
use poe_crafting::item_state::{ItemState, Rarity};
use poe_crafting::types::{Affix, ModType, Modifier, Tier};

/// Prefixes Pre1..Pre4 and suffixes Suf1..Suf4 of modifiers of their own, a second
/// tier of the first prefix, and a corrupted tier.
fn builder_catalog() -> Catalog {
    let mut mods: HashVec<Modifier> = HashVec::new();
    let mut tiers: HashVec<Tier> = HashVec::new();
    let rows: Vec<(&str, &str, Affix, u32)> = vec![
        ("Pre1", "ModPre1", Affix::Prefix, 10),
        ("Pre1b", "ModPre1", Affix::Prefix, 40),
        ("Pre2", "ModPre2", Affix::Prefix, 20),
        ("Pre3", "ModPre3", Affix::Prefix, 30),
        ("Pre4", "ModPre4", Affix::Prefix, 40),
        ("Suf1", "ModSuf1", Affix::Suffix, 10),
        ("Suf2", "ModSuf2", Affix::Suffix, 20),
        ("Suf3", "ModSuf3", Affix::Suffix, 30),
        ("Suf4", "ModSuf4", Affix::Suffix, 40),
        ("Cor1", "ModCor1", Affix::Corrupted, 1),
    ];
    for (id, modifier, affix, ilvl) in rows {
        if !mods.contains_key(modifier) {
            mods.insert(
                modifier.to_string(),
                Modifier {
                    group: modifier.to_string(),
                    tags: vec![],
                    mod_type: ModType::Normal,
                    stats: vec![],
                    family: modifier.to_string(),
                },
            );
        }
        tiers.insert(
            id.to_string(),
            Tier {
                id: id.to_string(),
                name: id.to_string(),
                mod_id: mods.get_opaque(modifier).unwrap(),
                affix,
                ilvl,
                value_ranges: vec![],
                weight: 1,
                mod_domain: 1,
            },
        );
    }
    Catalog::new(tiers, mods).unwrap()
}

fn at(cat: &Catalog, id: &str) -> OpaqueIndex<Tier> {
    cat.tiers.get_opaque(id).unwrap()
}

fn built(cat: &Catalog, rarity: Rarity, level: u32, mods: &[&str]) -> ItemState {
    ItemState {
        base_type: "Ring".to_string(),
        item_level: level,
        rarity,
        mods: mods.iter().map(|id| at(cat, id)).collect(),
    }
}

fn names(cat: &Catalog, item: &ItemState) -> Vec<String> {
    item.mods.iter().map(|&t| cat.get_tier(t).id.clone()).collect()
}

#[test]
fn a_tier_is_found_among_the_modifiers() {
    let cat = builder_catalog();
    let item = built(&cat, Rarity::Rare, 50, &["Pre1", "Suf2"]);
    assert!(holds_tier(&item.mods, at(&cat, "Suf2")));
    assert!(!holds_tier(&item.mods, at(&cat, "Pre1b")));
    assert!(!holds_tier(&Vec::new(), at(&cat, "Pre1")));
}

#[test]
fn picking_a_tier_that_is_there_takes_it_off() {
    let cat = builder_catalog();
    let mut item = built(&cat, Rarity::Rare, 50, &["Pre1", "Suf2", "Pre3"]);
    toggle(&mut item, &cat, at(&cat, "Suf2"));
    assert_eq!(names(&cat, &item), vec!["Pre1", "Pre3"]);
    assert_eq!(item.rarity, Rarity::Rare);
    assert_eq!(item.item_level, 50);
    assert_eq!(item.base_type, "Ring");
}

#[test]
fn picking_another_tier_of_a_modifier_swaps_the_tiers() {
    let cat = builder_catalog();
    let mut item = built(&cat, Rarity::Rare, 50, &["Pre1", "Suf2", "Pre3"]);
    toggle(&mut item, &cat, at(&cat, "Pre1b"));
    assert_eq!(names(&cat, &item), vec!["Suf2", "Pre3", "Pre1b"]);
    // Also where the affix is full.
    let mut item = built(&cat, Rarity::Magic, 50, &["Pre1"]);
    toggle(&mut item, &cat, at(&cat, "Pre1b"));
    assert_eq!(names(&cat, &item), vec!["Pre1b"]);
}

#[test]
fn picking_a_new_tier_adds_it_where_there_is_room() {
    let cat = builder_catalog();
    let mut item = built(&cat, Rarity::Rare, 50, &["Pre1", "Pre2"]);
    toggle(&mut item, &cat, at(&cat, "Pre3"));
    assert_eq!(names(&cat, &item), vec!["Pre1", "Pre2", "Pre3"]);
    toggle(&mut item, &cat, at(&cat, "Pre4"));
    assert_eq!(names(&cat, &item), vec!["Pre1", "Pre2", "Pre3"]);
    toggle(&mut item, &cat, at(&cat, "Suf4"));
    assert_eq!(names(&cat, &item), vec!["Pre1", "Pre2", "Pre3", "Suf4"]);

    let mut item = built(&cat, Rarity::Normal, 50, &[]);
    toggle(&mut item, &cat, at(&cat, "Pre1"));
    assert_eq!(names(&cat, &item), Vec::<String>::new());

    let mut item = built(&cat, Rarity::Magic, 50, &["Suf1"]);
    toggle(&mut item, &cat, at(&cat, "Suf2"));
    assert_eq!(names(&cat, &item), vec!["Suf1"]);
    toggle(&mut item, &cat, at(&cat, "Pre2"));
    assert_eq!(names(&cat, &item), vec!["Suf1", "Pre2"]);
}

#[test]
fn a_corrupted_tier_is_not_added_by_hand() {
    let cat = builder_catalog();
    let mut item = built(&cat, Rarity::Rare, 50, &["Pre1"]);
    toggle(&mut item, &cat, at(&cat, "Cor1"));
    assert_eq!(names(&cat, &item), vec!["Pre1"]);
    // One that is there is taken off as any other.
    let mut item = built(&cat, Rarity::Rare, 50, &["Pre1", "Cor1"]);
    toggle(&mut item, &cat, at(&cat, "Cor1"));
    assert_eq!(names(&cat, &item), vec!["Pre1"]);
}

#[test]
fn the_rarity_limits_prefixes_and_suffixes() {
    let cat = builder_catalog();
    let mods = ["Suf1", "Pre1", "Cor1", "Suf2", "Pre2", "Pre3", "Suf3", "Suf4", "Pre4"];
    let mut item = built(&cat, Rarity::Rare, 50, &mods);
    limit_to_rarity(&mut item, &cat);
    assert_eq!(names(&cat, &item), vec!["Pre1", "Pre2", "Pre3", "Suf1", "Suf2", "Suf3"]);

    let mut item = built(&cat, Rarity::Magic, 50, &mods);
    limit_to_rarity(&mut item, &cat);
    assert_eq!(names(&cat, &item), vec!["Pre1", "Suf1"]);

    let mut item = built(&cat, Rarity::Normal, 50, &mods);
    limit_to_rarity(&mut item, &cat);
    assert_eq!(names(&cat, &item), Vec::<String>::new());

    let mut item = built(&cat, Rarity::Rare, 50, &["Suf2", "Pre4"]);
    limit_to_rarity(&mut item, &cat);
    assert_eq!(names(&cat, &item), vec!["Pre4", "Suf2"]);
}

#[test]
fn the_level_keeps_the_tiers_from_it_on() {
    let cat = builder_catalog();
    let mut item = built(&cat, Rarity::Rare, 30, &["Pre1", "Suf3", "Pre4", "Suf2"]);
    keep_from_level(&mut item, &cat);
    assert_eq!(names(&cat, &item), vec!["Suf3", "Pre4"]);
    let mut item = built(&cat, Rarity::Rare, 1, &["Pre1", "Suf3"]);
    keep_from_level(&mut item, &cat);
    assert_eq!(names(&cat, &item), vec!["Pre1", "Suf3"]);
    let mut item = built(&cat, Rarity::Rare, 41, &["Pre1", "Suf3"]);
    keep_from_level(&mut item, &cat);
    assert_eq!(names(&cat, &item), Vec::<String>::new());
}
