use poe_crafting::catalog::Catalog;
use poe_crafting::hashvec::{HashVec, OpaqueIndex};
use poe_crafting::item_state::{ItemState, Rarity};
use poe_crafting::types::{Affix, ModType, Modifier, Tier};
use poe_crafting::currency::{Currency, CurrencyType, Essence};
use poe_crafting::io::{check_names, find_currency, DecodeError, SavedStrategy};
use poe_crafting::strategy::{Condition, ConditionGroup, ModifierCondition, Strategy};
use poe_crafting::types::{Omen, OmenSet};

/// (group, family, tags, [(tier id, affix, level, weight)])
fn rows() -> Vec<(&'static str, &'static str, Vec<&'static str>, Vec<(&'static str, Affix, u32, u32)>)> {
    vec![
        ("Life", "Life", vec!["Life"], vec![
            ("Life1", Affix::Prefix, 1, 100),
            ("Life2", Affix::Prefix, 30, 60),
            ("Life3", Affix::Prefix, 60, 20),
        ]),
        ("Mana", "Mana", vec!["Mana"], vec![
            ("Mana1", Affix::Prefix, 1, 100),
            ("Mana2", Affix::Prefix, 40, 50),
        ]),
        ("Armour", "Defences", vec!["Defences"], vec![
            ("Armour1", Affix::Prefix, 5, 80),
        ]),
        ("Evasion", "Evasion", vec!["Defences"], vec![
            ("Evasion1", Affix::Prefix, 10, 80),
        ]),
        ("FireResistance", "FireResistance", vec!["Fire", "Resistance"], vec![
            ("FireRes1", Affix::Suffix, 1, 100),
            ("FireRes2", Affix::Suffix, 36, 40),
        ]),
        ("ColdResistance", "ColdResistance", vec!["Cold", "Resistance"], vec![
            ("ColdRes1", Affix::Suffix, 1, 100),
        ]),
        ("Speed", "Speed", vec!["Speed"], vec![
            ("Speed1", Affix::Suffix, 20, 30),
        ]),
        ("Crit", "Crit", vec![], vec![
            ("Crit1", Affix::Suffix, 50, 10),
        ]),
    ]
}

fn catalog() -> Catalog {
    let mut tiers: HashVec<Tier> = HashVec::new();
    let mut mods: HashVec<Modifier> = HashVec::new();
    let mut ids: Vec<String> = Vec::new();
    for (group, family, tags, group_tiers) in rows() {
        let mod_id = mods.insert(
            group.to_string(),
            Modifier {
                group: group.to_string(),
                tags: tags.iter().map(|t| t.to_string()).collect(),
                mod_type: ModType::Normal,
                stats: vec![],
                family: family.to_string(),
            },
        );
        for (id, affix, ilvl, weight) in group_tiers {
            tiers.insert(
                id.to_string(),
                Tier {
                    id: id.to_string(),
                    name: id.to_string(),
                    mod_id,
                    affix,
                    ilvl,
                    value_ranges: vec![],
                    weight,
                    mod_domain: 1,
                },
            );
            ids.push(id.to_string());
        }
    }
    let mut cat = Catalog::new(tiers, mods).unwrap();
    cat.list_base("Ring".to_string(), ids);
    cat
}

fn tier(cat: &Catalog, id: &str) -> OpaqueIndex<Tier> {
    cat.tiers.opaque(id)
}

fn item(cat: &Catalog, rarity: Rarity, level: u32, mods: &[&str]) -> ItemState {
    ItemState {
        base_type: "Ring".to_string(),
        item_level: level,
        rarity,
        mods: mods.iter().map(|id| tier(cat, id)).collect(),
    }
}

fn ids(cat: &Catalog, tiers: &[OpaqueIndex<Tier>]) -> Vec<String> {
    tiers.iter().map(|t| cat.get_tier(*t).id.clone()).collect()
}

fn strategy(cat: &Catalog) -> Strategy {
    Strategy(vec![
        (
            Condition { rarity: Rarity::Normal, groups: vec![] },
            Some((OmenSet::new(), CurrencyType::PerfectTransmute)),
        ),
        (
            Condition {
                rarity: Rarity::Magic,
                groups: vec![
                    ConditionGroup::AffixCount { suffixes: 0..=1, prefixes: 0..=1, affixes: 1..=1 },
                    ConditionGroup::Count {
                        count: 1..=2,
                        mods: vec![
                            ModifierCondition { mod_group: cat.mods.opaque("Life"), levels: vec![30, 60] },
                            ModifierCondition { mod_group: cat.mods.opaque("Speed"), levels: vec![20] },
                        ],
                    },
                    ConditionGroup::Not(vec![cat.mods.opaque("Mana")]),
                ],
            },
            Some((OmenSet::from_vec(&vec![Omen::Homogenous]), CurrencyType::GreaterRegal)),
        ),
        (Condition { rarity: Rarity::Magic, groups: vec![] }, None),
    ])
}

fn currencies(cat: &Catalog) -> Vec<CurrencyType> {
    let mut all = CurrencyType::all();
    all.push(CurrencyType::Essence(Essence {
        name: "Essence of the Body".to_string(),
        tiers: vec![("Ring".to_string(), vec![tier(cat, "Life3")])],
    }));
    all
}

#[test]
fn names_are_written_in_the_place_of_positions() {
    let cat = catalog();
    let it = item(&cat, Rarity::Magic, 77, &["Life2", "Speed1"]);
    let saved = SavedStrategy::new(&cat, &it, &strategy(&cat));
    assert_eq!(saved.base_item.base_type, "Ring");
    assert_eq!(saved.base_item.item_level, 77);
    assert_eq!(saved.base_item.rarity, Rarity::Magic);
    assert_eq!(saved.base_item.mods, vec!["Life2", "Speed1"]);
    assert_eq!(saved.strategy.len(), 3);
    assert_eq!(saved.strategy[0].1, Some((OmenSet::new(), "Perfect Transmute".to_string())));
    assert_eq!(saved.strategy[1].1.as_ref().unwrap().1, "Greater Regal");
    assert!(saved.strategy[1].1.as_ref().unwrap().0.contains(&Omen::Homogenous));
    assert!(saved.strategy[2].1.is_none());
    match &saved.strategy[1].0.groups[1] {
        poe_crafting::io::SavedConditionGroup::Count { count, mods } => {
            assert_eq!(*count, 1..=2);
            assert_eq!(mods[0].mod_group, "Life");
            assert_eq!(mods[0].levels, vec![30, 60]);
            assert_eq!(mods[1].mod_group, "Speed");
        }
        other => panic!("{:?}", other),
    }
    match &saved.strategy[1].0.groups[2] {
        poe_crafting::io::SavedConditionGroup::Not(names) => assert_eq!(names, &vec!["Mana".to_string()]),
        other => panic!("{:?}", other),
    }
}

#[test]
fn what_is_saved_and_read_again_selects_the_same() {
    let cat = catalog();
    assert!(check_names(&cat));
    let it = item(&cat, Rarity::Magic, 77, &["Life2", "Speed1"]);
    let s = strategy(&cat);
    let saved = SavedStrategy::new(&cat, &it, &s);
    let (read_item, read) = saved.restore(&cat, &currencies(&cat)).unwrap();
    assert_eq!(read_item.base_type, it.base_type);
    assert_eq!(read_item.item_level, it.item_level);
    assert_eq!(read_item.rarity, it.rarity);
    assert_eq!(read_item.mods, it.mods);
    assert_eq!(read.0.len(), s.0.len());
    let probes = [
        item(&cat, Rarity::Normal, 80, &[]),
        item(&cat, Rarity::Magic, 80, &["Life2"]),
        item(&cat, Rarity::Magic, 80, &["Life1"]),
        item(&cat, Rarity::Magic, 80, &["Speed1"]),
        item(&cat, Rarity::Magic, 80, &["Mana1", "Speed1"]),
        item(&cat, Rarity::Rare, 80, &["Life3"]),
    ];
    for probe in &probes {
        let found = s.get(&cat, probe);
        assert_eq!(read.get(&cat, probe), found);
        if let Some(i) = found {
            match (&s.0[i].1, &read.0[i].1) {
                (None, None) => {}
                (Some((o1, c1)), Some((o2, c2))) => {
                    assert_eq!(o1, o2);
                    assert_eq!(c1.name(), c2.name());
                }
                _ => panic!("the actions differ"),
            }
        }
    }
}

#[test]
fn an_essence_is_read_by_its_name() {
    let cat = catalog();
    let list = currencies(&cat);
    assert_eq!(find_currency(&list, &"Essence of the Body".to_string()), Some(18));
    assert_eq!(find_currency(&list, &"Chaos".to_string()), Some(14));
    assert_eq!(find_currency(&list, &"Essence of the Mind".to_string()), None);
    let s = Strategy(vec![(
        Condition { rarity: Rarity::Magic, groups: vec![] },
        Some((OmenSet::new(), list[18].clone())),
    )]);
    let saved = SavedStrategy::new(&cat, &item(&cat, Rarity::Magic, 80, &[]), &s);
    let (_, read) = saved.restore(&cat, &list).unwrap();
    match &read.0[0].1 {
        Some((_, CurrencyType::Essence(e))) => {
            assert_eq!(e.name, "Essence of the Body");
            assert_eq!(e.tiers, vec![("Ring".to_string(), vec![tier(&cat, "Life3")])]);
        }
        other => panic!("{:?}", other),
    }
}

#[test]
fn an_unknown_tier_is_told() {
    let cat = catalog();
    let mut saved = SavedStrategy::new(&cat, &item(&cat, Rarity::Magic, 77, &["Life2"]), &strategy(&cat));
    saved.base_item.mods.push("Wisdom9".to_string());
    match saved.restore(&cat, &currencies(&cat)) {
        Err(DecodeError::UnknownTier(id)) => assert_eq!(id, "Wisdom9"),
        other => panic!("{:?}", other.map(|_| ())),
    }
}

#[test]
fn an_unknown_modifier_is_told() {
    let cat = catalog();
    let mut saved = SavedStrategy::new(&cat, &item(&cat, Rarity::Magic, 77, &["Life2"]), &strategy(&cat));
    saved.strategy[1].0.groups[2] = poe_crafting::io::SavedConditionGroup::Not(vec!["Wisdom".to_string()]);
    match saved.restore(&cat, &currencies(&cat)) {
        Err(DecodeError::UnknownModifier(name)) => assert_eq!(name, "Wisdom"),
        other => panic!("{:?}", other.map(|_| ())),
    }
}

#[test]
fn an_unknown_currency_is_told() {
    let cat = catalog();
    let mut saved = SavedStrategy::new(&cat, &item(&cat, Rarity::Magic, 77, &["Life2"]), &strategy(&cat));
    saved.strategy[0].1 = Some((OmenSet::new(), "Orb of Luck".to_string()));
    match saved.restore(&cat, &currencies(&cat)) {
        Err(DecodeError::UnknownCurrency(name)) => assert_eq!(name, "Orb of Luck"),
        other => panic!("{:?}", other.map(|_| ())),
    }
}
