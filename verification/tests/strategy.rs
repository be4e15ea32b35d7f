use poe_crafting::catalog::Catalog;
use poe_crafting::hashvec::{HashVec, OpaqueIndex};
use poe_crafting::item_state::{ItemState, Rarity};
use poe_crafting::types::{Affix, ModType, Modifier, Tier};
use poe_crafting::currency::{Currency, CurrencyType};
use poe_crafting::item_state::get_valid_mods_for_item;
use poe_crafting::strategy::{
    record_transition, within, Condition, ConditionGroup, ModifierCondition, NoMatchingState, Step,
    Strategy,
};
use poe_crafting::types::{Omen, OmenSet};

/// (group, family, tags, [(tier id, affix, level, weight)])
fn rows() -> Vec<(&'static str, &'static str, Vec<&'static str>, Vec<(&'static str, Affix, u32, u32)>)> {
    vec![
        ("Life", "Life", vec!["Life"], vec![
            ("Life1", Affix::Prefix, 1, 100),
            ("Life2", Affix::Prefix, 30, 60),
            ("Life3", Affix::Prefix, 60, 20),
        ]),
        ("Mana", "Mana", vec!["Mana"], vec![
            ("Mana1", Affix::Prefix, 1, 100),
            ("Mana2", Affix::Prefix, 40, 50),
        ]),
        ("Armour", "Defences", vec!["Defences"], vec![
            ("Armour1", Affix::Prefix, 5, 80),
        ]),
        ("Evasion", "Evasion", vec!["Defences"], vec![
            ("Evasion1", Affix::Prefix, 10, 80),
        ]),
        ("FireResistance", "FireResistance", vec!["Fire", "Resistance"], vec![
            ("FireRes1", Affix::Suffix, 1, 100),
            ("FireRes2", Affix::Suffix, 36, 40),
        ]),
        ("ColdResistance", "ColdResistance", vec!["Cold", "Resistance"], vec![
            ("ColdRes1", Affix::Suffix, 1, 100),
        ]),
        ("Speed", "Speed", vec!["Speed"], vec![
            ("Speed1", Affix::Suffix, 20, 30),
        ]),
        ("Crit", "Crit", vec![], vec![
            ("Crit1", Affix::Suffix, 50, 10),
        ]),
    ]
}

fn catalog() -> Catalog {
    let mut tiers: HashVec<Tier> = HashVec::new();
    let mut mods: HashVec<Modifier> = HashVec::new();
    let mut ids: Vec<String> = Vec::new();
    for (group, family, tags, group_tiers) in rows() {
        let mod_id = mods.insert(
            group.to_string(),
            Modifier {
                group: group.to_string(),
                tags: tags.iter().map(|t| t.to_string()).collect(),
                mod_type: ModType::Normal,
                stats: vec![],
                family: family.to_string(),
            },
        );
        for (id, affix, ilvl, weight) in group_tiers {
            tiers.insert(
                id.to_string(),
                Tier {
                    id: id.to_string(),
                    name: id.to_string(),
                    mod_id,
                    affix,
                    ilvl,
                    value_ranges: vec![],
                    weight,
                    mod_domain: 1,
                },
            );
            ids.push(id.to_string());
        }
    }
    let mut cat = Catalog::new(tiers, mods).unwrap();
    cat.list_base("Ring".to_string(), ids);
    cat
}

fn tier(cat: &Catalog, id: &str) -> OpaqueIndex<Tier> {
    cat.tiers.opaque(id)
}

fn item(cat: &Catalog, rarity: Rarity, level: u32, mods: &[&str]) -> ItemState {
    ItemState {
        base_type: "Ring".to_string(),
        item_level: level,
        rarity,
        mods: mods.iter().map(|id| tier(cat, id)).collect(),
    }
}

fn ids(cat: &Catalog, tiers: &[OpaqueIndex<Tier>]) -> Vec<String> {
    tiers.iter().map(|t| cat.get_tier(*t).id.clone()).collect()
}

fn group(cat: &Catalog, name: &str) -> OpaqueIndex<Modifier> {
    cat.mods.opaque(name)
}

fn one_affix() -> ConditionGroup {
    ConditionGroup::AffixCount { suffixes: 0..=1, prefixes: 0..=1, affixes: 1..=1 }
}

fn wanted(cat: &Catalog) -> Vec<ModifierCondition> {
    vec![
        ModifierCondition { mod_group: group(cat, "Life"), levels: vec![30, 60] },
        ModifierCondition { mod_group: group(cat, "FireResistance"), levels: vec![36] },
    ]
}

fn strategy(cat: &Catalog) -> Strategy {
    Strategy(vec![
        (
            Condition { rarity: Rarity::Normal, groups: vec![] },
            Some((OmenSet::new(), CurrencyType::Transmute)),
        ),
        (
            Condition {
                rarity: Rarity::Magic,
                groups: vec![one_affix(), ConditionGroup::Count { count: 1..=1, mods: wanted(cat) }],
            },
            Some((OmenSet::new(), CurrencyType::Augmentation)),
        ),
        (Condition { rarity: Rarity::Magic, groups: vec![one_affix()] }, None),
    ])
}

#[test]
fn a_range_holds_its_ends() {
    assert!(within(&(1..=3), 1));
    assert!(within(&(1..=3), 3));
    assert!(!within(&(1..=3), 0));
    assert!(!within(&(1..=3), 4));
    assert!(!within(&(3..=1), 2));
}

#[test]
fn a_modifier_condition_asks_for_the_modifier_and_the_level() {
    let cat = catalog();
    let cond = ModifierCondition { mod_group: group(&cat, "Life"), levels: vec![30, 60] };
    assert!(cond.check(cat.get_tier(tier(&cat, "Life2"))));
    assert!(cond.check(cat.get_tier(tier(&cat, "Life3"))));
    assert!(!cond.check(cat.get_tier(tier(&cat, "Life1"))));
    assert!(!cond.check(cat.get_tier(tier(&cat, "Mana2"))));
    assert!(cond.check_item(&cat, &item(&cat, Rarity::Rare, 80, &["Mana1", "Life3"])));
    assert!(!cond.check_item(&cat, &item(&cat, Rarity::Rare, 80, &["Mana1", "Life1"])));
}

#[test]
fn a_count_group_counts_the_conditions_that_are_met() {
    let cat = catalog();
    let one = ConditionGroup::Count { count: 1..=1, mods: wanted(&cat) };
    let two = ConditionGroup::Count { count: 2..=2, mods: wanted(&cat) };
    let none = ConditionGroup::Count { count: 0..=0, mods: wanted(&cat) };
    let both = item(&cat, Rarity::Magic, 80, &["Life2", "FireRes2"]);
    let life = item(&cat, Rarity::Magic, 80, &["Life3", "FireRes1"]);
    let neither = item(&cat, Rarity::Magic, 80, &["Life1"]);
    assert!(two.check(&cat, &both) && !one.check(&cat, &both) && !none.check(&cat, &both));
    assert!(one.check(&cat, &life) && !two.check(&cat, &life) && !none.check(&cat, &life));
    assert!(none.check(&cat, &neither) && !one.check(&cat, &neither));
}

#[test]
fn a_not_group_asks_that_none_of_the_modifiers_is_there() {
    let cat = catalog();
    let not = ConditionGroup::Not(vec![group(&cat, "Life"), group(&cat, "Speed")]);
    assert!(not.check(&cat, &item(&cat, Rarity::Rare, 80, &["Mana1", "FireRes1"])));
    assert!(!not.check(&cat, &item(&cat, Rarity::Rare, 80, &["Mana1", "Speed1"])));
    assert!(!not.check(&cat, &item(&cat, Rarity::Rare, 80, &["Life3"])));
    assert!(ConditionGroup::Not(vec![]).check(&cat, &item(&cat, Rarity::Rare, 80, &["Life3"])));
}

#[test]
fn an_affix_count_group_asks_for_the_numbers_of_affixes() {
    let cat = catalog();
    let g = ConditionGroup::AffixCount { suffixes: 1..=2, prefixes: 0..=1, affixes: 2..=3 };
    assert!(g.check(&cat, &item(&cat, Rarity::Rare, 80, &["Life1", "FireRes1"])));
    assert!(g.check(&cat, &item(&cat, Rarity::Rare, 80, &["FireRes1", "ColdRes1"])));
    assert!(g.check(&cat, &item(&cat, Rarity::Rare, 80, &["Life1", "FireRes1", "ColdRes1"])));
    assert!(!g.check(&cat, &item(&cat, Rarity::Rare, 80, &["FireRes1"])));
    assert!(!g.check(&cat, &item(&cat, Rarity::Rare, 80, &["Life1", "Mana1", "FireRes1"])));
    assert!(!g.check(&cat, &item(&cat, Rarity::Rare, 80, &["FireRes1", "ColdRes1", "Speed1"])));
}

#[test]
fn a_condition_asks_for_the_rarity_and_all_groups() {
    let cat = catalog();
    let cond = Condition {
        rarity: Rarity::Magic,
        groups: vec![one_affix(), ConditionGroup::Not(vec![group(&cat, "Mana")])],
    };
    assert!(cond.check(&cat, &item(&cat, Rarity::Magic, 80, &["Life1"])));
    assert!(!cond.check(&cat, &item(&cat, Rarity::Rare, 80, &["Life1"])));
    assert!(!cond.check(&cat, &item(&cat, Rarity::Magic, 80, &["Mana1"])));
    assert!(!cond.check(&cat, &item(&cat, Rarity::Magic, 80, &["Life1", "FireRes1"])));
}

#[test]
fn the_first_rule_for_the_state_is_found() {
    let cat = catalog();
    let s = strategy(&cat);
    assert_eq!(s.get(&cat, &item(&cat, Rarity::Normal, 80, &[])), Some(0));
    assert_eq!(s.get(&cat, &item(&cat, Rarity::Magic, 80, &["Life2"])), Some(1));
    assert_eq!(s.get(&cat, &item(&cat, Rarity::Magic, 80, &["Life1"])), Some(2));
    assert_eq!(s.get(&cat, &item(&cat, Rarity::Magic, 80, &["Life2", "FireRes1"])), None);
    assert_eq!(s.get(&cat, &item(&cat, Rarity::Rare, 80, &[])), None);
    for _ in 0..10 {
        assert_eq!(s.get(&cat, &item(&cat, Rarity::Magic, 80, &["Life2"])), Some(1));
    }
}

#[test]
fn the_craft_of_the_first_rule_is_given() {
    let cat = catalog();
    let s = strategy(&cat);
    let normal = item(&cat, Rarity::Normal, 80, &[]);
    let found = s.get_craft(&cat, &normal).unwrap().unwrap();
    assert_eq!(found.1.name(), "Transmute");
    assert_eq!(found.0, OmenSet::new());
    let finished = item(&cat, Rarity::Magic, 80, &["Mana1"]);
    assert!(s.get_craft(&cat, &finished).unwrap().is_none());
    let lost = item(&cat, Rarity::Rare, 80, &[]);
    assert_eq!(s.get_craft(&cat, &lost).err(), Some(NoMatchingState));
}

#[test]
fn a_strategy_runs_from_a_normal_item_to_a_finished_one() {
    let cat = catalog();
    let s = strategy(&cat);
    for _ in 0..100 {
        let mut it = item(&cat, Rarity::Normal, 80, &[]);
        let p = get_valid_mods_for_item(&cat, &it);
        match s.step(&cat, &mut it, &p) {
            Step::Crafted { rule: 0, done: Ok(()) } => {}
            other => panic!("{:?}", other),
        }
        assert_eq!(it.rarity, Rarity::Magic);
        assert_eq!(it.mods.len(), 1);
        let hit = ["Life2", "Life3", "FireRes2"].contains(&cat.get_tier(it.mods[0]).id.as_str());
        match s.step(&cat, &mut it, &p) {
            Step::Crafted { rule: 1, done: Ok(()) } => {
                assert!(hit);
                assert_eq!(it.mods.len(), 2);
                assert!(matches!(s.step(&cat, &mut it, &p), Step::NoMatchingState));
            }
            Step::Finished { rule: 2 } => {
                assert!(!hit);
                assert_eq!(it.mods.len(), 1);
            }
            other => panic!("{:?}", other),
        }
        assert!(it.is_valid(&cat));
    }
}

#[test]
fn a_rule_whose_currency_cannot_be_used_is_told() {
    let cat = catalog();
    let s = Strategy(vec![(
        Condition { rarity: Rarity::Magic, groups: vec![] },
        Some((OmenSet::from_vec(&vec![Omen::Greater]), CurrencyType::Exalt)),
    )]);
    let mut it = item(&cat, Rarity::Magic, 80, &["Life1"]);
    let p = get_valid_mods_for_item(&cat, &it);
    assert!(matches!(s.step(&cat, &mut it, &p), Step::InvalidCraft { rule: 0 }));
    assert_eq!(ids(&cat, &it.mods), vec!["Life1"]);
    assert_eq!(it.rarity, Rarity::Magic);
}

#[test]
fn transitions_are_counted() {
    let mut counts = vec![vec![0usize; 3]; 3];
    record_transition(&mut counts, None, 0);
    assert_eq!(counts, vec![vec![0, 0, 0], vec![0, 0, 0], vec![0, 0, 0]]);
    record_transition(&mut counts, Some(0), 1);
    record_transition(&mut counts, Some(0), 1);
    record_transition(&mut counts, Some(1), 2);
    assert_eq!(counts, vec![vec![0, 2, 0], vec![0, 0, 1], vec![0, 0, 0]]);
    record_transition(&mut counts, Some(5), 1);
    record_transition(&mut counts, Some(1), 7);
    assert_eq!(counts, vec![vec![0, 2, 0], vec![0, 0, 1], vec![0, 0, 0]]);
}
