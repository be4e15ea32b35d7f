use poe_crafting::catalog::Catalog;
use poe_crafting::display::{describe, describe_tier, join_stats, lower_ends, DescribeError, Formatters};
use poe_crafting::hashvec::HashVec;
use poe_crafting::item_state::{ItemState, Rarity};
use poe_crafting::types::{Affix, Condition, ModType, Modifier, StatFormatter, Tier};

fn words(texts: &[&str]) -> Vec<String> {
    texts.iter().map(|t| t.to_string()).collect()
}

fn plain(string: &str, values: usize) -> StatFormatter {
    StatFormatter {
        conditions: vec![Condition { min: None, max: None, negate: None }; values],
        formats: vec!["#".to_string(); values],
        index_handlers: vec![],
        string: string.to_string(),
    }
}

fn from(min: i32, string: &str) -> StatFormatter {
    StatFormatter {
        conditions: vec![Condition { min: Some(min), max: None, negate: None }],
        formats: vec!["#".to_string()],
        index_handlers: vec![],
        string: string.to_string(),
    }
}

/// Two modifiers: life, of one stat, and damage, of two.
fn shown_catalog() -> Catalog {
    let mut mods: HashVec<Modifier> = HashVec::new();
    mods.insert(
        "Life".to_string(),
        Modifier {
            group: "Life".to_string(),
            tags: vec![],
            mod_type: ModType::Normal,
            stats: words(&["base_maximum_life"]),
            family: "Life".to_string(),
        },
    );
    mods.insert(
        "Damage".to_string(),
        Modifier {
            group: "Damage".to_string(),
            tags: vec![],
            mod_type: ModType::Normal,
            stats: words(&["min_damage", "max_damage"]),
            family: "Damage".to_string(),
        },
    );
    let mut tiers: HashVec<Tier> = HashVec::new();
    for (id, modifier, affix, ranges) in [
        ("Life1", "Life", Affix::Prefix, vec![[10, 19]]),
        ("Damage1", "Damage", Affix::Suffix, vec![[1, 2], [3, 5]]),
    ] {
        tiers.insert(
            id.to_string(),
            Tier {
                id: id.to_string(),
                name: id.to_string(),
                mod_id: mods.get_opaque(modifier).unwrap(),
                affix,
                ilvl: 1,
                value_ranges: ranges,
                weight: 1,
                mod_domain: 1,
            },
        );
    }
    Catalog::new(tiers, mods).unwrap()
}

fn shown_item(cat: &Catalog, tiers: &[&str]) -> ItemState {
    ItemState {
        base_type: "Ring".to_string(),
        item_level: 75,
        rarity: Rarity::Magic,
        mods: tiers.iter().map(|t| cat.tiers.get_opaque(t).unwrap()).collect(),
    }
}

#[test]
fn stats_are_joined_by_bars() {
    assert_eq!(join_stats(&words(&[])), "");
    assert_eq!(join_stats(&words(&["a"])), "a");
    assert_eq!(join_stats(&words(&["a", "b", "c"])), "a|b|c");
}

#[test]
fn the_lower_ends_are_the_first_of_each_range() {
    assert_eq!(lower_ends(&[[1, 2], [3, 5], [-4, 0]]), vec![1, 3, -4]);
    assert_eq!(lower_ends(&[]), Vec::<i32>::new());
}

#[test]
fn formatters_stand_under_each_id_and_under_all() {
    let mut table = Formatters::new();
    assert!(!table.contains_key("a"));
    table.add(&words(&["a", "b"]), vec![plain("{0} to {1}", 2)]);
    assert!(table.contains_key("a|b"));
    assert!(table.contains_key("a"));
    assert!(table.contains_key("b"));
    assert!(!table.contains_key("c"));
    assert_eq!(table.get("a").unwrap()[0].string, "{0} to {1}");
    assert!(table.get("c").is_none());
    // What comes later takes the place of what stood there.
    table.add(&words(&["a"]), vec![plain("only {0}", 1)]);
    assert_eq!(table.get("a").unwrap()[0].string, "only {0}");
    assert_eq!(table.get("b").unwrap()[0].string, "{0} to {1}");
    assert_eq!(table.get("a|b").unwrap()[0].string, "{0} to {1}");
}

#[test]
fn an_item_is_written_with_its_head_and_a_line_for_each_modifier() {
    let cat = shown_catalog();
    let mut table = Formatters::new();
    table.add(&words(&["base_maximum_life"]), vec![plain("+{0} to maximum Life", 1)]);
    table.add(&words(&["min_damage", "max_damage"]), vec![plain("Adds {0} to {1} Damage", 2)]);
    let item = shown_item(&cat, &["Life1", "Damage1"]);
    assert_eq!(
        describe(&item, &cat, &table).unwrap(),
        "Ring\nilvl: 75\nMagic\n=====================\n+(10-19) to maximum Life\nAdds (1-2) to (3-5) Damage\n"
    );
}

#[test]
fn an_item_without_modifiers_is_its_head() {
    let cat = shown_catalog();
    let mut item = shown_item(&cat, &[]);
    item.rarity = Rarity::Normal;
    item.item_level = 1;
    assert_eq!(
        describe(&item, &cat, &Formatters::new()).unwrap(),
        "Ring\nilvl: 1\nNormal\n=====================\n"
    );
    item.rarity = Rarity::Rare;
    assert_eq!(
        describe(&item, &cat, &Formatters::new()).unwrap(),
        "Ring\nilvl: 1\nRare\n=====================\n"
    );
}

#[test]
fn stats_without_a_common_formatter_are_written_one_by_one() {
    let cat = shown_catalog();
    let mut table = Formatters::new();
    table.add(&words(&["min_damage"]), vec![plain("{0} at least", 1)]);
    table.add(&words(&["max_damage"]), vec![plain("{0} at most", 1)]);
    let tier = cat.get_tier(cat.tiers.get_opaque("Damage1").unwrap());
    assert_eq!(
        describe_tier(&table, &words(&["min_damage", "max_damage"]), &tier.value_ranges).unwrap(),
        "(1-2) at least\n(3-5) at most\n"
    );
}

#[test]
fn a_tier_is_written_by_the_first_formatter_that_applies() {
    let mut table = Formatters::new();
    table.add(&words(&["life"]), vec![from(50, "much {0}"), from(5, "some {0}"), from(0, "{0}")]);
    assert_eq!(describe_tier(&table, &words(&["life"]), &vec![[10, 19]]).unwrap(), "some (10-19)\n");
    assert_eq!(describe_tier(&table, &words(&["life"]), &vec![[60, 70]]).unwrap(), "much (60-70)\n");
    assert_eq!(describe_tier(&table, &words(&["life"]), &vec![[1, 70]]).unwrap(), "(1-70)\n");
}

#[test]
fn a_stat_without_a_formatter_is_an_error() {
    let cat = shown_catalog();
    let mut table = Formatters::new();
    table.add(&words(&["min_damage"]), vec![plain("{0} at least", 1)]);
    let item = shown_item(&cat, &["Damage1"]);
    assert_eq!(
        describe(&item, &cat, &table),
        Err(DescribeError::NoFormatter("max_damage".to_string()))
    );
    let item = shown_item(&cat, &["Life1"]);
    assert_eq!(
        describe(&item, &cat, &table),
        Err(DescribeError::NoFormatter("base_maximum_life".to_string()))
    );
}

#[test]
fn values_that_no_formatter_takes_are_an_error() {
    let cat = shown_catalog();
    let mut table = Formatters::new();
    table.add(&words(&["base_maximum_life"]), vec![from(50, "much {0}")]);
    let item = shown_item(&cat, &["Life1"]);
    assert_eq!(
        describe(&item, &cat, &table),
        Err(DescribeError::NoMatchingFormatter("base_maximum_life".to_string()))
    );
    let mut table = Formatters::new();
    table.add(&words(&["min_damage", "max_damage"]), vec![]);
    let item = shown_item(&cat, &["Damage1"]);
    assert_eq!(
        describe(&item, &cat, &table),
        Err(DescribeError::NoMatchingFormatter("min_damage|max_damage".to_string()))
    );
}
