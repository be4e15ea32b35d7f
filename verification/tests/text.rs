use poe_crafting::currency::names::{base_name, essence_rank};
use poe_crafting::currency::{CurrencyType, Essence, PerfectEssence};
use poe_crafting::types::{
    find_matching_formatter, get_matching_formatter, Condition, Omen, OmenSet, StatFormatter,
};
use poe_crafting::util::text::{after_last_bar, find_bracket_groups, find_char};

fn formatter(string: &str, formats: &[&str]) -> StatFormatter {
    StatFormatter {
        conditions: vec![],
        formats: formats.iter().map(|f| f.to_string()).collect(),
        index_handlers: vec![],
        string: string.to_string(),
    }
}

fn bounded(min: Option<i32>, max: Option<i32>) -> StatFormatter {
    StatFormatter {
        conditions: vec![Condition { min, max, negate: None }],
        formats: vec!["#".to_string()],
        index_handlers: vec![],
        string: "{0}".to_string(),
    }
}

#[test]
fn a_format_fills_the_first_stand_of_its_placeholder() {
    assert_eq!(formatter("{0} and {0}", &["#"]).trade_string(), "# and {0}");
    assert_eq!(formatter("{1} then {0}", &["a", "b"]).trade_string(), "b then a");
    assert_eq!(formatter("none", &["#"]).trade_string(), "none");
    let many = formatter(
        "{0}{1}{2}{3}{4}{5}{6}{7}{8}{9}{10}{11}",
        &["a", "b", "c", "d", "e", "f", "g", "h", "i", "j", "k", "l"],
    );
    assert_eq!(many.trade_string(), "abcdefghijkl");
}

#[test]
fn every_hash_becomes_a_hole() {
    assert_eq!(formatter("{0} to {1}", &["#", "+#%"]).rust_fmt_string(), "{} to +{}%");
    assert_eq!(formatter("##", &[]).rust_fmt_string(), "{}{}");
    assert_eq!(formatter("plain", &[]).rust_fmt_string(), "plain");
}

#[test]
fn numbers_are_written_in_decimal() {
    let f = formatter("{0}", &["#"]);
    assert_eq!(f.format_value_range(&[[0, 7]]), "(0-7)");
    assert_eq!(f.format_value_range(&[[120, -45]]), "(120--45)");
    assert_eq!(f.format_value_range(&[[i32::MIN, i32::MAX]]), "(-2147483648-2147483647)");
}

#[test]
fn a_character_is_found_from_a_place_on() {
    assert_eq!(find_char("a]b]", ']', 0), 1);
    assert_eq!(find_char("a]b]", ']', 2), 3);
    assert_eq!(find_char("a]b]", ']', 4), 4);
    assert_eq!(find_char("abc", ']', 0), 3);
    assert_eq!(find_char("abc", 'a', 9), 3);
}

#[test]
fn the_last_alternative_stands_after_the_last_bar() {
    assert_eq!(after_last_bar("Fire|fire damage"), "fire damage");
    assert_eq!(after_last_bar("a|b|c"), "c");
    assert_eq!(after_last_bar("plain"), "plain");
    assert_eq!(after_last_bar("ends|"), "");
    assert_eq!(after_last_bar(""), "");
}

#[test]
fn groups_in_square_brackets_are_found() {
    let groups = find_bracket_groups("+# to [Strength|strength] and [Dex]");
    assert_eq!(
        groups,
        vec![
            ("[Strength|strength]".to_string(), "strength".to_string()),
            ("[Dex]".to_string(), "Dex".to_string()),
        ]
    );
    assert!(find_bracket_groups("no groups [] here [").is_empty());
    assert_eq!(find_bracket_groups("[[a|b]"), vec![("[[a|b]".to_string(), "b".to_string())]);
    assert!(find_bracket_groups("[]x]").is_empty());
}

#[test]
fn the_trade_string_fills_the_formats_and_the_groups() {
    let f = formatter("{0} to [Strength|strength]", &["+#"]);
    assert_eq!(f.trade_string(), "+# to strength");
    let two = formatter("Adds {0} to {1} [Fire|Fire Damage]", &["#", "#"]);
    assert_eq!(two.trade_string(), "Adds # to # Fire Damage");
    assert_eq!(formatter("plain", &[]).trade_string(), "plain");
}

#[test]
fn the_format_string_has_holes_for_the_values() {
    let two = formatter("Adds {0} to {1} [Fire|Fire Damage]", &["#", "#"]);
    assert_eq!(two.rust_fmt_string(), "Adds {} to {} Fire Damage");
}

#[test]
fn the_ranges_of_the_values_are_written_out() {
    let f = formatter("{0} to [Strength|strength]", &["+#"]);
    assert_eq!(f.format_value_range(&[[5, 12]]), "+(5-12) to strength");
    let two = formatter("Adds {0} to {1} [Fire|Fire Damage]", &["#", "#"]);
    assert_eq!(two.format_value_range(&[[1, 2], [-3, 40]]), "Adds (1-2) to (-3-40) Fire Damage");
    assert_eq!(two.format_value_range(&[[1, 2]]), "Adds (1-2) to {} Fire Damage");
}

#[test]
fn a_condition_admits_what_lies_in_its_bounds() {
    let both = Condition { min: Some(1), max: Some(99), negate: None };
    assert!(both.matches(1) && both.matches(50) && both.matches(99));
    assert!(!both.matches(0) && !both.matches(100));
    let open = Condition { min: None, max: None, negate: Some(true) };
    assert!(open.matches(i32::MIN) && open.matches(i32::MAX));
    assert!(Condition { min: Some(5), max: None, negate: None }.matches(i32::MAX));
    assert!(!Condition { min: None, max: Some(5), negate: None }.matches(6));
}

#[test]
fn the_first_formatter_that_applies_is_taken() {
    let list = vec![bounded(Some(100), None), bounded(Some(1), Some(99)), bounded(None, None)];
    assert_eq!(find_matching_formatter(&list, &[150]), Some(0));
    assert_eq!(find_matching_formatter(&list, &[50]), Some(1));
    assert_eq!(find_matching_formatter(&list, &[-4]), Some(2));
    assert_eq!(find_matching_formatter(&list, &[]), Some(0));
    assert_eq!(find_matching_formatter(&list[..2], &[-4]), None);
    assert_eq!(get_matching_formatter(&list, &[50]).conditions[0].max, Some(99));
    assert!(list[1].check(&[50, 1000]));
    assert!(!list[1].check(&[0]));
}

#[test]
fn a_set_of_omens() {
    let mut set = OmenSet::new();
    assert!(set.to_vec().is_empty());
    assert!(set.insert(Omen::Greater));
    assert!(!set.insert(Omen::Greater));
    assert!(set.insert(Omen::Sinistral));
    assert!(set.contains(&Omen::Greater) && set.contains(&Omen::Sinistral));
    assert!(!set.contains(&Omen::Dextral) && !set.contains(&Omen::Homogenous));
    assert!(!set.contains(&Omen::Whittling));
    assert_eq!(set.to_vec(), vec![Omen::Sinistral, Omen::Greater]);
    let all = OmenSet::from_vec(&vec![
        Omen::Whittling,
        Omen::Dextral,
        Omen::Homogenous,
        Omen::Dextral,
        Omen::Sinistral,
        Omen::Greater,
    ]);
    assert_eq!(
        all.to_vec(),
        vec![Omen::Sinistral, Omen::Dextral, Omen::Homogenous, Omen::Greater, Omen::Whittling]
    );
    assert_eq!(OmenSet::from_vec(&set.to_vec()), set);
}

#[test]
fn essences_rank_by_the_first_word_of_their_name() {
    assert_eq!(essence_rank("Lesser Essence of the Body"), 0);
    assert_eq!(essence_rank("Essence of the Body"), 1);
    assert_eq!(essence_rank("Greater Essence of the Body"), 2);
    assert_eq!(essence_rank("Perfect Essence of the Body"), 3);
    assert_eq!(essence_rank("Essence"), 1);
    assert_eq!(essence_rank("Lesseressence"), 4);
    assert_eq!(essence_rank(" Lesser"), 4);
    assert_eq!(essence_rank(""), 4);
}

fn essence_named(name: &str) -> CurrencyType {
    CurrencyType::Essence(Essence { name: name.to_string(), tiers: vec![] })
}

#[test]
fn the_grades_of_a_currency_share_a_name() {
    assert_eq!(base_name(&CurrencyType::Exalt), "Exalt");
    assert_eq!(base_name(&CurrencyType::GreaterExalt), "Exalt");
    assert_eq!(base_name(&CurrencyType::PerfectExalt), "Exalt");
    assert_eq!(base_name(&CurrencyType::PerfectChaos), "Chaos");
    assert_eq!(base_name(&CurrencyType::Desecrate), "Descrate Item");
    assert_eq!(base_name(&essence_named("Lesser Essence of Haste")), "Essence of Haste");
    assert_eq!(base_name(&essence_named("Essence of Haste")), "Essence of Haste");
    assert_eq!(base_name(&essence_named("Greater Essence of Haste")), "Essence of Haste");
    assert_eq!(base_name(&essence_named("Lesser Greater Essence")), "Greater Essence");
    assert_eq!(base_name(&essence_named("Lesser")), "Lesser");
    assert_eq!(
        base_name(&CurrencyType::PerfectEssence(PerfectEssence {
            name: "Perfect Essence of Haste".to_string(),
            tiers: vec![],
        })),
        "Essence of Haste"
    );
}
