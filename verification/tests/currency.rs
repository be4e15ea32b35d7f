use poe_crafting::catalog::Catalog;
use poe_crafting::hashvec::{HashVec, OpaqueIndex};
use poe_crafting::item_state::{ItemState, Rarity};
use poe_crafting::types::{Affix, ModType, Modifier, Tier};
use poe_crafting::currency::{
    Alchemy, Annulment, Augmentation, Chaos, CraftError, Currency, CurrencyType, Exalt,
    GreaterAugmentation, GreaterChaos, GreaterExalt, GreaterRegal, GreaterTransmute,
    PerfectAugmentation, PerfectChaos, PerfectExalt, PerfectRegal, PerfectTransmute, Regal,
    Transmute,
};
use poe_crafting::item_state::get_valid_mods_for_item;
use poe_crafting::types::{Omen, OmenSet};
use poe_crafting::util::rand::draw_index;

/// (group, family, tags, [(tier id, affix, level, weight)])
fn rows() -> Vec<(&'static str, &'static str, Vec<&'static str>, Vec<(&'static str, Affix, u32, u32)>)> {
    vec![
        ("Life", "Life", vec!["Life"], vec![
            ("Life1", Affix::Prefix, 1, 100),
            ("Life2", Affix::Prefix, 30, 60),
            ("Life3", Affix::Prefix, 60, 20),
        ]),
        ("Mana", "Mana", vec!["Mana"], vec![
            ("Mana1", Affix::Prefix, 1, 100),
            ("Mana2", Affix::Prefix, 40, 50),
        ]),
        ("Armour", "Defences", vec!["Defences"], vec![
            ("Armour1", Affix::Prefix, 5, 80),
        ]),
        ("Evasion", "Evasion", vec!["Defences"], vec![
            ("Evasion1", Affix::Prefix, 10, 80),
        ]),
        ("FireResistance", "FireResistance", vec!["Fire", "Resistance"], vec![
            ("FireRes1", Affix::Suffix, 1, 100),
            ("FireRes2", Affix::Suffix, 36, 40),
        ]),
        ("ColdResistance", "ColdResistance", vec!["Cold", "Resistance"], vec![
            ("ColdRes1", Affix::Suffix, 1, 100),
        ]),
        ("Speed", "Speed", vec!["Speed"], vec![
            ("Speed1", Affix::Suffix, 20, 30),
        ]),
        ("Crit", "Crit", vec![], vec![
            ("Crit1", Affix::Suffix, 50, 10),
        ]),
    ]
}

fn catalog() -> Catalog {
    let mut tiers: HashVec<Tier> = HashVec::new();
    let mut mods: HashVec<Modifier> = HashVec::new();
    let mut ids: Vec<String> = Vec::new();
    for (group, family, tags, group_tiers) in rows() {
        let mod_id = mods.insert(
            group.to_string(),
            Modifier {
                group: group.to_string(),
                tags: tags.iter().map(|t| t.to_string()).collect(),
                mod_type: ModType::Normal,
                stats: vec![],
                family: family.to_string(),
            },
        );
        for (id, affix, ilvl, weight) in group_tiers {
            tiers.insert(
                id.to_string(),
                Tier {
                    id: id.to_string(),
                    name: id.to_string(),
                    mod_id,
                    affix,
                    ilvl,
                    value_ranges: vec![],
                    weight,
                    mod_domain: 1,
                },
            );
            ids.push(id.to_string());
        }
    }
    let mut cat = Catalog::new(tiers, mods).unwrap();
    cat.list_base("Ring".to_string(), ids);
    cat
}

fn tier(cat: &Catalog, id: &str) -> OpaqueIndex<Tier> {
    cat.tiers.opaque(id)
}

fn item(cat: &Catalog, rarity: Rarity, level: u32, mods: &[&str]) -> ItemState {
    ItemState {
        base_type: "Ring".to_string(),
        item_level: level,
        rarity,
        mods: mods.iter().map(|id| tier(cat, id)).collect(),
    }
}

fn ids(cat: &Catalog, tiers: &[OpaqueIndex<Tier>]) -> Vec<String> {
    tiers.iter().map(|t| cat.get_tier(*t).id.clone()).collect()
}

fn pool(cat: &Catalog, ids: &[&str]) -> Vec<OpaqueIndex<Tier>> {
    ids.iter().map(|id| tier(cat, id)).collect()
}

fn omens(list: &[Omen]) -> OmenSet {
    OmenSet::from_vec(&list.to_vec())
}

fn affix_of(cat: &Catalog, t: OpaqueIndex<Tier>) -> Affix {
    cat.get_tier(t).affix
}

#[test]
fn transmute_makes_a_normal_item_magic_with_one_modifier() {
    let cat = catalog();
    let mut it = item(&cat, Rarity::Normal, 80, &[]);
    let p = get_valid_mods_for_item(&cat, &it);
    assert!(Transmute.can_be_used(&cat, &it, &p, &OmenSet::new()));
    assert_eq!(Transmute.craft(&cat, &mut it, &p, &OmenSet::new()), Ok(()));
    assert_eq!(it.rarity, Rarity::Magic);
    assert_eq!(it.mods.len(), 1);
    assert!(p.contains(&it.mods[0]));
    assert!(it.is_valid(&cat));
}

#[test]
fn transmute_is_for_normal_items_only() {
    let cat = catalog();
    let p = pool(&cat, &["Life1"]);
    assert!(!Transmute.can_be_used(&cat, &item(&cat, Rarity::Magic, 80, &[]), &p, &OmenSet::new()));
    assert!(!Transmute.can_be_used(&cat, &item(&cat, Rarity::Rare, 80, &[]), &p, &OmenSet::new()));
    assert!(!GreaterTransmute.can_be_used(&cat, &item(&cat, Rarity::Rare, 80, &[]), &p, &OmenSet::new()));
    assert!(PerfectTransmute.can_be_used(&cat, &item(&cat, Rarity::Normal, 80, &[]), &p, &OmenSet::new()));
}

#[test]
fn transmute_on_an_empty_pool_finds_no_candidate() {
    let cat = catalog();
    let mut it = item(&cat, Rarity::Normal, 80, &[]);
    assert_eq!(Transmute.craft(&cat, &mut it, &[], &OmenSet::new()), Err(CraftError::NoCandidates));
    assert_eq!(it.rarity, Rarity::Normal);
    assert!(it.mods.is_empty());
}

#[test]
fn greater_transmute_rolls_on_the_raised_pool() {
    let cat = catalog();
    let p = pool(&cat, &["Life1", "Life2", "Life3", "FireRes1", "FireRes2"]);
    for _ in 0..50 {
        let mut it = item(&cat, Rarity::Normal, 80, &[]);
        assert_eq!(GreaterTransmute.craft(&cat, &mut it, &p, &OmenSet::new()), Ok(()));
        let rolled = ids(&cat, &it.mods);
        assert!(rolled == vec!["Life3"] || rolled == vec!["FireRes2"]);
        let mut it = item(&cat, Rarity::Normal, 80, &[]);
        assert_eq!(PerfectTransmute.craft(&cat, &mut it, &p, &OmenSet::new()), Ok(()));
        let rolled = ids(&cat, &it.mods);
        assert!(rolled == vec!["Life3"] || rolled == vec!["FireRes2"]);
    }
}

#[test]
fn augmentation_adds_a_suffix_to_an_item_with_a_prefix() {
    let cat = catalog();
    let base = item(&cat, Rarity::Magic, 80, &["Life1"]);
    let p = get_valid_mods_for_item(&cat, &base);
    assert!(Augmentation.can_be_used(&cat, &base, &p, &OmenSet::new()));
    for _ in 0..200 {
        let mut it = base.clone();
        assert_eq!(Augmentation.craft(&cat, &mut it, &p, &OmenSet::new()), Ok(()));
        assert_eq!(it.mods.len(), 2);
        assert_eq!(it.mods[0], tier(&cat, "Life1"));
        assert_eq!(affix_of(&cat, it.mods[1]), Affix::Suffix);
        assert_eq!(it.rarity, Rarity::Magic);
        assert!(it.is_valid(&cat));
    }
}

#[test]
fn augmentation_adds_a_prefix_to_an_item_with_a_suffix() {
    let cat = catalog();
    let base = item(&cat, Rarity::Magic, 80, &["Speed1"]);
    let p = get_valid_mods_for_item(&cat, &base);
    for _ in 0..100 {
        let mut it = base.clone();
        assert_eq!(GreaterAugmentation.craft(&cat, &mut it, &p, &OmenSet::new()), Ok(()));
        assert_eq!(affix_of(&cat, it.mods[1]), Affix::Prefix);
        assert!(["Life3", "Mana2", "Armour1", "Evasion1"]
            .contains(&cat.get_tier(it.mods[1]).id.as_str()));
        let mut it = base.clone();
        assert_eq!(PerfectAugmentation.craft(&cat, &mut it, &p, &OmenSet::new()), Ok(()));
        assert_eq!(affix_of(&cat, it.mods[1]), Affix::Prefix);
    }
}

#[test]
fn augmentation_needs_a_magic_item_with_room() {
    let cat = catalog();
    let p = pool(&cat, &["Life1"]);
    let none = OmenSet::new();
    assert!(Augmentation.can_be_used(&cat, &item(&cat, Rarity::Magic, 80, &[]), &p, &none));
    assert!(!Augmentation.can_be_used(&cat, &item(&cat, Rarity::Magic, 80, &["Life1", "Speed1"]), &p, &none));
    assert!(!Augmentation.can_be_used(&cat, &item(&cat, Rarity::Normal, 80, &[]), &p, &none));
    assert!(!Augmentation.can_be_used(&cat, &item(&cat, Rarity::Rare, 80, &["Life1"]), &p, &none));
}

#[test]
fn augmentation_without_a_tier_of_the_other_affix_finds_no_candidate() {
    let cat = catalog();
    let mut it = item(&cat, Rarity::Magic, 80, &["Life1"]);
    let p = pool(&cat, &["Mana1", "Armour1"]);
    assert_eq!(Augmentation.craft(&cat, &mut it, &p, &OmenSet::new()), Err(CraftError::NoCandidates));
    assert_eq!(ids(&cat, &it.mods), vec!["Life1"]);
}

#[test]
fn exalt_cannot_be_used_on_six_modifiers() {
    let cat = catalog();
    let it = item(&cat, Rarity::Rare, 80, &["Life1", "Mana1", "Armour1", "FireRes1", "ColdRes1", "Speed1"]);
    let p = get_valid_mods_for_item(&cat, &it);
    assert!(!Exalt.can_be_used(&cat, &it, &p, &OmenSet::new()));
    assert!(!GreaterExalt.can_be_used(&cat, &it, &p, &OmenSet::new()));
    assert!(!PerfectExalt.can_be_used(&cat, &it, &p, &OmenSet::new()));
}

#[test]
fn exalt_needs_a_rare_item_and_something_to_add() {
    let cat = catalog();
    let none = OmenSet::new();
    let p = pool(&cat, &["Life1", "Life2"]);
    assert!(Exalt.can_be_used(&cat, &item(&cat, Rarity::Rare, 80, &[]), &p, &none));
    assert!(!Exalt.can_be_used(&cat, &item(&cat, Rarity::Magic, 80, &[]), &p, &none));
    assert!(!Exalt.can_be_used(&cat, &item(&cat, Rarity::Rare, 80, &["Life3"]), &p, &none));
    assert!(!Exalt.can_be_used(&cat, &item(&cat, Rarity::Rare, 80, &[]), &[], &none));
    let full = item(&cat, Rarity::Rare, 80, &["Mana1", "Armour1", "Evasion1"]);
    assert!(!Exalt.can_be_used(&cat, &full, &p, &none));
}

#[test]
fn exalt_adds_one_modifier_of_a_new_family() {
    let cat = catalog();
    let base = item(&cat, Rarity::Rare, 80, &["Life1", "Mana1", "Armour1", "FireRes1"]);
    let p = get_valid_mods_for_item(&cat, &base);
    for _ in 0..200 {
        let mut it = base.clone();
        assert_eq!(Exalt.craft(&cat, &mut it, &p, &OmenSet::new()), Ok(()));
        assert_eq!(it.mods.len(), 5);
        assert_eq!(it.mods[..4], base.mods[..]);
        assert_eq!(affix_of(&cat, it.mods[4]), Affix::Suffix);
        assert!(it.is_valid(&cat));
    }
}

#[test]
fn exalt_under_the_affix_omens_adds_that_affix() {
    let cat = catalog();
    let base = item(&cat, Rarity::Rare, 80, &["Life1"]);
    let p = get_valid_mods_for_item(&cat, &base);
    for _ in 0..100 {
        let mut it = base.clone();
        assert_eq!(Exalt.craft(&cat, &mut it, &p, &omens(&[Omen::Sinistral])), Ok(()));
        assert_eq!(affix_of(&cat, it.mods[1]), Affix::Prefix);
        let mut it = base.clone();
        assert_eq!(Exalt.craft(&cat, &mut it, &p, &omens(&[Omen::Dextral])), Ok(()));
        assert_eq!(affix_of(&cat, it.mods[1]), Affix::Suffix);
    }
    let both = omens(&[Omen::Sinistral, Omen::Dextral]);
    assert!(!Exalt.can_be_used(&cat, &base, &p, &both));
}

#[test]
fn exalt_under_homogenous_adds_what_shares_a_tag() {
    let cat = catalog();
    let base = item(&cat, Rarity::Rare, 80, &["FireRes1"]);
    let p = get_valid_mods_for_item(&cat, &base);
    for _ in 0..50 {
        let mut it = base.clone();
        assert_eq!(Exalt.craft(&cat, &mut it, &p, &omens(&[Omen::Homogenous])), Ok(()));
        assert_eq!(ids(&cat, &it.mods), vec!["FireRes1", "ColdRes1"]);
    }
    let bare = item(&cat, Rarity::Rare, 80, &["Crit1"]);
    let only = pool(&cat, &["Life1"]);
    let mut it = bare.clone();
    assert!(Exalt.can_be_used(&cat, &it, &only, &omens(&[Omen::Homogenous])));
    assert_eq!(Exalt.craft(&cat, &mut it, &only, &omens(&[Omen::Homogenous])), Ok(()));
    assert_eq!(ids(&cat, &it.mods), vec!["Crit1", "Life1"]);
}

#[test]
fn greater_omen_exalt_adds_two_modifiers() {
    let cat = catalog();
    let base = item(&cat, Rarity::Rare, 80, &["Life1", "Mana1", "FireRes1", "ColdRes1"]);
    let p = get_valid_mods_for_item(&cat, &base);
    let greater = omens(&[Omen::Greater]);
    assert!(Exalt.can_be_used(&cat, &base, &p, &greater));
    for _ in 0..200 {
        let mut it = base.clone();
        assert_eq!(Exalt.craft(&cat, &mut it, &p, &greater), Ok(()));
        assert_eq!(it.mods.len(), 6);
        assert_eq!(it.mods[..4], base.mods[..]);
        let families = it.mod_familities(&cat);
        for a in 0..6 {
            for b in 0..a {
                assert_ne!(families[a], families[b]);
            }
        }
        assert!(it.is_valid(&cat));
    }
}

#[test]
fn greater_omen_exalt_needs_room_for_two() {
    let cat = catalog();
    let greater = omens(&[Omen::Greater]);
    let five = item(&cat, Rarity::Rare, 80, &["Life1", "Mana1", "FireRes1", "ColdRes1", "Speed1"]);
    let p = get_valid_mods_for_item(&cat, &five);
    assert!(Exalt.can_be_used(&cat, &five, &p, &OmenSet::new()));
    assert!(!Exalt.can_be_used(&cat, &five, &p, &greater));
    let two_prefixes = item(&cat, Rarity::Rare, 80, &["Life1", "Mana1"]);
    let prefixes = pool(&cat, &["Armour1", "Evasion1"]);
    assert!(!Exalt.can_be_used(&cat, &two_prefixes, &prefixes, &greater));
    let one_prefix = item(&cat, Rarity::Rare, 80, &["Life1"]);
    assert!(Exalt.can_be_used(&cat, &one_prefix, &prefixes, &greater));
    let two_suffixes = item(&cat, Rarity::Rare, 80, &["FireRes1", "ColdRes1"]);
    let suffixes = pool(&cat, &["Speed1", "Crit1"]);
    assert!(!Exalt.can_be_used(&cat, &two_suffixes, &suffixes, &greater));
}

#[test]
fn greater_omen_exalt_stops_where_nothing_is_left_to_add() {
    let cat = catalog();
    let mut it = item(&cat, Rarity::Rare, 80, &[]);
    let p = pool(&cat, &["Life1", "Life2"]);
    let greater = omens(&[Omen::Greater]);
    assert!(Exalt.can_be_used(&cat, &it, &p, &greater));
    assert_eq!(Exalt.craft(&cat, &mut it, &p, &greater), Err(CraftError::NoCandidates));
    assert_eq!(it.mods.len(), 1);
    assert!(it.is_valid(&cat));
}

#[test]
fn a_roll_without_weights_gives_the_first_candidate() {
    let mut tiers: HashVec<Tier> = HashVec::new();
    let mut mods: HashVec<Modifier> = HashVec::new();
    for name in ["A", "B", "C"] {
        let mod_id = mods.insert(
            name.to_string(),
            Modifier {
                group: name.to_string(),
                tags: vec![],
                mod_type: ModType::Normal,
                stats: vec![],
                family: name.to_string(),
            },
        );
        tiers.insert(
            name.to_string(),
            Tier {
                id: name.to_string(),
                name: name.to_string(),
                mod_id,
                affix: Affix::Prefix,
                ilvl: 1,
                value_ranges: vec![],
                weight: 0,
                mod_domain: 1,
            },
        );
    }
    let cat = Catalog::new(tiers, mods).unwrap();
    let p = vec![cat.tiers.opaque("B"), cat.tiers.opaque("C"), cat.tiers.opaque("A")];
    let mut it = ItemState { base_type: "Ring".to_string(), item_level: 1, rarity: Rarity::Rare, mods: vec![] };
    assert_eq!(Exalt.craft(&cat, &mut it, &p, &OmenSet::new()), Ok(()));
    assert_eq!(it.mods, vec![cat.tiers.opaque("B")]);
    assert_eq!(Exalt.craft(&cat, &mut it, &p, &OmenSet::new()), Ok(()));
    assert_eq!(it.mods, vec![cat.tiers.opaque("B"), cat.tiers.opaque("C")]);
}

#[test]
fn a_tier_without_weight_is_not_rolled_beside_one_with_weight() {
    let mut cat = catalog();
    cat.tiers.values_mut()[0].weight = 0;
    cat.tiers.values_mut()[3].weight = 0;
    let p = vec![tier(&cat, "Life1"), tier(&cat, "Mana1"), tier(&cat, "FireRes1")];
    for _ in 0..100 {
        let mut it = item(&cat, Rarity::Rare, 80, &[]);
        assert_eq!(Exalt.craft(&cat, &mut it, &p, &OmenSet::new()), Ok(()));
        assert_eq!(ids(&cat, &it.mods), vec!["FireRes1"]);
    }
}

#[test]
fn regal_makes_a_magic_item_rare_with_one_modifier_more() {
    let cat = catalog();
    let base = item(&cat, Rarity::Magic, 80, &["Life1", "FireRes1"]);
    let p = get_valid_mods_for_item(&cat, &base);
    let none = OmenSet::new();
    assert!(Regal.can_be_used(&cat, &base, &p, &none));
    assert!(GreaterRegal.can_be_used(&cat, &base, &p, &none));
    assert!(PerfectRegal.can_be_used(&cat, &base, &p, &none));
    assert!(!Regal.can_be_used(&cat, &item(&cat, Rarity::Rare, 80, &["Life1"]), &p, &none));
    assert!(!Regal.can_be_used(&cat, &item(&cat, Rarity::Normal, 80, &[]), &p, &none));
    assert!(!Regal.can_be_used(&cat, &base, &[], &none));
    for _ in 0..100 {
        let mut it = base.clone();
        assert_eq!(Regal.craft(&cat, &mut it, &p, &none), Ok(()));
        assert_eq!(it.rarity, Rarity::Rare);
        assert_eq!(it.mods.len(), 3);
        assert!(it.is_valid(&cat));
        let mut it = base.clone();
        assert_eq!(GreaterRegal.craft(&cat, &mut it, &p, &none), Ok(()));
        assert!(["Mana2", "Armour1", "Evasion1", "ColdRes1", "Speed1", "Crit1"]
            .contains(&cat.get_tier(it.mods[2]).id.as_str()));
        let mut it = base.clone();
        assert_eq!(PerfectRegal.craft(&cat, &mut it, &p, &none), Ok(()));
        assert_eq!(it.rarity, Rarity::Rare);
    }
}

#[test]
fn annulment_under_whittling_takes_the_only_modifier() {
    let cat = catalog();
    let mut it = item(&cat, Rarity::Magic, 80, &["Life2"]);
    let whittling = omens(&[Omen::Whittling]);
    assert!(Annulment.can_be_used(&cat, &it, &[], &whittling));
    assert_eq!(Annulment.craft(&cat, &mut it, &[], &whittling), Ok(()));
    assert!(it.mods.is_empty());
    assert_eq!(it.rarity, Rarity::Magic);
}

#[test]
fn annulment_under_whittling_takes_the_lowest() {
    let cat = catalog();
    let base = item(&cat, Rarity::Rare, 80, &["Life3", "Armour1", "Speed1"]);
    for _ in 0..50 {
        let mut it = base.clone();
        assert_eq!(Annulment.craft(&cat, &mut it, &[], &omens(&[Omen::Whittling])), Ok(()));
        assert_eq!(ids(&cat, &it.mods), vec!["Life3", "Speed1"]);
    }
}

#[test]
fn annulment_takes_one_modifier_or_two() {
    let cat = catalog();
    let base = item(&cat, Rarity::Rare, 80, &["Life1", "Mana1", "FireRes1"]);
    let none = OmenSet::new();
    assert!(Annulment.can_be_used(&cat, &base, &[], &none));
    assert!(!Annulment.can_be_used(&cat, &item(&cat, Rarity::Rare, 80, &[]), &[], &none));
    for _ in 0..100 {
        let mut it = base.clone();
        assert_eq!(Annulment.craft(&cat, &mut it, &[], &none), Ok(()));
        assert_eq!(it.mods.len(), 2);
        assert!(it.mods.iter().all(|t| base.mods.contains(t)));
        let mut it = base.clone();
        assert_eq!(Annulment.craft(&cat, &mut it, &[], &omens(&[Omen::Greater])), Ok(()));
        assert_eq!(it.mods.len(), 1);
        let mut it = base.clone();
        assert_eq!(Annulment.craft(&cat, &mut it, &[], &omens(&[Omen::Sinistral])), Ok(()));
        assert_eq!(it.mods.len(), 2);
        assert!(it.mods.contains(&tier(&cat, "FireRes1")));
        let mut it = base.clone();
        assert_eq!(Annulment.craft(&cat, &mut it, &[], &omens(&[Omen::Dextral])), Ok(()));
        assert_eq!(ids(&cat, &it.mods), vec!["Life1", "Mana1"]);
    }
    let one_suffix = omens(&[Omen::Dextral, Omen::Greater]);
    assert!(!Annulment.can_be_used(&cat, &base, &[], &one_suffix));
    let mut it = base.clone();
    assert_eq!(Annulment.craft(&cat, &mut it, &[], &omens(&[Omen::Greater, Omen::Sinistral])), Ok(()));
    assert_eq!(ids(&cat, &it.mods), vec!["FireRes1"]);
}

#[test]
fn alchemy_makes_a_normal_item_rare_with_four_modifiers() {
    let cat = catalog();
    let base = item(&cat, Rarity::Normal, 80, &[]);
    let p = get_valid_mods_for_item(&cat, &base);
    assert!(Alchemy.can_be_used(&cat, &base, &p, &OmenSet::new()));
    assert!(!Alchemy.can_be_used(&cat, &item(&cat, Rarity::Magic, 80, &[]), &p, &OmenSet::new()));
    for _ in 0..100 {
        let mut it = base.clone();
        assert_eq!(Alchemy.craft(&cat, &mut it, &p, &OmenSet::new()), Ok(()));
        assert_eq!(it.rarity, Rarity::Rare);
        assert_eq!(it.mods.len(), 4);
        assert!(it.is_valid(&cat));
        let mut it = base.clone();
        assert_eq!(Alchemy.craft(&cat, &mut it, &p, &omens(&[Omen::Dextral])), Ok(()));
        assert_eq!(it.num_suffixes(&cat), 3);
        assert_eq!(it.num_prefixes(&cat), 1);
        let mut it = base.clone();
        assert_eq!(Alchemy.craft(&cat, &mut it, &p, &omens(&[Omen::Sinistral])), Ok(()));
        assert_eq!(it.num_prefixes(&cat), 3);
        assert_eq!(it.num_suffixes(&cat), 1);
        let mut it = base.clone();
        assert_eq!(Alchemy.craft(&cat, &mut it, &p, &omens(&[Omen::Sinistral, Omen::Dextral])), Ok(()));
        assert_eq!(it.num_suffixes(&cat), 3);
    }
}

#[test]
fn alchemy_stops_where_the_pool_runs_out() {
    let cat = catalog();
    let mut it = item(&cat, Rarity::Normal, 80, &[]);
    let p = pool(&cat, &["Life1", "FireRes1"]);
    assert_eq!(Alchemy.craft(&cat, &mut it, &p, &OmenSet::new()), Err(CraftError::NoCandidates));
    assert_eq!(it.rarity, Rarity::Rare);
    assert_eq!(it.mods.len(), 2);
    assert!(it.is_valid(&cat));
}

#[test]
fn chaos_swaps_one_modifier() {
    let cat = catalog();
    let base = item(&cat, Rarity::Rare, 80, &["Life1", "Mana1", "Armour1", "FireRes1", "ColdRes1", "Speed1"]);
    let p = get_valid_mods_for_item(&cat, &base);
    let none = OmenSet::new();
    assert!(Chaos.can_be_used(&cat, &base, &p, &none));
    assert!(GreaterChaos.can_be_used(&cat, &base, &p, &none));
    assert!(PerfectChaos.can_be_used(&cat, &base, &p, &none));
    assert!(!Chaos.can_be_used(&cat, &item(&cat, Rarity::Magic, 80, &["Life1"]), &p, &none));
    assert!(!Chaos.can_be_used(&cat, &item(&cat, Rarity::Rare, 80, &[]), &p, &none));
    for _ in 0..100 {
        let mut it = base.clone();
        assert_eq!(Chaos.craft(&cat, &mut it, &p, &none), Ok(()));
        assert_eq!(it.mods.len(), 6);
        let kept = it.mods[..5].iter().filter(|t| base.mods.contains(t)).count();
        assert_eq!(kept, 5);
        assert!(it.is_valid(&cat));
        let mut it = base.clone();
        assert_eq!(GreaterChaos.craft(&cat, &mut it, &p, &none), Ok(()));
        assert!(it.is_valid(&cat));
        let mut it = base.clone();
        assert_eq!(PerfectChaos.craft(&cat, &mut it, &p, &none), Ok(()));
        assert!(it.is_valid(&cat));
    }
}

#[test]
fn the_names_of_the_currencies() {
    assert_eq!(Transmute.name(), "Transmute");
    assert_eq!(GreaterTransmute.name(), "Greater Transmute");
    assert_eq!(PerfectTransmute.name(), "Perfect Transmute");
    assert_eq!(Augmentation.name(), "Augmentation");
    assert_eq!(GreaterAugmentation.name(), "Greater Augmentation");
    assert_eq!(PerfectAugmentation.name(), "Perfect Augmentation");
    assert_eq!(Regal.name(), "Regal");
    assert_eq!(GreaterRegal.name(), "Greater Regal");
    assert_eq!(PerfectRegal.name(), "Perfect Regal");
    assert_eq!(Exalt.name(), "Exalt");
    assert_eq!(GreaterExalt.name(), "Greater Exalt");
    assert_eq!(PerfectExalt.name(), "Perfect Exalt");
    assert_eq!(Annulment.name(), "Annulment");
    assert_eq!(Alchemy.name(), "Alchemy");
    assert_eq!(Chaos.name(), "Chaos");
    assert_eq!(GreaterChaos.name(), "Greater Chaos");
    assert_eq!(PerfectChaos.name(), "Perfect Chaos");
    let all = CurrencyType::all();
    assert_eq!(all.len(), 18);
    assert_eq!(all[0].name(), "Transmute");
    assert_eq!(all[12].name(), "Annulment");
    assert_eq!(all[17].name(), "Descrate Item");
}

#[test]
fn the_omens_that_go_with_a_currency() {
    assert_eq!(CurrencyType::Transmute.possible_omens().to_vec(), vec![]);
    assert_eq!(CurrencyType::Augmentation.possible_omens().to_vec(), vec![]);
    assert_eq!(CurrencyType::GreaterRegal.possible_omens().to_vec(), vec![Omen::Homogenous]);
    assert_eq!(
        CurrencyType::Annulment.possible_omens().to_vec(),
        vec![Omen::Sinistral, Omen::Dextral, Omen::Greater]
    );
    assert_eq!(CurrencyType::Alchemy.possible_omens().to_vec(), vec![Omen::Sinistral, Omen::Dextral]);
    assert_eq!(CurrencyType::Desecrate.possible_omens().to_vec(), vec![Omen::Sinistral, Omen::Dextral]);
    assert_eq!(
        CurrencyType::PerfectChaos.possible_omens().to_vec(),
        vec![Omen::Sinistral, Omen::Dextral, Omen::Whittling]
    );
    assert_eq!(
        CurrencyType::Exalt.possible_omens().to_vec(),
        vec![Omen::Sinistral, Omen::Dextral, Omen::Homogenous, Omen::Greater]
    );
}

#[test]
fn random_crafts_keep_the_item_valid() {
    let cat = catalog();
    let all: Vec<CurrencyType> = CurrencyType::all()
        .into_iter()
        .filter(|c| !matches!(c, CurrencyType::Desecrate))
        .collect();
    for _ in 0..60 {
        let mut it = item(&cat, Rarity::Normal, 45, &[]);
        let p = get_valid_mods_for_item(&cat, &it);
        for _ in 0..40 {
            let usable: Vec<&CurrencyType> =
                all.iter().filter(|c| c.can_be_used(&cat, &it, &p, &OmenSet::new())).collect();
            if usable.is_empty() {
                break;
            }
            let currency = usable[draw_index(usable.len())];
            let possible: Vec<Omen> = currency
                .possible_omens()
                .to_vec()
                .into_iter()
                .filter(|o| currency.can_be_used(&cat, &it, &p, &omens(&[*o])))
                .collect();
            let chosen = if possible.is_empty() || draw_index(2) == 0 {
                OmenSet::new()
            } else {
                omens(&[possible[draw_index(possible.len())]])
            };
            let before = it.clone();
            let _ = currency.craft(&cat, &mut it, &p, &chosen);
            assert!(it.is_valid(&cat));
            assert!(it.rarity as u8 >= before.rarity as u8);
            assert_eq!(it.item_level, before.item_level);
            assert_eq!(it.base_type, before.base_type);
        }
    }
}
