use poe_crafting::catalog::Catalog;
use poe_crafting::currency::{CraftError, Currency, Exalt};
use poe_crafting::hashvec::{HashVec, OpaqueIndex};
use poe_crafting::item_state::{ItemState, Rarity};
use poe_crafting::types::{Affix, ModType, Modifier, Omen, OmenSet, Tier};

/// Prefixes Pre1..Pre4 and suffixes Suf1..Suf4 of modifiers of their own, a second
/// tier of the first prefix, and a corrupted tier.
fn small_catalog() -> Catalog {
    let mut mods: HashVec<Modifier> = HashVec::new();
    let mut tiers: HashVec<Tier> = HashVec::new();
    let rows: Vec<(&str, &str, Affix, u32)> = vec![
        ("Pre1", "ModPre1", Affix::Prefix, 10),
        ("Pre1b", "ModPre1", Affix::Prefix, 40),
        ("Pre2", "ModPre2", Affix::Prefix, 20),
        ("Pre3", "ModPre3", Affix::Prefix, 30),
        ("Pre4", "ModPre4", Affix::Prefix, 40),
        ("Suf1", "ModSuf1", Affix::Suffix, 10),
        ("Suf2", "ModSuf2", Affix::Suffix, 20),
        ("Suf3", "ModSuf3", Affix::Suffix, 30),
        ("Suf4", "ModSuf4", Affix::Suffix, 40),
        ("Cor1", "ModCor1", Affix::Corrupted, 1),
    ];
    for (id, modifier, affix, ilvl) in rows {
        if !mods.contains_key(modifier) {
            mods.insert(
                modifier.to_string(),
                Modifier {
                    group: modifier.to_string(),
                    tags: vec![],
                    mod_type: ModType::Normal,
                    stats: vec![],
                    family: modifier.to_string(),
                },
            );
        }
        tiers.insert(
            id.to_string(),
            Tier {
                id: id.to_string(),
                name: id.to_string(),
                mod_id: mods.get_opaque(modifier).unwrap(),
                affix,
                ilvl,
                value_ranges: vec![],
                weight: 1,
                mod_domain: 1,
            },
        );
    }
    Catalog::new(tiers, mods).unwrap()
}

fn pos(cat: &Catalog, id: &str) -> OpaqueIndex<Tier> {
    cat.tiers.get_opaque(id).unwrap()
}

fn made(cat: &Catalog, rarity: Rarity, level: u32, mods: &[&str]) -> ItemState {
    ItemState {
        base_type: "Ring".to_string(),
        item_level: level,
        rarity,
        mods: mods.iter().map(|id| pos(cat, id)).collect(),
    }
}

fn tiers_of(cat: &Catalog, ids: &[&str]) -> Vec<OpaqueIndex<Tier>> {
    ids.iter().map(|id| pos(cat, id)).collect()
}

#[test]
fn two_additions_at_one_affix_need_two_places_there() {
    let cat = small_catalog();
    let greater = OmenSet::from_vec(&vec![Omen::Greater]);
    let prefixes = tiers_of(&cat, &["Pre1", "Pre2", "Pre3", "Pre4"]);
    // One prefix and three suffixes: two prefixes fit.
    let it = made(&cat, Rarity::Rare, 50, &["Pre1", "Suf1", "Suf2", "Suf3"]);
    assert!(Exalt.can_be_used(&cat, &it, &prefixes, &greater));
    // Two prefixes: only one more fits.
    let it = made(&cat, Rarity::Rare, 50, &["Pre1", "Pre2", "Suf1"]);
    assert!(!Exalt.can_be_used(&cat, &it, &prefixes, &greater));
    assert!(Exalt.can_be_used(&cat, &it, &prefixes, &OmenSet::new()));
}

#[test]
fn two_additions_at_both_affixes_need_four_modifiers_at_most() {
    let cat = small_catalog();
    let greater = OmenSet::from_vec(&vec![Omen::Greater]);
    let pool = tiers_of(&cat, &["Pre3", "Pre4", "Suf3", "Suf4"]);
    let four = made(&cat, Rarity::Rare, 50, &["Pre1", "Pre2", "Suf1", "Suf2"]);
    assert!(Exalt.can_be_used(&cat, &four, &pool, &greater));
    for _ in 0..50 {
        let mut it = four.clone();
        assert_eq!(Exalt.craft(&cat, &mut it, &pool, &greater), Ok(()));
        assert_eq!(it.mods.len(), 6);
        assert!(it.is_valid(&cat));
    }
    let five = made(&cat, Rarity::Rare, 50, &["Pre1", "Pre2", "Suf1", "Suf2", "Cor1"]);
    assert!(!Exalt.can_be_used(&cat, &five, &pool, &greater));
    assert!(Exalt.can_be_used(&cat, &five, &pool, &OmenSet::new()));
}

#[test]
fn additions_that_sit_at_no_affix_go_by_their_own_count() {
    let cat = small_catalog();
    let greater = OmenSet::from_vec(&vec![Omen::Greater]);
    let pool = tiers_of(&cat, &["Cor1"]);
    let mut it = made(&cat, Rarity::Rare, 50, &["Pre1", "Pre2", "Suf1", "Suf2"]);
    assert!(Exalt.can_be_used(&cat, &it, &pool, &greater));
    // The one tier is added, and for the second addition nothing is left.
    assert_eq!(Exalt.craft(&cat, &mut it, &pool, &greater), Err(CraftError::NoCandidates));
    assert_eq!(it.mods.len(), 5);
    assert_eq!(it.mods[4], pos(&cat, "Cor1"));
    assert!(it.is_valid(&cat));
    assert!(!Exalt.can_be_used(&cat, &it, &pool, &greater));
    // Where an affix is full, a tier that sits at none cannot be added.
    let full = made(&cat, Rarity::Rare, 50, &["Pre1", "Pre2", "Pre3"]);
    assert!(!Exalt.can_be_used(&cat, &full, &pool, &OmenSet::new()));
}
