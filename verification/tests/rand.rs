use poe_crafting::catalog::Catalog;
use poe_crafting::currency::steps::{roll, roll_at};
use poe_crafting::hashvec::HashVec;
use poe_crafting::types::{Affix, ModType, Modifier, Tier};
use poe_crafting::util::rand::{choice, choice_at, draw_index, pick, total_weight};

#[test]
fn total_weight_is_the_sum() {
    assert_eq!(total_weight(&[]), 0);
    assert_eq!(total_weight(&[3, 0, 4]), 7);
    assert_eq!(total_weight(&[u32::MAX, u32::MAX, 1]), 2 * (u32::MAX as u128) + 1);
}

#[test]
fn a_draw_falls_on_the_first_running_sum_above_it() {
    let weights = [3, 0, 4, 1];
    assert_eq!(pick(&weights, 0), 0);
    assert_eq!(pick(&weights, 2), 0);
    assert_eq!(pick(&weights, 3), 2);
    assert_eq!(pick(&weights, 6), 2);
    assert_eq!(pick(&weights, 7), 3);
}

#[test]
fn a_draw_never_falls_on_a_choice_without_weight() {
    let weights = [0, 5, 0, 0, 2, 0];
    for t in 0..7 {
        let i = pick(&weights, t);
        assert!(weights[i] > 0);
    }
}

#[test]
fn choice_at_gives_the_choice_at_the_place() {
    let choices = ["a", "b", "c"];
    assert_eq!(*choice_at(&choices, &[1, 1, 1], 0), "a");
    assert_eq!(*choice_at(&choices, &[1, 1, 1], 1), "b");
    assert_eq!(*choice_at(&choices, &[1, 1, 1], 2), "c");
    assert_eq!(*choice_at(&choices, &[0, 0, 9], 4), "c");
}

#[test]
fn choice_gives_a_choice_with_weight() {
    let choices = [10, 20, 30, 40];
    let weights = [0, 2, 0, 5];
    let mut seen = [0usize; 4];
    for _ in 0..500 {
        let c = *choice(&choices, &weights);
        let i = choices.iter().position(|x| *x == c).unwrap();
        seen[i] += 1;
    }
    assert_eq!(seen[0], 0);
    assert_eq!(seen[2], 0);
    assert!(seen[1] > 0);
    assert!(seen[3] > 0);
}

#[test]
fn the_only_choice_is_chosen() {
    assert_eq!(*choice(&["only"], &[7]), "only");
}

#[test]
fn a_drawn_index_is_below_the_length() {
    assert_eq!(draw_index(1), 0);
    let mut seen = [false; 3];
    for _ in 0..300 {
        let i = draw_index(3);
        assert!(i < 3);
        seen[i] = true;
    }
    assert!(seen.iter().all(|s| *s));
}

fn weighted_catalog(weights: &[u32]) -> Catalog {
    let mut mods: HashVec<Modifier> = HashVec::new();
    let mut tiers: HashVec<Tier> = HashVec::new();
    for (k, weight) in weights.iter().enumerate() {
        let name = format!("Mod{}", k);
        mods.insert(
            name.clone(),
            Modifier {
                group: name.clone(),
                tags: vec![],
                mod_type: ModType::Normal,
                stats: vec![],
                family: name.clone(),
            },
        );
        tiers.insert(
            format!("Tier{}", k),
            Tier {
                id: format!("Tier{}", k),
                name: name.clone(),
                mod_id: mods.get_opaque(&name).unwrap(),
                affix: Affix::Prefix,
                ilvl: 1,
                value_ranges: vec![],
                weight: *weight,
                mod_domain: 1,
            },
        );
    }
    Catalog::new(tiers, mods).unwrap()
}

#[test]
fn a_draw_falls_on_the_tier_whose_weights_hold_it() {
    let cat = weighted_catalog(&[2, 0, 3]);
    let pool: Vec<_> =
        ["Tier0", "Tier1", "Tier2"].iter().map(|id| cat.tiers.get_opaque(id).unwrap()).collect();
    let rolled: Vec<usize> = (0..5).map(|t| roll_at(&cat, &pool, t).index()).collect();
    assert_eq!(rolled, vec![0, 0, 2, 2, 2]);
    // The pool in another order: the draw goes by the places in the pool.
    let pool: Vec<_> =
        ["Tier2", "Tier0"].iter().map(|id| cat.tiers.get_opaque(id).unwrap()).collect();
    let rolled: Vec<usize> = (0..5).map(|t| roll_at(&cat, &pool, t).index()).collect();
    assert_eq!(rolled, vec![2, 2, 2, 0, 0]);
}

#[test]
fn a_roll_gives_a_tier_of_the_pool_with_weight() {
    let cat = weighted_catalog(&[0, 4, 0, 1]);
    let pool: Vec<_> = ["Tier0", "Tier1", "Tier2", "Tier3"]
        .iter()
        .map(|id| cat.tiers.get_opaque(id).unwrap())
        .collect();
    for _ in 0..200 {
        let rolled = roll(&cat, &pool).unwrap().index();
        assert!(rolled == 1 || rolled == 3);
    }
    assert!(roll(&cat, &[]).is_none());
    // Without any weight, the first.
    let cat = weighted_catalog(&[0, 0]);
    let pool: Vec<_> =
        ["Tier1", "Tier0"].iter().map(|id| cat.tiers.get_opaque(id).unwrap()).collect();
    assert_eq!(roll(&cat, &pool).unwrap().index(), 1);
}
