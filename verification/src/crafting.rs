//! The filters that narrow a pool of tiers before a currency rolls on it.

use crate::catalog::Catalog;
use crate::hashvec::OpaqueIndex;
use crate::item_state::{contains_text, has_affix, lists};
use crate::types::{Affix, Tier};
use crate::util::seqs::{lemma_filter_push, lemma_take_step};
use itertools::Itertools;
use vstd::prelude::*;

verus! {

/// The test "its modifier has a tag that `tags` lists".
pub open spec fn shares_tag(cat: &Catalog, tags: Seq<String>) -> spec_fn(OpaqueIndex<Tier>) -> bool {
    |t: OpaqueIndex<Tier>|
        exists|j: int|
            0 <= j < cat.tags_of(t).len() && lists(tags, (#[trigger] cat.tags_of(t)[j])@)
}

/// The test "its family is none that `families` lists".
pub open spec fn outside_families(cat: &Catalog, families: Seq<String>) -> spec_fn(
    OpaqueIndex<Tier>,
) -> bool {
    |t: OpaqueIndex<Tier>| !lists(families, cat.family_of(t))
}

/// The test "no tier of `pool` has a lower level".
pub open spec fn lowest_in(cat: &Catalog, pool: Seq<OpaqueIndex<Tier>>) -> spec_fn(
    OpaqueIndex<Tier>,
) -> bool {
    |t: OpaqueIndex<Tier>|
        forall|i: int| 0 <= i < pool.len() ==> cat.ilvl_of(t) <= cat.ilvl_of(#[trigger] pool[i])
}

/// Keeps the tiers that sit at `affix`.
pub fn filter_affix(cat: &Catalog, candidate_mods: &[OpaqueIndex<Tier>], affix: Affix) -> (kept:
    Vec<OpaqueIndex<Tier>>)
    requires
        cat.has_tiers(candidate_mods@),
    ensures
        kept@ == candidate_mods@.filter(has_affix(cat, affix)),
{
    let mut kept: Vec<OpaqueIndex<Tier>> = Vec::new();
    let mut i: usize = 0;
    assert(candidate_mods@.take(0).filter(has_affix(cat, affix)) =~= Seq::empty()) by {
        reveal(Seq::filter);
    }
    while i < candidate_mods.len()
        invariant
            i <= candidate_mods.len(),
            cat.has_tiers(candidate_mods@),
            kept@ == candidate_mods@.take(i as int).filter(has_affix(cat, affix)),
        decreases candidate_mods.len() - i,
    {
        let t = candidate_mods[i];
        proof {
            lemma_take_step(candidate_mods@, i as int);
            lemma_filter_push(candidate_mods@.take(i as int), t, has_affix(cat, affix));
        }
        if cat.get_tier(t).affix == affix {
            kept.push(t);
        }
        i += 1;
    }
    assert(candidate_mods@.take(candidate_mods.len() as int) =~= candidate_mods@);
    kept
}

/// What the tag filter keeps of `pool`: the tiers whose modifier has one
/// of `tags`, and all of the pool where there is no tag.
pub open spec fn kept_by_tags(
    cat: &Catalog,
    pool: Seq<OpaqueIndex<Tier>>,
    tags: Seq<String>,
) -> Seq<OpaqueIndex<Tier>> {
    if tags.len() == 0 {
        pool
    } else {
        pool.filter(shares_tag(cat, tags))
    }
}

/// Keeps the tiers whose modifier has one of `tags`. Without tags it keeps
/// them all.
pub fn filter_tags(cat: &Catalog, candidate_mods: &[OpaqueIndex<Tier>], tags: &Vec<String>) -> (kept:
    Vec<OpaqueIndex<Tier>>)
    requires
        cat.wf(),
        cat.has_tiers(candidate_mods@),
    ensures
        kept@ == kept_by_tags(cat, candidate_mods@, tags@),
{
    let mut kept: Vec<OpaqueIndex<Tier>> = Vec::new();
    let mut i: usize = 0;
    assert(candidate_mods@.take(0).filter(shares_tag(cat, tags@)) =~= Seq::empty()) by {
        reveal(Seq::filter);
    }
    assert(candidate_mods@.take(0) =~= Seq::empty());
    while i < candidate_mods.len()
        invariant
            i <= candidate_mods.len(),
            cat.wf(),
            cat.has_tiers(candidate_mods@),
            kept@ == kept_by_tags(cat, candidate_mods@.take(i as int), tags@),
        decreases candidate_mods.len() - i,
    {
        let t = candidate_mods[i];
        let own = &cat.get_modifier(t).tags;
        let mut shares = tags.len() == 0;
        let mut j: usize = 0;
        while j < own.len() && !shares
            invariant
                j <= own.len(),
                own@ == cat.tags_of(t),
                shares ==> tags@.len() == 0 || shares_tag(cat, tags@)(t),
                !shares ==> tags@.len() > 0,
                !shares ==> forall|k: int| 0 <= k < j ==> !lists(tags@, (#[trigger] own@[k])@),
            decreases own.len() - j + if shares { 0int } else { 1int },
        {
            if contains_text(tags, &own[j]) {
                shares = true;
            } else {
                j += 1;
            }
        }
        proof {
            lemma_take_step(candidate_mods@, i as int);
            lemma_filter_push(candidate_mods@.take(i as int), t, shares_tag(cat, tags@));
        }
        if shares {
            kept.push(t);
        }
        i += 1;
    }
    assert(candidate_mods@.take(candidate_mods.len() as int) =~= candidate_mods@);
    kept
}

/// Keeps the tiers of the lowest level among the candidates.
pub fn filter_lowest_tier(cat: &Catalog, candidate_mods: &[OpaqueIndex<Tier>]) -> (kept: Vec<
    OpaqueIndex<Tier>,
>)
    requires
        cat.has_tiers(candidate_mods@),
    ensures
        kept@ == candidate_mods@.filter(lowest_in(cat, candidate_mods@)),
{
    let n = candidate_mods.len();
    let mut kept: Vec<OpaqueIndex<Tier>> = Vec::new();
    if n == 0 {
        assert(candidate_mods@.filter(lowest_in(cat, candidate_mods@)) =~= Seq::empty()) by {
            reveal(Seq::filter);
        }
        return kept;
    }
    let mut min_ilvl: u32 = cat.get_tier(candidate_mods[0]).ilvl;
    let mut i: usize = 1;
    while i < n
        invariant
            1 <= i <= n,
            n == candidate_mods.len(),
            cat.has_tiers(candidate_mods@),
            forall|k: int| 0 <= k < i ==> min_ilvl <= cat.ilvl_of(#[trigger] candidate_mods@[k]),
            exists|k: int| 0 <= k < i && min_ilvl == cat.ilvl_of(#[trigger] candidate_mods@[k]),
        decreases n - i,
    {
        let ilvl = cat.get_tier(candidate_mods[i]).ilvl;
        if ilvl < min_ilvl {
            min_ilvl = ilvl;
        }
        i += 1;
    }
    let mut i: usize = 0;
    assert(candidate_mods@.take(0).filter(lowest_in(cat, candidate_mods@)) =~= Seq::empty()) by {
        reveal(Seq::filter);
    }
    while i < n
        invariant
            i <= n,
            n == candidate_mods.len(),
            cat.has_tiers(candidate_mods@),
            forall|k: int| 0 <= k < n ==> min_ilvl <= cat.ilvl_of(#[trigger] candidate_mods@[k]),
            exists|k: int| 0 <= k < n && min_ilvl == cat.ilvl_of(#[trigger] candidate_mods@[k]),
            kept@ == candidate_mods@.take(i as int).filter(lowest_in(cat, candidate_mods@)),
        decreases n - i,
    {
        let t = candidate_mods[i];
        proof {
            lemma_take_step(candidate_mods@, i as int);
            lemma_filter_push(candidate_mods@.take(i as int), t, lowest_in(cat, candidate_mods@));
        }
        if cat.get_tier(t).ilvl == min_ilvl {
            kept.push(t);
        }
        i += 1;
    }
    assert(candidate_mods@.take(n as int) =~= candidate_mods@);
    kept
}

/// Removes the tiers whose family is one of `families`.
pub fn filter_out_families(
    cat: &Catalog,
    candidate_mods: &[OpaqueIndex<Tier>],
    families: &Vec<String>,
) -> (kept: Vec<OpaqueIndex<Tier>>)
    requires
        cat.wf(),
        cat.has_tiers(candidate_mods@),
    ensures
        kept@ == candidate_mods@.filter(outside_families(cat, families@)),
{
    let mut kept: Vec<OpaqueIndex<Tier>> = Vec::new();
    let mut i: usize = 0;
    assert(candidate_mods@.take(0).filter(outside_families(cat, families@)) =~= Seq::empty()) by {
        reveal(Seq::filter);
    }
    while i < candidate_mods.len()
        invariant
            i <= candidate_mods.len(),
            cat.wf(),
            cat.has_tiers(candidate_mods@),
            kept@ == candidate_mods@.take(i as int).filter(outside_families(cat, families@)),
        decreases candidate_mods.len() - i,
    {
        let t = candidate_mods[i];
        proof {
            lemma_take_step(candidate_mods@, i as int);
            lemma_filter_push(candidate_mods@.take(i as int), t, outside_families(cat, families@));
        }
        if !contains_text(families, &cat.get_modifier(t).family) {
            kept.push(t);
        }
        i += 1;
    }
    assert(candidate_mods@.take(candidate_mods.len() as int) =~= candidate_mods@);
    kept
}

/// One of `kept` is a tier of the modifier at the position `group`.
pub open spec fn has_group(cat: &Catalog, kept: Seq<OpaqueIndex<Tier>>, group: int) -> bool {
    exists|i: int| 0 <= i < kept.len() && cat.group_of(#[trigger] kept[i]) == group
}

/// `kept` is what is left of `pool` when it is raised to `min_ilvl`, and `from` tells
/// for each tier kept its place in the pool.
pub open spec fn raise_picks(
    cat: &Catalog,
    pool: Seq<OpaqueIndex<Tier>>,
    min_ilvl: u32,
    kept: Seq<OpaqueIndex<Tier>>,
    from: Seq<int>,
) -> bool {
    // Each tier kept is one of the pool, and none is kept twice.
    &&& from.len() == kept.len()
    &&& from.no_duplicates()
    &&& forall|i: int|
        0 <= i < kept.len() ==> 0 <= #[trigger] from[i] < pool.len() && kept[i] == pool[from[i]]
    // Every tier at the level or above is kept.
    &&& forall|k: int|
        0 <= k < pool.len() && cat.ilvl_of(#[trigger] pool[k]) >= min_ilvl ==> from.contains(k)
    // A tier below the level is kept only as the highest of its modifier,
    // and then as the only one of it.
    &&& forall|i: int, k: int|
        0 <= i < kept.len() && 0 <= k < pool.len() && cat.ilvl_of(#[trigger] kept[i]) < min_ilvl
            && cat.group_of(#[trigger] pool[k]) == cat.group_of(kept[i]) ==> cat.ilvl_of(pool[k])
            <= cat.ilvl_of(kept[i])
    &&& forall|i: int, j: int|
        0 <= i < kept.len() && 0 <= j < kept.len() && cat.ilvl_of(#[trigger] kept[i]) < min_ilvl
            && cat.group_of(#[trigger] kept[j]) == cat.group_of(kept[i]) ==> i == j
    // Every modifier of the pool has a tier among those kept.
    &&& forall|k: int|
        0 <= k < pool.len() ==> has_group(cat, kept, cat.group_of(#[trigger] pool[k]))
    // The tiers kept stand in the order of their modifiers.
    &&& forall|i: int, j: int|
        0 <= i <= j < kept.len() ==> cat.group_of(#[trigger] kept[i]) <= cat.group_of(
            #[trigger] kept[j],
        )
}

/// `kept` is what is left of `pool` when it is raised to `min_ilvl`: of each
/// modifier the tiers at that level or above, or, where it has none, one
/// tier, its highest.
pub open spec fn raised(
    cat: &Catalog,
    pool: Seq<OpaqueIndex<Tier>>,
    min_ilvl: u32,
    kept: Seq<OpaqueIndex<Tier>>,
) -> bool {
    exists|from: Seq<int>| raise_picks(cat, pool, min_ilvl, kept, from)
}

/// A raised pool is of the pool, and holds something if the pool does.
pub proof fn lemma_raised_pool(
    cat: &Catalog,
    pool: Seq<OpaqueIndex<Tier>>,
    min_ilvl: u32,
    kept: Seq<OpaqueIndex<Tier>>,
    item_level: u32,
)
    requires
        raised(cat, pool, min_ilvl, kept),
    ensures
        forall|t: OpaqueIndex<Tier>| kept.contains(t) ==> pool.contains(t),
        pool.len() > 0 ==> kept.len() > 0,
        cat.has_tiers(pool) ==> cat.has_tiers(kept),
        crate::item_state::within_level(cat, pool, item_level) ==> crate::item_state::within_level(
            cat,
            kept,
            item_level,
        ),
{
    let from = choose|from: Seq<int>| raise_picks(cat, pool, min_ilvl, kept, from);
    assert forall|t: OpaqueIndex<Tier>| kept.contains(t) implies pool.contains(t) by {
        let i = choose|i: int| 0 <= i < kept.len() && kept[i] == t;
        assert(kept[i] == pool[from[i]]);
    }
    if pool.len() > 0 {
        assert(has_group(cat, kept, cat.group_of(pool[0])));
    }
    assert forall|i: int| 0 <= i < kept.len() implies pool.contains(#[trigger] kept[i]) by {
        assert(kept.contains(kept[i]));
    }
    if cat.has_tiers(pool) {
        assert forall|i: int| 0 <= i < kept.len() implies cat.has_tier(#[trigger] kept[i]) by {
            assert(pool.contains(kept[i]));
        }
    }
    if crate::item_state::within_level(cat, pool, item_level) {
        assert forall|i: int| 0 <= i < kept.len() implies cat.ilvl_of(#[trigger] kept[i])
            <= item_level by {
            assert(pool.contains(kept[i]));
        }
    }
}

/// `Itertools::sorted_unstable_by_key` on pairs of numbers, with the first
/// of a pair as the key: the same pairs, those with a smaller first number
/// before those with a larger. Nothing is claimed of the order of pairs
/// with the same first number.
#[verifier::external_body]
fn sorted_by_first(pairs: Vec<(usize, usize)>) -> (sorted: Vec<(usize, usize)>)
    ensures
        sorted@.to_multiset() == pairs@.to_multiset(),
        forall|i: int, j: int| 0 <= i <= j < sorted@.len() ==> sorted@[i].0 <= sorted@[j].0,
{
    pairs.into_iter().sorted_unstable_by_key(|pair| pair.0).collect()
}

/// Two sequences of the same items, one without an item twice: the other
/// is as long, has none twice either, and each has the items of the other.
proof fn lemma_same_items(a: Seq<(usize, usize)>, b: Seq<(usize, usize)>)
    requires
        a.to_multiset() == b.to_multiset(),
        b.no_duplicates(),
    ensures
        a.len() == b.len(),
        a.no_duplicates(),
        forall|x: (usize, usize)| a.contains(x) <==> b.contains(x),
{
    a.to_multiset_ensures();
    b.to_multiset_ensures();
    b.lemma_multiset_has_no_duplicates();
    a.lemma_multiset_has_no_duplicates_conv();
    assert forall|x: (usize, usize)| a.contains(x) <==> b.contains(x) by {
        assert(a.contains(x) <==> a.to_multiset().count(x) > 0);
        assert(b.contains(x) <==> b.to_multiset().count(x) > 0);
    }
}

/// The place in the pool that the pair at `i` stands for.
spec fn place(sorted: Seq<(usize, usize)>, i: int) -> int {
    sorted[i].1 as int
}

/// One of the pairs stands for the place `k` in the pool.
spec fn placed(sorted: Seq<(usize, usize)>, k: int) -> bool {
    exists|i: int| 0 <= i < sorted.len() && #[trigger] place(sorted, i) == k
}

/// The modifier of the pair at `i`.
spec fn key(sorted: Seq<(usize, usize)>, i: int) -> int {
    sorted[i].0 as int
}

/// The pairs are those of the places of the pool, each once, each with the
/// modifier of the tier at its place, in the order of the modifiers.
spec fn arranged(cat: &Catalog, pool: Seq<OpaqueIndex<Tier>>, sorted: Seq<(usize, usize)>) -> bool {
    &&& sorted.len() == pool.len()
    &&& forall|i: int|
        0 <= i < sorted.len() ==> 0 <= #[trigger] place(sorted, i) < pool.len() && key(sorted, i)
            == cat.group_of(pool[place(sorted, i)])
    &&& forall|i: int, j: int|
        0 <= i < sorted.len() && 0 <= j < sorted.len() && i != j ==> #[trigger] place(sorted, i)
            != #[trigger] place(sorted, j)
    &&& forall|k: int| 0 <= k < pool.len() ==> #[trigger] placed(sorted, k)
    &&& forall|i: int, j: int|
        0 <= i <= j < sorted.len() ==> #[trigger] key(sorted, i) <= #[trigger] key(sorted, j)
}

/// The tiers of the pool, each with its modifier and its place, in the
/// order of the modifiers.
fn arrange(cat: &Catalog, pool: &[OpaqueIndex<Tier>]) -> (sorted: Vec<(usize, usize)>)
    requires
        cat.has_tiers(pool@),
    ensures
        arranged(cat, pool@, sorted@),
{
    let mut pairs: Vec<(usize, usize)> = Vec::new();
    let mut k: usize = 0;
    while k < pool.len()
        invariant
            k <= pool.len(),
            cat.has_tiers(pool@),
            pairs@.len() == k,
            forall|i: int|
                0 <= i < k ==> (#[trigger] pairs@[i]).1 == i && pairs@[i].0 == cat.group_of(
                    pool@[i],
                ),
        decreases pool.len() - k,
    {
        pairs.push((cat.get_tier(pool[k]).mod_id.index(), k));
        k += 1;
    }
    let ghost unsorted = pairs@;
    let sorted = sorted_by_first(pairs);
    proof {
        assert(unsorted.no_duplicates());
        lemma_same_items(sorted@, unsorted);
        let s = sorted@;
        assert forall|i: int| 0 <= i < s.len() implies 0 <= #[trigger] place(s, i) < pool@.len()
            && key(s, i) == cat.group_of(pool@[place(s, i)]) by {
            assert(s.contains(s[i]));
            let k = choose|k: int| 0 <= k < unsorted.len() && unsorted[k] == s[i];
        }
        assert forall|i: int, j: int| 0 <= i < s.len() && 0 <= j < s.len() && i != j implies #[trigger] place(
            s,
            i,
        ) != #[trigger] place(s, j) by {
            assert(s.contains(s[i]));
            assert(s.contains(s[j]));
            let a = choose|a: int| 0 <= a < unsorted.len() && unsorted[a] == s[i];
            let b = choose|b: int| 0 <= b < unsorted.len() && unsorted[b] == s[j];
        }
        assert forall|k: int| 0 <= k < pool@.len() implies #[trigger] placed(s, k) by {
            assert(unsorted.contains(unsorted[k]));
            let i = choose|i: int| 0 <= i < s.len() && s[i] == unsorted[k];
            assert(place(s, i) == k);
        }
        assert forall|i: int, j: int| 0 <= i <= j < s.len() implies #[trigger] key(s, i)
            <= #[trigger] key(s, j) by {
            assert(s[i].0 <= s[j].0);
        }
    }
    sorted
}

/// The tier that the pair at `i` stands for.
spec fn tier_at(pool: Seq<OpaqueIndex<Tier>>, sorted: Seq<(usize, usize)>, i: int) -> OpaqueIndex<
    Tier,
> {
    pool[place(sorted, i)]
}

/// The level of the tier that the pair at `i` stands for.
spec fn level(cat: &Catalog, pool: Seq<OpaqueIndex<Tier>>, sorted: Seq<(usize, usize)>, i: int) -> int {
    cat.ilvl_of(tier_at(pool, sorted, i)) as int
}

/// One of the pairs at the places `at` is of the modifier `group`.
spec fn covered(sorted: Seq<(usize, usize)>, at: Seq<int>, group: int) -> bool {
    exists|o: int| 0 <= o < at.len() && key(sorted, #[trigger] at[o]) == group
}

/// The pairs before `a` are whole runs of pairs of one modifier, and `kept`
/// holds what is left of them, `at` telling for each tier kept the
/// place of its pair.
spec fn runs_done(
    cat: &Catalog,
    pool: Seq<OpaqueIndex<Tier>>,
    sorted: Seq<(usize, usize)>,
    min_ilvl: u32,
    a: int,
    kept: Seq<OpaqueIndex<Tier>>,
    at: Seq<int>,
) -> bool {
    &&& at.len() == kept.len()
    &&& forall|o: int|
        0 <= o < at.len() ==> 0 <= #[trigger] at[o] < a && kept[o] == tier_at(pool, sorted, at[o])
    &&& forall|o: int, p: int| 0 <= o < p < at.len() ==> #[trigger] at[o] < #[trigger] at[p]
    &&& forall|i: int|
        0 <= i < a && #[trigger] level(cat, pool, sorted, i) >= min_ilvl ==> at.contains(i)
    &&& forall|o: int, i: int|
        0 <= o < at.len() && 0 <= i < sorted.len() && level(cat, pool, sorted, #[trigger] at[o])
            < min_ilvl && #[trigger] key(sorted, i) == key(sorted, at[o]) ==> level(
            cat,
            pool,
            sorted,
            i,
        ) <= level(cat, pool, sorted, at[o])
    &&& forall|o: int, p: int|
        0 <= o < at.len() && 0 <= p < at.len() && level(cat, pool, sorted, #[trigger] at[o])
            < min_ilvl && key(sorted, #[trigger] at[p]) == key(sorted, at[o]) ==> o == p
    &&& forall|i: int| 0 <= i < a ==> covered(sorted, at, #[trigger] key(sorted, i))
    &&& forall|i: int, j: int|
        0 <= i < a <= j < sorted.len() ==> #[trigger] key(sorted, i) < #[trigger] key(sorted, j)
}

/// The run from `a` to `b` has been read: of its pairs, those at the level
/// stand at the end of `at`, and `best` is the place of a highest.
spec fn run_read(
    cat: &Catalog,
    pool: Seq<OpaqueIndex<Tier>>,
    sorted: Seq<(usize, usize)>,
    min_ilvl: u32,
    a: int,
    b: int,
    best: int,
    at0: Seq<int>,
    at: Seq<int>,
) -> bool {
    &&& 0 <= a <= b <= sorted.len()
    &&& a < sorted.len()
    &&& a <= best <= b
    &&& best < sorted.len()
    &&& b > a ==> best < b
    &&& forall|i: int| a <= i < b ==> #[trigger] key(sorted, i) == key(sorted, a)
    &&& forall|i: int|
        a <= i < b ==> #[trigger] level(cat, pool, sorted, i) <= level(cat, pool, sorted, best)
    &&& at0.len() <= at.len()
    &&& at.take(at0.len() as int) == at0
    &&& forall|o: int|
        at0.len() <= o < at.len() ==> a <= #[trigger] at[o] < b && level(cat, pool, sorted, at[o])
            >= min_ilvl
    &&& forall|o: int, p: int| at0.len() <= o < p < at.len() ==> #[trigger] at[o] < #[trigger] at[p]
    &&& forall|i: int|
        a <= i < b && #[trigger] level(cat, pool, sorted, i) >= min_ilvl ==> at.contains(i)
}

/// With a run read to its end, and its highest kept where none of it is at
/// the level, the runs are done up to that end.
proof fn lemma_run_closed(
    cat: &Catalog,
    pool: Seq<OpaqueIndex<Tier>>,
    sorted: Seq<(usize, usize)>,
    min_ilvl: u32,
    a: int,
    b: int,
    best: int,
    kept0: Seq<OpaqueIndex<Tier>>,
    at0: Seq<int>,
    read: Seq<int>,
    kept: Seq<OpaqueIndex<Tier>>,
    at: Seq<int>,
)
    requires
        arranged(cat, pool, sorted),
        runs_done(cat, pool, sorted, min_ilvl, a, kept0, at0),
        run_read(cat, pool, sorted, min_ilvl, a, b, best, at0, read),
        a < b,
        b < sorted.len() ==> key(sorted, b) != key(sorted, a),
        at == if read.len() > at0.len() {
            read
        } else {
            read.push(best)
        },
        kept.len() == at.len(),
        kept.take(kept0.len() as int) == kept0,
        forall|o: int| at0.len() <= o < at.len() ==> kept[o] == tier_at(pool, sorted, #[trigger] at[o]),
    ensures
        runs_done(cat, pool, sorted, min_ilvl, b, kept, at),
{
    let g = key(sorted, a);
    let n0 = at0.len() as int;
    // The run is the pairs of its modifier.
    assert forall|i: int| 0 <= i < sorted.len() && key(sorted, i) == g implies a <= i < b by {
        if i < a {
            assert(key(sorted, i) < key(sorted, a));
        }
        if i >= b {
            assert(key(sorted, b) <= key(sorted, i));
            assert(key(sorted, a) <= key(sorted, b));
        }
    }
    assert forall|o: int| 0 <= o < at.len() implies 0 <= #[trigger] at[o] < b && kept[o]
        == tier_at(pool, sorted, at[o]) by {
        if o < n0 {
            assert(at[o] == at0[o]);
            assert(read.take(n0)[o] == read[o]);
            assert(kept.take(n0)[o] == kept[o]);
        }
    }
    assert forall|o: int| 0 <= o < n0 implies #[trigger] at[o] == at0[o] && at[o] < a by {
        assert(read.take(n0)[o] == read[o]);
    }
    assert forall|o: int| n0 <= o < at.len() implies a <= #[trigger] at[o] < b by {
        if o < read.len() {
            assert(a <= read[o] < b);
        }
    }
    assert forall|o: int, p: int| 0 <= o < p < at.len() implies #[trigger] at[o] < #[trigger] at[p] by {
        if p < n0 {
            assert(at0[o] < at0[p]);
        }
    }
    assert forall|i: int| 0 <= i < b && #[trigger] level(cat, pool, sorted, i)
        >= min_ilvl implies at.contains(i) by {
        if i < a {
            assert(at0.contains(i));
            let o = choose|o: int| 0 <= o < at0.len() && at0[o] == i;
            assert(at[o] == i);
        } else {
            assert(read.contains(i));
            let o = choose|o: int| 0 <= o < read.len() && read[o] == i;
            assert(at[o] == i);
        }
    }
    assert forall|o: int, i: int|
        0 <= o < at.len() && 0 <= i < sorted.len() && level(cat, pool, sorted, #[trigger] at[o])
            < min_ilvl && #[trigger] key(sorted, i) == key(sorted, at[o]) implies level(
        cat,
        pool,
        sorted,
        i,
    ) <= level(cat, pool, sorted, at[o]) by {
        if o < n0 {
            assert(at[o] == at0[o]);
        } else {
            assert(key(sorted, at[o]) == g);
            assert(read.len() == n0);
            assert(at[o] == best);
        }
    }
    assert forall|o: int, p: int|
        0 <= o < at.len() && 0 <= p < at.len() && level(cat, pool, sorted, #[trigger] at[o])
            < min_ilvl && key(sorted, #[trigger] at[p]) == key(sorted, at[o]) implies o == p by {
        if o < n0 && p < n0 {
            assert(at[o] == at0[o] && at[p] == at0[p]);
        } else if o < n0 {
            assert(key(sorted, at[p]) == g);
            assert(key(sorted, at[o]) < key(sorted, a));
        } else if p < n0 {
            assert(key(sorted, at[o]) == g);
            assert(key(sorted, at[p]) < key(sorted, a));
        } else {
            assert(read.len() == n0);
        }
    }
    assert forall|i: int| 0 <= i < b implies covered(sorted, at, #[trigger] key(sorted, i)) by {
        if i < a {
            assert(covered(sorted, at0, key(sorted, i)));
            let o = choose|o: int| 0 <= o < at0.len() && key(sorted, #[trigger] at0[o]) == key(sorted, i);
            assert(at[o] == at0[o]);
        } else {
            let o = at.len() - 1;
            assert(a <= at[o] < b);
            assert(key(sorted, at[o]) == g);
        }
    }
    assert forall|i: int, j: int| 0 <= i < b <= j < sorted.len() implies #[trigger] key(sorted, i)
        < #[trigger] key(sorted, j) by {
        assert(key(sorted, i) <= key(sorted, j));
        if i < a {
            assert(key(sorted, i) < key(sorted, a));
            assert(key(sorted, a) <= key(sorted, j));
        } else {
            assert(key(sorted, i) == g);
        }
    }
}

/// With all runs done, what was kept is the pool raised.
proof fn lemma_runs_raise(
    cat: &Catalog,
    pool: Seq<OpaqueIndex<Tier>>,
    sorted: Seq<(usize, usize)>,
    min_ilvl: u32,
    kept: Seq<OpaqueIndex<Tier>>,
    at: Seq<int>,
)
    requires
        arranged(cat, pool, sorted),
        runs_done(cat, pool, sorted, min_ilvl, sorted.len() as int, kept, at),
    ensures
        raised(cat, pool, min_ilvl, kept),
{
    let from = Seq::new(at.len(), |o: int| place(sorted, at[o]));
    assert forall|o: int, p: int| 0 <= o < from.len() && 0 <= p < from.len() && o != p implies from[o]
        != from[p] by {
        if o < p {
            assert(at[o] < at[p]);
        } else {
            assert(at[p] < at[o]);
        }
    }
    assert forall|i: int| 0 <= i < kept.len() implies 0 <= #[trigger] from[i] < pool.len() && kept[i]
        == pool[from[i]] by {
        assert(0 <= at[i] < sorted.len());
        assert(0 <= place(sorted, at[i]) < pool.len());
    }
    assert forall|k: int| 0 <= k < pool.len() && cat.ilvl_of(#[trigger] pool[k])
        >= min_ilvl implies from.contains(k) by {
        assert(placed(sorted, k));
        let i = choose|i: int| 0 <= i < sorted.len() && #[trigger] place(sorted, i) == k;
        assert(level(cat, pool, sorted, i) >= min_ilvl);
        assert(at.contains(i));
        let o = choose|o: int| 0 <= o < at.len() && at[o] == i;
        assert(from[o] == k);
    }
    assert forall|o: int| 0 <= o < kept.len() implies cat.group_of(#[trigger] kept[o]) == key(
        sorted,
        at[o],
    ) && cat.ilvl_of(kept[o]) == level(cat, pool, sorted, at[o]) by {
        assert(0 <= at[o] < sorted.len());
        assert(0 <= place(sorted, at[o]) < pool.len());
    }
    assert forall|i: int, k: int|
        0 <= i < kept.len() && 0 <= k < pool.len() && cat.ilvl_of(#[trigger] kept[i]) < min_ilvl
            && cat.group_of(#[trigger] pool[k]) == cat.group_of(kept[i]) implies cat.ilvl_of(pool[k])
        <= cat.ilvl_of(kept[i]) by {
        assert(placed(sorted, k));
        let j = choose|j: int| 0 <= j < sorted.len() && #[trigger] place(sorted, j) == k;
        assert(key(sorted, j) == cat.group_of(pool[k]));
        assert(0 <= at[i] < sorted.len());
        assert(level(cat, pool, sorted, j) <= level(cat, pool, sorted, at[i]));
    }
    assert forall|i: int, j: int|
        0 <= i < kept.len() && 0 <= j < kept.len() && cat.ilvl_of(#[trigger] kept[i]) < min_ilvl
            && cat.group_of(#[trigger] kept[j]) == cat.group_of(kept[i]) implies i == j by {
        assert(0 <= at[i] < sorted.len() && 0 <= at[j] < sorted.len());
    }
    assert forall|k: int| 0 <= k < pool.len() implies has_group(
        cat,
        kept,
        cat.group_of(#[trigger] pool[k]),
    ) by {
        assert(placed(sorted, k));
        let j = choose|j: int| 0 <= j < sorted.len() && #[trigger] place(sorted, j) == k;
        assert(covered(sorted, at, key(sorted, j)));
        let o = choose|o: int| 0 <= o < at.len() && key(sorted, #[trigger] at[o]) == key(sorted, j);
        assert(cat.group_of(kept[o]) == key(sorted, at[o]));
    }
    assert forall|i: int, j: int| 0 <= i <= j < kept.len() implies cat.group_of(#[trigger] kept[i])
        <= cat.group_of(#[trigger] kept[j]) by {
        if i < j {
            assert(at[i] < at[j]);
        }
        assert(key(sorted, at[i]) <= key(sorted, at[j]));
    }
    assert(raise_picks(cat, pool, min_ilvl, kept, from));
}

/// Raises the pool for the greater and perfect currencies: keeps of each modifier
/// the tiers of level `min_ilvl` or above, or, where it has none, its
/// highest tier, so that every modifier can still be rolled. The tiers come
/// out in the order of their modifiers.
pub fn filter_better_currency(
    cat: &Catalog,
    candidate_tiers: &[OpaqueIndex<Tier>],
    min_ilvl: u32,
) -> (kept: Vec<OpaqueIndex<Tier>>)
    requires
        cat.has_tiers(candidate_tiers@),
    ensures
        raised(cat, candidate_tiers@, min_ilvl, kept@),
        cat.has_tiers(kept@),
        forall|t: OpaqueIndex<Tier>| kept@.contains(t) ==> candidate_tiers@.contains(t),
        candidate_tiers@.len() > 0 ==> kept@.len() > 0,
{
    let n = candidate_tiers.len();
    let sorted = arrange(cat, candidate_tiers);
    let mut kept: Vec<OpaqueIndex<Tier>> = Vec::new();
    let ghost pool = candidate_tiers@;
    let ghost mut at: Seq<int> = Seq::empty();
    let mut a: usize = 0;
    while a < n
        invariant
            a <= n,
            n == candidate_tiers.len(),
            pool == candidate_tiers@,
            cat.has_tiers(pool),
            arranged(cat, pool, sorted@),
            runs_done(cat, pool, sorted@, min_ilvl, a as int, kept@, at),
        decreases n - a,
    {
        let group = sorted[a].0;
        let ghost kept0 = kept@;
        let ghost at0 = at;
        let mut b: usize = a;
        let mut best: usize = a;
        let mut any = false;
        assert(at.take(at0.len() as int) =~= at0);
        assert(kept@.take(kept0.len() as int) =~= kept0);
        while b < n && sorted[b].0 == group
            invariant
                a < n,
                b <= n,
                n == candidate_tiers.len(),
                pool == candidate_tiers@,
                cat.has_tiers(pool),
                arranged(cat, pool, sorted@),
                group == sorted@[a as int].0,
                run_read(cat, pool, sorted@, min_ilvl, a as int, b as int, best as int, at0, at),
                at0.len() == kept0.len(),
                kept@.len() == at.len(),
                kept@.take(kept0.len() as int) == kept0,
                forall|o: int|
                    at0.len() <= o < at.len() ==> kept@[o] == tier_at(pool, sorted@, #[trigger] at[o]),
                any == (at.len() > at0.len()),
            decreases n - b,
        {
            assert(0 <= place(sorted@, b as int) < pool.len());
            assert(0 <= place(sorted@, best as int) < pool.len());
            let t = candidate_tiers[sorted[b].1];
            let ilvl = cat.get_tier(t).ilvl;
            let ghost old_best = best as int;
            if ilvl >= cat.get_tier(candidate_tiers[sorted[best].1]).ilvl {
                best = b;
            }
            let ghost read = at;
            if ilvl >= min_ilvl {
                kept.push(t);
                any = true;
                proof {
                    at = at.push(b as int);
                }
            }
            proof {
                let s = sorted@;
                assert(key(s, b as int) == key(s, a as int));
                assert(level(cat, pool, s, b as int) == ilvl);
                assert forall|i: int| a <= i < b + 1 implies #[trigger] level(cat, pool, s, i)
                    <= level(cat, pool, s, best as int) by {
                    if i < b {
                        assert(level(cat, pool, s, i) <= level(cat, pool, s, old_best));
                    }
                }
                assert(at.take(at0.len() as int) =~= at0);
                assert(kept@.take(kept0.len() as int) =~= kept0);
                assert forall|i: int|
                    a <= i < b + 1 && #[trigger] level(cat, pool, s, i) >= min_ilvl implies at.contains(
                    i,
                ) by {
                    if i < b {
                        assert(read.contains(i));
                        let o = choose|o: int| 0 <= o < read.len() && read[o] == i;
                        assert(at[o] == i);
                    } else {
                        assert(at[read.len() as int] == i);
                    }
                }
                assert forall|o: int| at0.len() <= o < at.len() implies a <= #[trigger] at[o] < b
                    + 1 && level(cat, pool, s, at[o]) >= min_ilvl by {
                    if o < read.len() {
                        assert(a <= read[o] < b);
                    }
                }
                assert forall|o: int, p: int| at0.len() <= o < p < at.len() implies #[trigger] at[o]
                    < #[trigger] at[p] by {
                    assert(a <= read[o] < b);
                    if p < read.len() {
                        assert(read[o] < read[p]);
                    }
                }
                assert forall|i: int| a <= i < b + 1 implies #[trigger] key(s, i) == key(
                    s,
                    a as int,
                ) by {}
            }
            b += 1;
        }
        assert(0 <= place(sorted@, best as int) < pool.len());
        if !any {
            kept.push(candidate_tiers[sorted[best].1]);
        }
        proof {
            let read = at;
            if !any {
                at = at.push(best as int);
            }
            assert(kept@.take(kept0.len() as int) =~= kept0);
            if b < n {
                assert(key(sorted@, b as int) != key(sorted@, a as int));
            }
            lemma_run_closed(
                cat,
                pool,
                sorted@,
                min_ilvl,
                a as int,
                b as int,
                best as int,
                kept0,
                at0,
                read,
                kept@,
                at,
            );
        }
        a = b;
    }
    proof {
        lemma_runs_raise(cat, pool, sorted@, min_ilvl, kept@, at);
        lemma_raised_pool(cat, pool, min_ilvl, kept@, 0);
    }
    kept
}

} // verus!
