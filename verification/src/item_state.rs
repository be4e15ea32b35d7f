//! The item that is crafted on, and what can be asked of it.

use crate::catalog::Catalog;
use crate::hashvec::OpaqueIndex;
use crate::types::{Affix, Tier};
use crate::util::seqs::{lemma_filter_push, lemma_take_step};
use vstd::prelude::*;

verus! {

/// How rare an item is, which sets how many modifiers it holds.
#[derive(Debug, PartialEq, Eq, Clone, Copy, Structural)]
pub enum Rarity {
    Normal,
    Magic,
    Rare,
}

impl Rarity {
    /// The place of a rarity in the order Normal, Magic, Rare.
    pub open spec fn rank(self) -> int {
        match self {
            Rarity::Normal => 0,
            Rarity::Magic => 1,
            Rarity::Rare => 2,
        }
    }

    /// How many modifiers an item of this rarity holds at most.
    pub open spec fn max_mods(self) -> int {
        match self {
            Rarity::Normal => 0,
            Rarity::Magic => 2,
            Rarity::Rare => 6,
        }
    }

    /// How many prefixes, and how many suffixes, an item of this rarity holds
    /// at most.
    pub open spec fn max_affixes(self) -> int {
        match self {
            Rarity::Normal => 0,
            Rarity::Magic => 1,
            Rarity::Rare => 3,
        }
    }
}

/// The item that is crafted on.
#[derive(Debug)]
pub struct ItemState {
    pub base_type: String,
    pub item_level: u32,
    pub rarity: Rarity,
    /// The tiers on the item, in the order in which they came.
    pub mods: Vec<OpaqueIndex<Tier>>,
}

/// The test "sits at `affix`".
pub open spec fn has_affix(cat: &Catalog, affix: Affix) -> spec_fn(OpaqueIndex<Tier>) -> bool {
    |t: OpaqueIndex<Tier>| cat.affix_of(t) == affix
}

/// How many of `mods` sit at `affix`.
pub open spec fn affix_count(cat: &Catalog, mods: Seq<OpaqueIndex<Tier>>, affix: Affix) -> nat {
    mods.filter(has_affix(cat, affix)).len()
}

/// One of `mods` is of the family `family`.
pub open spec fn has_family(cat: &Catalog, mods: Seq<OpaqueIndex<Tier>>, family: Seq<char>) -> bool {
    exists|i: int| 0 <= i < mods.len() && cat.family_of(#[trigger] mods[i]) == family
}

/// No two of `mods` are of one family.
pub open spec fn distinct_families(cat: &Catalog, mods: Seq<OpaqueIndex<Tier>>) -> bool {
    forall|i: int, j: int|
        0 <= i < j < mods.len() ==> cat.family_of(#[trigger] mods[i]) != cat.family_of(
            #[trigger] mods[j],
        )
}

/// `tag` is a tag of the modifier of `t`.
pub open spec fn tier_has_tag(cat: &Catalog, t: OpaqueIndex<Tier>, tag: Seq<char>) -> bool {
    lists(cat.tags_of(t), tag)
}

/// `tag` is a tag of one of `mods`.
pub open spec fn has_tag(cat: &Catalog, mods: Seq<OpaqueIndex<Tier>>, tag: Seq<char>) -> bool {
    exists|i: int| 0 <= i < mods.len() && tier_has_tag(cat, #[trigger] mods[i], tag)
}

/// Every one of `mods` rolls at `item_level`.
pub open spec fn within_level(cat: &Catalog, mods: Seq<OpaqueIndex<Tier>>, item_level: u32) -> bool {
    forall|i: int| 0 <= i < mods.len() ==> cat.ilvl_of(#[trigger] mods[i]) <= item_level
}

/// `text` is one of `list`.
pub open spec fn lists(list: Seq<String>, text: Seq<char>) -> bool {
    exists|k: int| 0 <= k < list.len() && (#[trigger] list[k])@ == text
}

/// No text is twice in `list`.
pub open spec fn each_once(list: Seq<String>) -> bool {
    forall|a: int, b: int| 0 <= a < b < list.len() ==> (#[trigger] list[a])@ != (#[trigger] list[b])@
}

/// A list with one more text at its end lists that text and what it listed
/// before.
pub proof fn lemma_lists_push(list: Seq<String>, last: String, text: Seq<char>)
    ensures
        lists(list.push(last), text) == (lists(list, text) || last@ == text),
{
    let more = list.push(last);
    if lists(list, text) {
        let k = choose|k: int| 0 <= k < list.len() && (#[trigger] list[k])@ == text;
        assert(more[k]@ == text);
    }
    if last@ == text {
        assert(more[list.len() as int]@ == text);
    }
    if lists(more, text) {
        let k = choose|k: int| 0 <= k < more.len() && (#[trigger] more[k])@ == text;
        if k < list.len() {
            assert(list[k]@ == text);
        }
    }
}

/// With one more modifier, an item has that modifier's tags and those it had
/// before.
pub proof fn lemma_has_tag_push(
    cat: &Catalog,
    mods: Seq<OpaqueIndex<Tier>>,
    t: OpaqueIndex<Tier>,
    tag: Seq<char>,
)
    ensures
        has_tag(cat, mods.push(t), tag) == (has_tag(cat, mods, tag) || tier_has_tag(cat, t, tag)),
{
    let more = mods.push(t);
    if has_tag(cat, mods, tag) {
        let i = choose|i: int| 0 <= i < mods.len() && tier_has_tag(cat, #[trigger] mods[i], tag);
        assert(tier_has_tag(cat, more[i], tag));
    }
    if tier_has_tag(cat, t, tag) {
        assert(tier_has_tag(cat, more[mods.len() as int], tag));
    }
    if has_tag(cat, more, tag) {
        let i = choose|i: int| 0 <= i < more.len() && tier_has_tag(cat, #[trigger] more[i], tag);
        if i < mods.len() {
            assert(tier_has_tag(cat, mods[i], tag));
        }
    }
}

/// Whether `text` is one of `list`.
pub fn contains_text(list: &Vec<String>, text: &String) -> (b: bool)
    ensures
        b == lists(list@, text@),
{
    let mut k: usize = 0;
    while k < list.len()
        invariant
            k <= list.len(),
            forall|a: int| 0 <= a < k ==> (#[trigger] list@[a])@ != text@,
        decreases list.len() - k,
    {
        if list[k] == *text {
            return true;
        }
        k += 1;
    }
    false
}

impl Clone for ItemState {
    fn clone(&self) -> (r: Self)
        ensures
            r.same_frame(self),
            r.mods@ == self.mods@,
    {
        let mods = self.mods.clone();
        assert(mods@ =~= self.mods@);
        ItemState {
            base_type: self.base_type.clone(),
            item_level: self.item_level,
            rarity: self.rarity,
            mods,
        }
    }
}

impl ItemState {
    /// Every modifier of the item is a tier of the catalog.
    pub open spec fn wf(&self, cat: &Catalog) -> bool {
        cat.has_tiers(self.mods@)
    }

    /// The state is one that the rules allow: no more modifiers, prefixes
    /// and suffixes than the rarity holds, none above the item's level, and
    /// no family twice.
    pub open spec fn valid(&self, cat: &Catalog) -> bool {
        &&& self.mods@.len() <= self.rarity.max_mods()
        &&& affix_count(cat, self.mods@, Affix::Prefix) <= self.rarity.max_affixes()
        &&& affix_count(cat, self.mods@, Affix::Suffix) <= self.rarity.max_affixes()
        &&& within_level(cat, self.mods@, self.item_level)
        &&& distinct_families(cat, self.mods@)
    }

    /// The item but for its modifiers: base, level and rarity.
    pub open spec fn same_frame(&self, other: &ItemState) -> bool {
        &&& self.base_type == other.base_type
        &&& self.item_level == other.item_level
        &&& self.rarity == other.rarity
    }

    /// Whether every modifier of the item is a tier of the catalog.
    pub fn is_wf(&self, cat: &Catalog) -> (wf: bool)
        ensures
            wf == self.wf(cat),
    {
        cat.holds(self.mods.as_slice())
    }

    /// How many of the item's modifiers sit at `affix`.
    pub fn num_affix(&self, cat: &Catalog, affix: Affix) -> (n: usize)
        requires
            self.wf(cat),
        ensures
            n == affix_count(cat, self.mods@, affix),
    {
        let mut n: usize = 0;
        let mut i: usize = 0;
        assert(self.mods@.take(0).filter(has_affix(cat, affix)).len() == 0) by {
            reveal(Seq::filter);
        }
        while i < self.mods.len()
            invariant
                i <= self.mods.len(),
                self.wf(cat),
                n == affix_count(cat, self.mods@.take(i as int), affix),
                n <= i,
            decreases self.mods.len() - i,
        {
            proof {
                lemma_take_step(self.mods@, i as int);
                lemma_filter_push(self.mods@.take(i as int), self.mods@[i as int], has_affix(cat, affix));
            }
            if cat.get_tier(self.mods[i]).affix == affix {
                n += 1;
            }
            i += 1;
        }
        assert(self.mods@.take(self.mods.len() as int) =~= self.mods@);
        n
    }

    /// How many prefixes the item has.
    pub fn num_prefixes(&self, cat: &Catalog) -> (n: usize)
        requires
            self.wf(cat),
        ensures
            n == affix_count(cat, self.mods@, Affix::Prefix),
    {
        self.num_affix(cat, Affix::Prefix)
    }

    /// How many suffixes the item has.
    pub fn num_suffixes(&self, cat: &Catalog) -> (n: usize)
        requires
            self.wf(cat),
        ensures
            n == affix_count(cat, self.mods@, Affix::Suffix),
    {
        self.num_affix(cat, Affix::Suffix)
    }

    /// Whether the item has room for one more modifier at `affix`, which is
    /// Prefix or Suffix.
    pub fn has_room(&self, cat: &Catalog, affix: Affix) -> (b: bool)
        requires
            self.wf(cat),
            affix != Affix::Corrupted,
        ensures
            b == (affix_count(cat, self.mods@, affix) < self.rarity.max_affixes()),
    {
        let max_affixes: usize = match self.rarity {
            Rarity::Normal => 0,
            Rarity::Magic => 1,
            Rarity::Rare => 3,
        };
        self.num_affix(cat, affix) < max_affixes
    }

    /// The tags of the item's modifiers, each once.
    pub fn mod_tags(&self, cat: &Catalog) -> (tags: Vec<String>)
        requires
            cat.wf(),
            self.wf(cat),
        ensures
            forall|tag: Seq<char>| lists(tags@, tag) == has_tag(cat, self.mods@, tag),
            each_once(tags@),
    {
        let mut tags: Vec<String> = Vec::new();
        let mut i: usize = 0;
        while i < self.mods.len()
            invariant
                i <= self.mods.len(),
                cat.wf(),
                self.wf(cat),
                forall|tag: Seq<char>|
                    lists(tags@, tag) == has_tag(cat, self.mods@.take(i as int), tag),
                each_once(tags@),
            decreases self.mods.len() - i,
        {
            let modifier = cat.get_modifier(self.mods[i]);
            let ghost t = self.mods@[i as int];
            let ghost done = self.mods@.take(i as int);
            let mut j: usize = 0;
            while j < modifier.tags.len()
                invariant
                    j <= modifier.tags.len(),
                    forall|tag: Seq<char>|
                        lists(tags@, tag) == (has_tag(cat, done, tag) || lists(
                            modifier.tags@.take(j as int),
                            tag,
                        )),
                    each_once(tags@),
                decreases modifier.tags.len() - j,
            {
                let ghost before = tags@;
                let tag = &modifier.tags[j];
                let known = contains_text(&tags, tag);
                if !known {
                    tags.push(tag.clone());
                }
                proof {
                    lemma_take_step(modifier.tags@, j as int);
                    assert forall|x: Seq<char>|
                        lists(tags@, x) == (has_tag(cat, done, x) || lists(
                            modifier.tags@.take(j + 1),
                            x,
                        )) by {
                        lemma_lists_push(modifier.tags@.take(j as int), *tag, x);
                        if !known {
                            lemma_lists_push(before, *tag, x);
                        }
                    }
                }
                j += 1;
            }
            proof {
                lemma_take_step(self.mods@, i as int);
                assert(modifier.tags@.take(modifier.tags.len() as int) =~= modifier.tags@);
                assert forall|tag: Seq<char>|
                    lists(tags@, tag) == has_tag(cat, self.mods@.take(i + 1), tag) by {
                    lemma_has_tag_push(cat, done, t, tag);
                }
            }
            i += 1;
        }
        assert(self.mods@.take(self.mods.len() as int) =~= self.mods@);
        tags
    }

    /// The family of each modifier of the item, in the item's order.
    pub fn mod_familities(&self, cat: &Catalog) -> (families: Vec<String>)
        requires
            cat.wf(),
            self.wf(cat),
        ensures
            families@.len() == self.mods@.len(),
            forall|i: int|
                0 <= i < self.mods@.len() ==> (#[trigger] families@[i])@ == cat.family_of(
                    self.mods@[i],
                ),
    {
        let mut families: Vec<String> = Vec::new();
        let mut i: usize = 0;
        while i < self.mods.len()
            invariant
                i <= self.mods.len(),
                cat.wf(),
                self.wf(cat),
                families@.len() == i,
                forall|k: int|
                    0 <= k < i ==> (#[trigger] families@[k])@ == cat.family_of(self.mods@[k]),
            decreases self.mods.len() - i,
        {
            let modifier = cat.get_modifier(self.mods[i]);
            families.push(modifier.family.clone());
            i += 1;
        }
        families
    }

    /// Checks whether the state of the item is one that the rules allow.
    pub fn is_valid(&self, cat: &Catalog) -> (b: bool)
        requires
            cat.wf(),
            self.wf(cat),
        ensures
            b == self.valid(cat),
    {
        let n = self.mods.len();
        let num_mods_ok = match self.rarity {
            Rarity::Normal => n == 0,
            Rarity::Magic => n <= 2,
            Rarity::Rare => n <= 6,
        };
        let prefixes = self.num_prefixes(cat);
        let suffixes = self.num_suffixes(cat);
        let num_affixes_ok = match self.rarity {
            Rarity::Normal => prefixes == 0 && suffixes == 0,
            Rarity::Magic => prefixes <= 1 && suffixes <= 1,
            Rarity::Rare => prefixes <= 3 && suffixes <= 3,
        };
        if !(num_mods_ok && num_affixes_ok) {
            return false;
        }
        let mut i: usize = 0;
        while i < n
            invariant
                i <= n,
                n == self.mods.len(),
                cat.wf(),
                self.wf(cat),
                within_level(cat, self.mods@.take(i as int), self.item_level),
                distinct_families(cat, self.mods@.take(i as int)),
            decreases n - i,
        {
            let tier = cat.get_tier(self.mods[i]);
            if tier.ilvl > self.item_level {
                return false;
            }
            let family = &cat.get_modifier(self.mods[i]).family;
            let mut j: usize = 0;
            while j < i
                invariant
                    j <= i,
                    i < n,
                    n == self.mods.len(),
                    cat.wf(),
                    self.wf(cat),
                    family@ == cat.family_of(self.mods@[i as int]),
                    forall|k: int|
                        0 <= k < j ==> cat.family_of(#[trigger] self.mods@[k]) != family@,
                decreases i - j,
            {
                if cat.get_modifier(self.mods[j]).family == *family {
                    return false;
                }
                j += 1;
            }
            proof {
                let done = self.mods@.take(i as int);
                let next = self.mods@.take(i + 1);
                assert forall|a: int, b: int| 0 <= a < b < next.len() implies cat.family_of(
                    #[trigger] next[a],
                ) != cat.family_of(#[trigger] next[b]) by {
                    if b < i {
                        assert(done[a] == next[a] && done[b] == next[b]);
                    }
                }
                assert forall|a: int| 0 <= a < next.len() implies cat.ilvl_of(#[trigger] next[a])
                    <= self.item_level by {
                    if a < i {
                        assert(done[a] == next[a]);
                    }
                }
            }
            i += 1;
        }
        assert(self.mods@.take(n as int) =~= self.mods@);
        true
    }
}

/// The tiers that can ever roll on the item: those that the catalog lists
/// for its base and that roll at its level, in the catalog's order.
pub fn get_valid_mods_for_item(cat: &Catalog, item: &ItemState) -> (pool: Vec<OpaqueIndex<Tier>>)
    requires
        cat.wf(),
        cat.lists_base(item.base_type@),
    ensures
        cat.has_tiers(pool@),
        within_level(cat, pool@, item.item_level),
        pool@ == listed_tiers(cat, cat.item_tiers@[item.base_type@]@).filter(
            rolls_at(cat, item.item_level),
        ),
{
    let ids = cat.item_tiers.get(item.base_type.as_str()).unwrap();
    let mut pool: Vec<OpaqueIndex<Tier>> = Vec::new();
    let mut j: usize = 0;
    let ghost all = listed_tiers(cat, ids@);
    proof {
        cat.tiers.lemma_wf();
        assert(all.take(0).filter(rolls_at(cat, item.item_level)) =~= Seq::empty()) by {
            reveal(Seq::filter);
        }
    }
    while j < ids.len()
        invariant
            j <= ids.len(),
            cat.wf(),
            cat.lists_base(item.base_type@),
            *ids == cat.item_tiers@[item.base_type@],
            all == listed_tiers(cat, ids@),
            all.len() == ids.len(),
            cat.has_tiers(pool@),
            within_level(cat, pool@, item.item_level),
            pool@ == all.take(j as int).filter(rolls_at(cat, item.item_level)),
        decreases ids.len() - j,
    {
        let t = cat.tiers.opaque(ids[j].as_str());
        proof {
            cat.tiers.lemma_wf();
            assert(cat.tiers.names().contains_key(ids@[j as int]@));
            assert(all[j as int]@ == t@);
            OpaqueIndex::lemma_view_eq(all[j as int], t);
            lemma_take_step(all, j as int);
            lemma_filter_push(all.take(j as int), t, rolls_at(cat, item.item_level));
        }
        if item.item_level >= cat.get_tier(t).ilvl {
            pool.push(t);
        }
        j += 1;
    }
    assert(all.take(ids.len() as int) =~= all);
    pool
}

/// The test "rolls on an item of level `item_level`".
pub open spec fn rolls_at(cat: &Catalog, item_level: u32) -> spec_fn(OpaqueIndex<Tier>) -> bool {
    |t: OpaqueIndex<Tier>| cat.ilvl_of(t) <= item_level
}

/// The tiers that the ids name, in the order of the ids.
pub open spec fn listed_tiers(cat: &Catalog, ids: Seq<String>) -> Seq<OpaqueIndex<Tier>> {
    Seq::new(ids.len(), |j: int| cat.tiers.position(ids[j]@))
}

} // verus!
