//! Items as text: the base, the level and the rarity of an item, and a line
//! for each of its modifiers.

use crate::catalog::Catalog;
use crate::hashvec::OpaqueIndex;
use crate::item_state::{ItemState, Rarity};
use crate::types::{find_matching_formatter, first_applying, StatFormatter, Tier};
use crate::util::text::{decimal, index_string};
use vstd::hash_map::StringHashMap;
use vstd::prelude::*;
use vstd::string::StringExecFns;

verus! {

/// Why an item could not be written out.
#[derive(Debug, Clone, PartialEq, Eq)]
pub enum DescribeError {
    /// No formatter is known for the stat.
    NoFormatter(String),
    /// None of the formatters for the stats of this modifier applies to
    /// its values.
    NoMatchingFormatter(String),
}

/// The texts, with `|` between them.
pub open spec fn joined(texts: Seq<String>, count: nat) -> Seq<char>
    decreases count,
{
    if count == 0 {
        Seq::empty()
    } else if count == 1 {
        texts[0]@
    } else {
        joined(texts, (count - 1) as nat) + "|"@ + texts[count - 1]@
    }
}

/// The table with `formatters` under each of the first `count` ids.
pub open spec fn with_each(
    table: Map<Seq<char>, Seq<StatFormatter>>,
    ids: Seq<String>,
    formatters: Seq<StatFormatter>,
    count: nat,
) -> Map<Seq<char>, Seq<StatFormatter>>
    decreases count,
{
    if count == 0 {
        table
    } else {
        with_each(table, ids, formatters, (count - 1) as nat).insert(ids[count - 1]@, formatters)
    }
}

/// The table with `formatters` for the stats `ids`: under the ids with `|`
/// between them, and under each id.
pub open spec fn with_formatters(
    table: Map<Seq<char>, Seq<StatFormatter>>,
    ids: Seq<String>,
    formatters: Seq<StatFormatter>,
) -> Map<Seq<char>, Seq<StatFormatter>> {
    with_each(table.insert(joined(ids, ids.len()), formatters), ids, formatters, ids.len())
}

/// How stats are written out: the formatters for a stat under its id, and
/// those for several stats together under their ids with `|` between them.
pub struct Formatters {
    lists: Vec<Vec<StatFormatter>>,
    places: StringHashMap<usize>,
}

impl View for Formatters {
    type V = Map<Seq<char>, Seq<StatFormatter>>;

    closed spec fn view(&self) -> Map<Seq<char>, Seq<StatFormatter>> {
        Map::new(
            |key: Seq<char>| self.places@.contains_key(key),
            |key: Seq<char>| self.lists@[self.places@[key] as int]@,
        )
    }
}

impl Formatters {
    /// Each key has its formatters.
    pub closed spec fn wf(&self) -> bool {
        forall|key: Seq<char>| #[trigger]
            self.places@.contains_key(key) ==> self.places@[key] < self.lists@.len()
    }

    /// The table without a formatter.
    pub fn new() -> (table: Formatters)
        ensures
            table.wf(),
            table@ == Map::<Seq<char>, Seq<StatFormatter>>::empty(),
    {
        let table = Formatters { lists: Vec::new(), places: StringHashMap::new() };
        assert(table@ =~= Map::<Seq<char>, Seq<StatFormatter>>::empty());
        table
    }

    /// Puts the last of the lists under `key`.
    fn place(&mut self, key: String)
        requires
            old(self).wf(),
            old(self).lists@.len() > 0,
        ensures
            final(self).wf(),
            final(self).lists@ == old(self).lists@,
            final(self)@ == old(self)@.insert(key@, old(self).lists@.last()@),
    {
        let last: usize = self.lists.len() - 1;
        self.places.insert(key, last);
        assert(self@ =~= old(self)@.insert(key@, old(self).lists@.last()@));
    }

    /// Takes `formatters` for the stats `ids`: for all of them together,
    /// and for each of them. What stood under one of these keys is gone.
    pub fn add(&mut self, ids: &Vec<String>, formatters: Vec<StatFormatter>)
        requires
            old(self).wf(),
        ensures
            final(self).wf(),
            final(self)@ == with_formatters(old(self)@, ids@, formatters@),
    {
        let ghost given = formatters@;
        self.lists.push(formatters);
        assert(self@ =~= old(self)@);
        self.place(join_stats(ids));
        let mut k: usize = 0;
        while k < ids.len()
            invariant
                k <= ids.len(),
                self.wf(),
                self.lists@.len() > 0,
                self.lists@.last()@ == given,
                self@ == with_each(
                    old(self)@.insert(joined(ids@, ids@.len()), given),
                    ids@,
                    given,
                    k as nat,
                ),
            decreases ids.len() - k,
        {
            self.place(ids[k].clone());
            k += 1;
        }
    }

    /// Whether there are formatters under `key`.
    pub fn contains_key(&self, key: &str) -> (found: bool)
        ensures
            found == self@.contains_key(key@),
    {
        self.places.contains_key(key)
    }

    /// The formatters under `key`.
    pub fn get(&self, key: &str) -> (found: Option<&Vec<StatFormatter>>)
        requires
            self.wf(),
        ensures
            match found {
                Some(formatters) => self@.contains_key(key@) && formatters@ == self@[key@],
                None => !self@.contains_key(key@),
            },
    {
        match self.places.get(key) {
            Some(place) => Some(&self.lists[*place]),
            None => None,
        }
    }
}

/// The lower ends of the ranges.
pub open spec fn lows(ranges: Seq<[i32; 2]>) -> Seq<i32> {
    Seq::new(ranges.len(), |k: int| ranges[k][0])
}

/// The name of a rarity.
pub open spec fn rarity_text(rarity: Rarity) -> Seq<char> {
    match rarity {
        Rarity::Normal => "Normal"@,
        Rarity::Magic => "Magic"@,
        Rarity::Rare => "Rare"@,
    }
}

/// The head of the text of an item: its base, its level and its rarity,
/// and a rule.
pub open spec fn head_text(item: &ItemState) -> Seq<char> {
    item.base_type@ + "\n"@ + "ilvl: "@ + decimal(item.item_level as int) + "\n"@ + rarity_text(
        item.rarity,
    ) + "\n"@ + "=====================\n"@
}

/// The line of the formatter that applies first to `values`, written for
/// `ranges`, or nothing where none applies.
pub open spec fn formatted(
    formatters: Seq<StatFormatter>,
    values: Seq<i32>,
    ranges: Seq<[i32; 2]>,
) -> Option<Seq<char>> {
    if exists|i: usize| first_applying(formatters, values, Some(i)) {
        let i = choose|i: usize| first_applying(formatters, values, Some(i));
        Some(formatters[i as int].ranged(ranges) + "\n"@)
    } else {
        None
    }
}

/// The lines for the first `count` stats of a modifier, each written by
/// the formatter of its own stat, or the error of the first stat that
/// cannot be written.
pub open spec fn stat_lines(
    formatters: Map<Seq<char>, Seq<StatFormatter>>,
    stats: Seq<String>,
    ranges: Seq<[i32; 2]>,
    count: nat,
) -> Result<Seq<char>, DescribeFault>
    decreases count,
{
    if count == 0 {
        Ok(Seq::empty())
    } else {
        match stat_lines(formatters, stats, ranges, (count - 1) as nat) {
            Err(fault) => Err(fault),
            Ok(text) => {
                let stat = stats[count - 1]@;
                if !formatters.contains_key(stat) {
                    Err(DescribeFault::NoFormatter(stat))
                } else {
                    match formatted(
                        formatters[stat],
                        lows(ranges),
                        ranges.subrange(count - 1, count as int),
                    ) {
                        Some(line) => Ok(text + line),
                        None => Err(DescribeFault::NoMatchingFormatter(stat)),
                    }
                }
            },
        }
    }
}

/// Why an item cannot be written out, by the text of the stat.
pub enum DescribeFault {
    NoFormatter(Seq<char>),
    NoMatchingFormatter(Seq<char>),
}

/// `error` tells the fault.
pub open spec fn tells(error: DescribeError, fault: DescribeFault) -> bool {
    match (error, fault) {
        (DescribeError::NoFormatter(stat), DescribeFault::NoFormatter(text)) => stat@ == text,
        (
            DescribeError::NoMatchingFormatter(stat),
            DescribeFault::NoMatchingFormatter(text),
        ) => stat@ == text,
        _ => false,
    }
}

/// The lines of a tier: one line by the formatter for all its stats
/// together, where there is one, else a line for each stat.
pub open spec fn tier_lines(
    formatters: Map<Seq<char>, Seq<StatFormatter>>,
    stats: Seq<String>,
    ranges: Seq<[i32; 2]>,
) -> Result<Seq<char>, DescribeFault> {
    let key = joined(stats, stats.len());
    if formatters.contains_key(key) {
        match formatted(formatters[key], lows(ranges), ranges) {
            Some(line) => Ok(line),
            None => Err(DescribeFault::NoMatchingFormatter(key)),
        }
    } else {
        let count = if stats.len() <= ranges.len() {
            stats.len()
        } else {
            ranges.len()
        };
        stat_lines(formatters, stats, ranges, count)
    }
}

/// The lines of the first `count` modifiers of an item, or the fault of the
/// first that cannot be written.
pub open spec fn mod_lines(
    cat: &Catalog,
    formatters: Map<Seq<char>, Seq<StatFormatter>>,
    mods: Seq<OpaqueIndex<Tier>>,
    count: nat,
) -> Result<Seq<char>, DescribeFault>
    decreases count,
{
    if count == 0 {
        Ok(Seq::empty())
    } else {
        match mod_lines(cat, formatters, mods, (count - 1) as nat) {
            Err(fault) => Err(fault),
            Ok(text) => {
                let t = mods[count - 1];
                match tier_lines(formatters, cat.modifier_of(t).stats@, cat.tier(t).value_ranges@) {
                    Ok(lines) => Ok(text + lines),
                    Err(fault) => Err(fault),
                }
            },
        }
    }
}

/// The texts, with `|` between them.
pub fn join_stats(texts: &Vec<String>) -> (out: String)
    ensures
        out@ == joined(texts@, texts@.len()),
{
    let mut out = String::new();
    let mut i: usize = 0;
    while i < texts.len()
        invariant
            i <= texts.len(),
            out@ == joined(texts@, i as nat),
        decreases texts.len() - i,
    {
        if i > 0 {
            out.append("|");
        }
        out.append(texts[i].as_str());
        proof {
            if i == 0 {
                assert(Seq::<char>::empty() + texts@[0]@ =~= texts@[0]@);
            }
        }
        i += 1;
    }
    out
}

/// The lower ends of the ranges.
pub fn lower_ends(ranges: &[[i32; 2]]) -> (out: Vec<i32>)
    ensures
        out@ == lows(ranges@),
{
    let mut out: Vec<i32> = Vec::new();
    let mut k: usize = 0;
    while k < ranges.len()
        invariant
            k <= ranges.len(),
            out@.len() == k,
            forall|j: int| 0 <= j < k ==> out@[j] == ranges@[j][0],
        decreases ranges.len() - k,
    {
        out.push(ranges[k][0]);
        k += 1;
    }
    assert(out@ =~= lows(ranges@));
    out
}

/// The line of the formatter that applies first to `values`, written for
/// `ranges`.
fn format_line(formatters: &Vec<StatFormatter>, values: &[i32], ranges: &[[i32; 2]]) -> (line:
    Option<String>)
    ensures
        match line {
            Some(text) => formatted(formatters@, values@, ranges@) == Some(text@),
            None => formatted(formatters@, values@, ranges@) is None,
        },
{
    match find_matching_formatter(formatters.as_slice(), values) {
        None => {
            assert forall|i: usize| !first_applying(formatters@, values@, Some(i)) by {
                if i < formatters@.len() {
                    assert(!formatters@[i as int].applies(values@));
                }
            }
            None
        },
        Some(found) => {
            proof {
                let i = choose|i: usize| first_applying(formatters@, values@, Some(i));
                if i < found {
                    assert(!formatters@[i as int].applies(values@));
                }
                if found < i {
                    assert(!formatters@[found as int].applies(values@));
                }
            }
            let mut text = formatters[found].format_value_range(ranges);
            text.append("\n");
            Some(text)
        },
    }
}

/// From the first stat that cannot be written on, the lines of the stats
/// are that stat's fault.
proof fn lemma_stat_fault(
    formatters: Map<Seq<char>, Seq<StatFormatter>>,
    stats: Seq<String>,
    ranges: Seq<[i32; 2]>,
    k: nat,
    count: nat,
)
    requires
        k <= count,
        stat_lines(formatters, stats, ranges, k) is Err,
    ensures
        stat_lines(formatters, stats, ranges, count) == stat_lines(formatters, stats, ranges, k),
    decreases count,
{
    if k < count {
        lemma_stat_fault(formatters, stats, ranges, k, (count - 1) as nat);
    }
}

/// From the first modifier that cannot be written on, the lines of the
/// modifiers are that modifier's fault.
proof fn lemma_mod_fault(
    cat: &Catalog,
    formatters: Map<Seq<char>, Seq<StatFormatter>>,
    mods: Seq<OpaqueIndex<Tier>>,
    k: nat,
    count: nat,
)
    requires
        k <= count,
        mod_lines(cat, formatters, mods, k) is Err,
    ensures
        mod_lines(cat, formatters, mods, count) == mod_lines(cat, formatters, mods, k),
    decreases count,
{
    if k < count {
        lemma_mod_fault(cat, formatters, mods, k, (count - 1) as nat);
    }
}

/// The lines of a tier with these stats and ranges.
pub fn describe_tier(
    formatters: &Formatters,
    stats: &Vec<String>,
    ranges: &Vec<[i32; 2]>,
) -> (out: Result<String, DescribeError>)
    requires
        formatters.wf(),
    ensures
        match out {
            Ok(text) => tier_lines(formatters@, stats@, ranges@) == Ok::<Seq<char>, DescribeFault>(
                text@,
            ),
            Err(error) => tier_lines(formatters@, stats@, ranges@) matches Err(fault) && tells(
                error,
                fault,
            ),
        },
{
    let values = lower_ends(ranges.as_slice());
    let key = join_stats(stats);
    match formatters.get(key.as_str()) {
        Some(together) => {
            match format_line(together, values.as_slice(), ranges.as_slice()) {
                Some(line) => Ok(line),
                None => Err(DescribeError::NoMatchingFormatter(key)),
            }
        },
        None => {
            let count = if stats.len() <= ranges.len() {
                stats.len()
            } else {
                ranges.len()
            };
            let mut text = String::new();
            let mut k: usize = 0;
            while k < count
                invariant
                    k <= count,
                    count <= stats.len(),
                    count <= ranges.len(),
                    formatters.wf(),
                    values@ == lows(ranges@),
                    tier_lines(formatters@, stats@, ranges@) == stat_lines(
                        formatters@,
                        stats@,
                        ranges@,
                        count as nat,
                    ),
                    stat_lines(formatters@, stats@, ranges@, k as nat) == Ok::<
                        Seq<char>,
                        DescribeFault,
                    >(text@),
                decreases count - k,
            {
                let stat = &stats[k];
                match formatters.get(stat.as_str()) {
                    None => {
                        proof {
                            lemma_stat_fault(
                                formatters@,
                                stats@,
                                ranges@,
                                (k + 1) as nat,
                                count as nat,
                            );
                        }
                        return Err(DescribeError::NoFormatter(stat.clone()));
                    },
                    Some(own) => {
                        let range = slice_one(ranges.as_slice(), k);
                        match format_line(own, values.as_slice(), range) {
                            Some(line) => {
                                text.append(line.as_str());
                            },
                            None => {
                                proof {
                                    lemma_stat_fault(
                                        formatters@,
                                        stats@,
                                        ranges@,
                                        (k + 1) as nat,
                                        count as nat,
                                    );
                                }
                                return Err(DescribeError::NoMatchingFormatter(stat.clone()));
                            },
                        }
                    },
                }
                k += 1;
            }
            Ok(text)
        },
    }
}

/// The item as text: its base, its level, its rarity and a rule, each on a
/// line, and after them the lines of its modifiers. A modifier is written
/// by the formatter for all its stats together, where `formatters` has one
/// under the ids of the stats with `|` between them, and else stat by
/// stat; of the formatters for a stat the first is taken that applies to
/// the lower ends of the tier's ranges.
pub fn describe(
    item: &ItemState,
    cat: &Catalog,
    formatters: &Formatters,
) -> (out: Result<String, DescribeError>)
    requires
        cat.wf(),
        item.wf(cat),
        formatters.wf(),
    ensures
        match out {
            Ok(text) => exists|lines: Seq<char>|
                mod_lines(cat, formatters@, item.mods@, item.mods@.len()) == Ok::<
                    Seq<char>,
                    DescribeFault,
                >(lines) && text@ == head_text(item) + lines,
            Err(error) => mod_lines(cat, formatters@, item.mods@, item.mods@.len()) matches Err(
                fault,
            ) && tells(error, fault),
        },
{
    let mut text = item.base_type.clone();
    text.append("\n");
    text.append("ilvl: ");
    text.append(index_string(item.item_level as usize).as_str());
    text.append("\n");
    match item.rarity {
        Rarity::Normal => text.append("Normal"),
        Rarity::Magic => text.append("Magic"),
        Rarity::Rare => text.append("Rare"),
    }
    text.append("\n");
    text.append("=====================\n");
    let ghost head = text@;
    let ghost mut body: Seq<char> = Seq::empty();
    assert(head == head_text(item));
    assert(text@ =~= head + body);
    let mut i: usize = 0;
    while i < item.mods.len()
        invariant
            i <= item.mods.len(),
            cat.wf(),
            item.wf(cat),
            formatters.wf(),
            head == head_text(item),
            text@ == head + body,
            mod_lines(cat, formatters@, item.mods@, i as nat) == Ok::<Seq<char>, DescribeFault>(
                body,
            ),
        decreases item.mods.len() - i,
    {
        let tier = cat.get_tier(item.mods[i]);
        let modifier = cat.get_modifier(item.mods[i]);
        match describe_tier(formatters, &modifier.stats, &tier.value_ranges) {
            Ok(lines) => {
                text.append(lines.as_str());
                proof {
                    body = body + lines@;
                    assert(text@ =~= head + body);
                }
            },
            Err(error) => {
                proof {
                    lemma_mod_fault(
                        cat,
                        formatters@,
                        item.mods@,
                        (i + 1) as nat,
                        item.mods@.len(),
                    );
                }
                return Err(error);
            },
        }
        i += 1;
    }
    Ok(text)
}

/// The range at the place `k`, as a slice of its own.
fn slice_one(ranges: &[[i32; 2]], k: usize) -> (one: &[[i32; 2]])
    requires
        k < ranges@.len(),
    ensures
        one@ == ranges@.subrange(k as int, k + 1),
{
    let len: usize = ranges.len();
    let end: usize = k + 1;
    vstd::slice::slice_subrange(ranges, k, end)
}

} // verus!
