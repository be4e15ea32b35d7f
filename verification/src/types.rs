//! The catalog's data: modifiers, their tiers, and the omens that bend a
//! currency's effect.

use crate::hashvec::OpaqueIndex;
use crate::util::text::{
    bracket_groups, decimal, decimal_string, find_bracket_groups, index_string, replace_all,
    replace_first, replaced_all, replaced_first,
};
use vstd::prelude::*;
use vstd::string::StringExecFns;

verus! {

/// Where on an item a modifier sits.
#[derive(Debug, PartialEq, Eq, Hash, Clone, Copy, PartialOrd, Ord, Structural)]
pub enum Affix {
    Prefix,
    Suffix,
    Corrupted,
}

/// The kind of a modifier.
#[derive(Debug, Clone)]
pub enum ModType {
    Normal,
    Desecrated,
    Essence,
}

/// A family of modifiers: what all tiers of one rollable effect share.
#[derive(Debug, Clone)]
pub struct Modifier {
    pub group: String,
    /// What the modifier is about, each tag once.
    pub tags: Vec<String>,
    pub mod_type: ModType,
    /// The stats that a tier of this modifier gives.
    pub stats: Vec<String>,
    /// Modifiers of one family exclude each other on an item.
    pub family: String,
}

/// One strength of a modifier.
#[derive(Debug, Clone)]
pub struct Tier {
    pub id: String,
    pub name: String,
    /// The modifier that this is a tier of.
    pub mod_id: OpaqueIndex<Modifier>,
    pub affix: Affix,
    /// The lowest item level that this tier rolls on.
    pub ilvl: u32,
    /// One range for each stat of the modifier.
    pub value_ranges: Vec<[i32; 2]>,
    /// How often this tier is rolled, against the others; 0 is never.
    pub weight: u32,
    pub mod_domain: usize,
}

/// A single stat that a modifier gives.
#[derive(Debug)]
pub struct Stat {
    pub id: String,
}

/// A one-shot change to what a currency does.
#[derive(Debug, Clone, Copy, Hash, PartialEq, Eq, PartialOrd, Ord, Structural)]
pub enum Omen {
    /// Prefixes only.
    Sinistral,
    /// Suffixes only.
    Dextral,
    /// Only modifiers that share a tag with the item.
    Homogenous,
    /// Twice instead of once.
    Greater,
    /// Only the lowest modifier is removed.
    Whittling,
}

/// The omens used with one application of a currency.
#[derive(Debug, Clone, Copy, PartialEq, Eq, Structural)]
pub struct OmenSet {
    pub sinistral: bool,
    pub dextral: bool,
    pub homogenous: bool,
    pub greater: bool,
    pub whittling: bool,
}

impl View for OmenSet {
    type V = Set<Omen>;

    open spec fn view(&self) -> Set<Omen> {
        Set::new(|o: Omen| self.has(o))
    }
}

impl OmenSet {
    /// The omen is in the set.
    pub open spec fn has(&self, omen: Omen) -> bool {
        match omen {
            Omen::Sinistral => self.sinistral,
            Omen::Dextral => self.dextral,
            Omen::Homogenous => self.homogenous,
            Omen::Greater => self.greater,
            Omen::Whittling => self.whittling,
        }
    }

    /// No omen.
    pub fn new() -> (r: Self)
        ensures
            forall|o: Omen| !r.has(o),
    {
        OmenSet {
            sinistral: false,
            dextral: false,
            homogenous: false,
            greater: false,
            whittling: false,
        }
    }

    /// Whether the omen is in the set.
    pub fn contains(&self, omen: &Omen) -> (b: bool)
        ensures
            b == self.has(*omen),
    {
        match omen {
            Omen::Sinistral => self.sinistral,
            Omen::Dextral => self.dextral,
            Omen::Homogenous => self.homogenous,
            Omen::Greater => self.greater,
            Omen::Whittling => self.whittling,
        }
    }

    /// Adds `omen`; tells whether it was new.
    pub fn insert(&mut self, omen: Omen) -> (fresh: bool)
        ensures
            fresh == !old(self).has(omen),
            forall|o: Omen| final(self).has(o) == (o == omen || old(self).has(o)),
    {
        let fresh = !self.contains(&omen);
        match omen {
            Omen::Sinistral => {
                self.sinistral = true;
            },
            Omen::Dextral => {
                self.dextral = true;
            },
            Omen::Homogenous => {
                self.homogenous = true;
            },
            Omen::Greater => {
                self.greater = true;
            },
            Omen::Whittling => {
                self.whittling = true;
            },
        }
        fresh
    }

    /// The set of the omens listed.
    pub fn from_vec(omens: &Vec<Omen>) -> (r: Self)
        ensures
            forall|o: Omen| r.has(o) == omens@.contains(o),
    {
        let mut r = OmenSet::new();
        let mut i: usize = 0;
        while i < omens.len()
            invariant
                i <= omens.len(),
                forall|o: Omen| r.has(o) == omens@.take(i as int).contains(o),
            decreases omens.len() - i,
        {
            let ghost before = r;
            r.insert(omens[i]);
            proof {
                let s = omens@.take(i as int);
                let s1 = omens@.take(i + 1);
                assert(s1 =~= s.push(omens[i as int]));
                assert forall|o: Omen| r.has(o) == s1.contains(o) by {
                    if s1.contains(o) {
                        let k = choose|k: int| 0 <= k < s1.len() && s1[k] == o;
                        if k < i {
                            assert(s[k] == o);
                        }
                    }
                    if s.contains(o) {
                        let k = choose|k: int| 0 <= k < s.len() && s[k] == o;
                        assert(s1[k] == o);
                    }
                    if o == omens[i as int] {
                        assert(s1[i as int] == o);
                    }
                }
            }
            i += 1;
        }
        assert(omens@.take(omens.len() as int) =~= omens@);
        r
    }

    /// The omens of the set, each once, in the order of their declaration.
    pub fn to_vec(&self) -> (r: Vec<Omen>)
        ensures
            forall|o: Omen| r@.contains(o) == self.has(o),
            r@.no_duplicates(),
    {
        let mut r: Vec<Omen> = Vec::new();
        if self.sinistral {
            r.push(Omen::Sinistral);
        }
        if self.dextral {
            r.push(Omen::Dextral);
        }
        if self.homogenous {
            r.push(Omen::Homogenous);
        }
        if self.greater {
            r.push(Omen::Greater);
        }
        if self.whittling {
            r.push(Omen::Whittling);
        }
        proof {
            assert forall|o: Omen| r@.contains(o) == self.has(o) by {
                let n = r@.len();
                if self.has(o) {
                    assert((n > 0 && r@[0] == o) || (n > 1 && r@[1] == o) || (n > 2 && r@[2] == o)
                        || (n > 3 && r@[3] == o) || (n > 4 && r@[4] == o));
                }
            }
        }
        r
    }
}

/// What stands in a text for the value at the place `i`.
pub open spec fn placeholder(i: int) -> Seq<char> {
    "{"@ + decimal(i) + "}"@
}

/// A range of values as it is written out.
pub open spec fn range_text(range: [i32; 2]) -> Seq<char> {
    "("@ + decimal(range[0] as int) + "-"@ + decimal(range[1] as int) + ")"@
}

/// When a formatter applies to a value: from `min` up and up to `max`,
/// where these are given.
#[derive(Debug, Clone)]
pub struct Condition {
    pub min: Option<i32>,
    pub max: Option<i32>,
    pub negate: Option<bool>,
}

impl Condition {
    /// `value` is in the bounds that are given.
    pub open spec fn admits(&self, value: i32) -> bool {
        &&& self.min matches Some(min) ==> value >= min
        &&& self.max matches Some(max) ==> value <= max
    }

    /// Whether `value` is in the bounds that are given.
    pub fn matches(&self, value: i32) -> (admits: bool)
        ensures
            admits == self.admits(value),
    {
        let above = match self.min {
            Some(min) => value >= min,
            None => true,
        };
        let below = match self.max {
            Some(max) => value <= max,
            None => true,
        };
        above && below
    }
}

/// How the stats of a modifier are written out.
#[derive(Debug, Clone)]
pub struct StatFormatter {
    /// When the formatter applies: one condition for each value.
    pub conditions: Vec<Condition>,
    /// What stands in the text for each value.
    pub formats: Vec<String>,
    pub index_handlers: Vec<Vec<String>>,
    /// The text, with `{0}`, `{1}` and so on for the values, and `[a|b]`
    /// for words that are written in one of several ways.
    pub string: String,
}

impl StatFormatter {
    /// The formatter applies to the values: each condition admits the
    /// value at its place, as far as there are both.
    pub open spec fn applies(&self, values: Seq<i32>) -> bool {
        forall|k: int|
            0 <= k < self.conditions@.len() && k < values.len() ==> (#[trigger] self.conditions@[k]).admits(
                values[k],
            )
    }

    /// The text with the first `count` formats in the places of their
    /// placeholders.
    pub open spec fn with_formats(text: Seq<char>, formats: Seq<String>, count: nat) -> Seq<char>
        decreases count,
    {
        if count == 0 {
            text
        } else {
            replaced_first(
                Self::with_formats(text, formats, (count - 1) as nat),
                placeholder(count - 1),
                formats[count - 1]@,
            )
        }
    }

    /// The text with the first `count` groups replaced by their last
    /// alternatives, each where it stands first.
    pub open spec fn with_groups(
        text: Seq<char>,
        groups: Seq<(Seq<char>, Seq<char>)>,
        count: nat,
    ) -> Seq<char>
        decreases count,
    {
        if count == 0 {
            text
        } else {
            replaced_first(
                Self::with_groups(text, groups, (count - 1) as nat),
                groups[count - 1].0,
                groups[count - 1].1,
            )
        }
    }

    /// The text with the first `count` ranges in the places of the first
    /// `{}` each.
    pub open spec fn with_ranges(text: Seq<char>, ranges: Seq<[i32; 2]>, count: nat) -> Seq<char>
        decreases count,
    {
        if count == 0 {
            text
        } else {
            replaced_first(
                Self::with_ranges(text, ranges, (count - 1) as nat),
                "{}"@,
                range_text(ranges[count - 1]),
            )
        }
    }

    /// The text as the trade site shows it: the formats in the places of
    /// their placeholders, and of each group in square brackets its last
    /// alternative.
    pub open spec fn spec_trade_string(&self) -> Seq<char> {
        let filled = Self::with_formats(self.string@, self.formats@, self.formats@.len());
        Self::with_groups(filled, bracket_groups(filled), bracket_groups(filled).len())
    }

    /// The text as the trade site shows it, such as `+# to Strength`.
    pub fn trade_string(&self) -> (out: String)
        ensures
            out@ == self.spec_trade_string(),
    {
        let mut text = self.string.clone();
        let mut i: usize = 0;
        while i < self.formats.len()
            invariant
                i <= self.formats.len(),
                text@ == Self::with_formats(self.string@, self.formats@, i as nat),
            decreases self.formats.len() - i,
        {
            let mut hole = String::from_str("{");
            hole.append(index_string(i).as_str());
            hole.append("}");
            text = replace_first(text.as_str(), hole.as_str(), self.formats[i].as_str());
            i += 1;
        }
        let groups = find_bracket_groups(text.as_str());
        let ghost filled = text@;
        let mut k: usize = 0;
        while k < groups.len()
            invariant
                k <= groups.len(),
                groups@.len() == bracket_groups(filled).len(),
                forall|j: int|
                    0 <= j < groups@.len() ==> (#[trigger] groups@[j]).0@ == bracket_groups(
                        filled,
                    )[j].0 && groups@[j].1@ == bracket_groups(filled)[j].1,
                text@ == Self::with_groups(filled, bracket_groups(filled), k as nat),
            decreases groups.len() - k,
        {
            text = replace_first(text.as_str(), groups[k].0.as_str(), groups[k].1.as_str());
            k += 1;
        }
        text
    }

    /// The text with `{}` where the trade site shows `#`.
    pub fn rust_fmt_string(&self) -> (out: String)
        ensures
            out@ == replaced_all(self.spec_trade_string(), "#"@, "{}"@),
    {
        proof {
            reveal_strlit("#");
        }
        replace_all(self.trade_string().as_str(), "#", "{}")
    }

    /// The text with the ranges of the values in the places of the values.
    pub open spec fn ranged(&self, value_ranges: Seq<[i32; 2]>) -> Seq<char> {
        Self::with_ranges(
            replaced_all(self.spec_trade_string(), "#"@, "{}"@),
            value_ranges,
            value_ranges.len(),
        )
    }

    /// The text with the ranges of the values in the places of the values,
    /// such as `+(5-12) to Strength`.
    pub fn format_value_range(&self, value_ranges: &[[i32; 2]]) -> (out: String)
        ensures
            out@ == self.ranged(value_ranges@),
    {
        let mut text = self.rust_fmt_string();
        let ghost start = text@;
        let mut i: usize = 0;
        while i < value_ranges.len()
            invariant
                i <= value_ranges.len(),
                text@ == Self::with_ranges(start, value_ranges@, i as nat),
            decreases value_ranges.len() - i,
        {
            let mut range = String::from_str("(");
            range.append(decimal_string(value_ranges[i][0]).as_str());
            range.append("-");
            range.append(decimal_string(value_ranges[i][1]).as_str());
            range.append(")");
            text = replace_first(text.as_str(), "{}", range.as_str());
            i += 1;
        }
        text
    }

    /// Whether the formatter applies to the values.
    pub fn check(&self, values: &[i32]) -> (applies: bool)
        ensures
            applies == self.applies(values@),
    {
        let mut k: usize = 0;
        while k < self.conditions.len() && k < values.len()
            invariant
                forall|j: int|
                    0 <= j < k ==> (#[trigger] self.conditions@[j]).admits(values@[j]),
            decreases self.conditions.len() - k,
        {
            if !self.conditions[k].matches(values[k]) {
                return false;
            }
            k += 1;
        }
        true
    }
}

/// `found` is the place of the first formatter that applies to the values,
/// or nothing where none applies.
pub open spec fn first_applying(
    formatters: Seq<StatFormatter>,
    values: Seq<i32>,
    found: Option<usize>,
) -> bool {
    match found {
        Some(i) => {
            &&& i < formatters.len()
            &&& formatters[i as int].applies(values)
            &&& forall|j: int| 0 <= j < i ==> !(#[trigger] formatters[j]).applies(values)
        },
        None => forall|j: int| 0 <= j < formatters.len() ==> !(#[trigger] formatters[j]).applies(
            values,
        ),
    }
}

/// The place of the first formatter that applies to the values, if one
/// does.
pub fn find_matching_formatter(formatters: &[StatFormatter], values: &[i32]) -> (found: Option<
    usize,
>)
    ensures
        first_applying(formatters@, values@, found),
{
    let mut i: usize = 0;
    while i < formatters.len()
        invariant
            i <= formatters.len(),
            forall|j: int| 0 <= j < i ==> !(#[trigger] formatters@[j]).applies(values@),
        decreases formatters.len() - i,
    {
        if formatters[i].check(values) {
            return Some(i);
        }
        i += 1;
    }
    None
}

/// The first formatter that applies to the values, of which there is one.
pub fn get_matching_formatter<'a>(formatters: &'a [StatFormatter], values: &[i32]) -> (formatter:
    &'a StatFormatter)
    requires
        exists|i: int| 0 <= i < formatters@.len() && (#[trigger] formatters@[i]).applies(values@),
    ensures
        exists|i: usize|
            first_applying(formatters@, values@, Some(i)) && *formatter == formatters@[i as int],
{
    let found = find_matching_formatter(formatters, values);
    &formatters[found.unwrap()]
}

} // verus!
