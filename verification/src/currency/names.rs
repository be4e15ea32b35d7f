//! The names of currencies: how the essences rank by their names, and
//! under which common name the grades of a currency stand.

use crate::currency::{Currency, CurrencyType};
use crate::util::text::{begins_with, find_char, next_of, starts_with};
use vstd::prelude::*;
use vstd::string::{StrSliceExecFns, StringExecFns};

verus! {

/// The first word of a name: what stands before its first blank.
pub open spec fn first_word(name: Seq<char>) -> Seq<char> {
    name.take(next_of(name, ' ', 0))
}

/// The rank of an essence among those of its kind, by the first word of
/// its name: lesser ones first, then the plain, the greater and the
/// perfect, and after them whatever else there is.
pub open spec fn spec_essence_rank(name: Seq<char>) -> u8 {
    let word = first_word(name);
    if word == "Lesser"@ {
        0
    } else if word == "Essence"@ {
        1
    } else if word == "Greater"@ {
        2
    } else if word == "Perfect"@ {
        3
    } else {
        4
    }
}

/// The rank of an essence among those of its kind, by the first word of
/// its name.
pub fn essence_rank(name: &str) -> (rank: u8)
    ensures
        rank == spec_essence_rank(name@),
{
    let end = find_char(name, ' ', 0);
    let word = String::from_str(name.substring_char(0, end));
    if word == String::from_str("Lesser") {
        0
    } else if word == String::from_str("Essence") {
        1
    } else if word == String::from_str("Greater") {
        2
    } else if word == String::from_str("Perfect") {
        3
    } else {
        4
    }
}

/// The name without the first of the words of `grades` from `from` on
/// that it begins with, or the name as it is where it begins with none.
pub open spec fn stripped(name: Seq<char>, grades: Seq<Seq<char>>, from: int) -> Seq<char>
    decreases grades.len() - from,
{
    if from < 0 || from >= grades.len() {
        name
    } else if begins_with(name, grades[from]) {
        name.skip(grades[from].len() as int)
    } else {
        stripped(name, grades, from + 1)
    }
}

/// The words that tell the grade of a currency, each with the blank
/// after it: those of essences, or those of the other currencies.
pub open spec fn grade_words(essence: bool) -> Seq<Seq<char>> {
    if essence {
        seq!["Lesser "@, "Greater "@, "Perfect "@]
    } else {
        seq!["Greater "@, "Perfect "@]
    }
}

/// The name that the grades of a currency share: its name without the
/// word for its grade.
pub open spec fn spec_base_name(currency: &CurrencyType) -> Seq<char> {
    stripped(
        currency.spec_name(),
        grade_words(currency is Essence || currency is PerfectEssence),
        0,
    )
}

/// The name without `start`, where it begins with it.
fn strip_start(name: &str, start: &str) -> (rest: Option<String>)
    ensures
        match rest {
            Some(text) => begins_with(name@, start@) && text@ == name@.skip(start@.len() as int),
            None => !begins_with(name@, start@),
        },
{
    if starts_with(name, start) {
        let from = start.unicode_len();
        let to = name.unicode_len();
        let rest = String::from_str(name.substring_char(from, to));
        assert(name@.subrange(from as int, to as int) =~= name@.skip(from as int));
        Some(rest)
    } else {
        None
    }
}

/// The name that the grades of a currency share: its name without the
/// word for its grade.
pub fn base_name(currency: &CurrencyType) -> (base: String)
    ensures
        base@ == spec_base_name(currency),
{
    let name = currency.name();
    let essence = match currency {
        CurrencyType::Essence(_) => true,
        CurrencyType::PerfectEssence(_) => true,
        _ => false,
    };
    let ghost grades = grade_words(essence);
    if essence {
        if let Some(rest) = strip_start(name, "Lesser ") {
            return rest;
        }
        assert(stripped(name@, grades, 0) == stripped(name@, grades, 1));
    }
    let ghost at: int = if essence {
        1
    } else {
        0
    };
    assert(grades[at] == "Greater "@ && grades[at + 1] == "Perfect "@ && grades.len() == at + 2);
    if let Some(rest) = strip_start(name, "Greater ") {
        return rest;
    }
    assert(stripped(name@, grades, at) == stripped(name@, grades, at + 1));
    if let Some(rest) = strip_start(name, "Perfect ") {
        return rest;
    }
    assert(stripped(name@, grades, at + 1) == stripped(name@, grades, at + 2));
    String::from_str(name)
}

} // verus!
