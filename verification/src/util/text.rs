//! Replacing and scanning texts.

use vstd::prelude::*;
use vstd::string::{StrSliceExecFns, StringExecFns};

verus! {

/// `pattern` stands in `text` at the place `i`.
pub open spec fn occurs_at(text: Seq<char>, pattern: Seq<char>, i: int) -> bool {
    0 <= i && i + pattern.len() <= text.len() && text.subrange(i, i + pattern.len()) == pattern
}

/// `i` is the first place at which `pattern` stands in `text`.
pub open spec fn first_at(text: Seq<char>, pattern: Seq<char>, i: int) -> bool {
    occurs_at(text, pattern, i) && forall|j: int| 0 <= j < i ==> !occurs_at(text, pattern, j)
}

/// `text` with `with` in the place of `pattern` where that stands first, or
/// `text` itself where it stands nowhere.
pub open spec fn replaced_first(text: Seq<char>, pattern: Seq<char>, with: Seq<char>) -> Seq<char> {
    if exists|i: int| first_at(text, pattern, i) {
        let i = choose|i: int| first_at(text, pattern, i);
        text.subrange(0, i) + with + text.subrange(i + pattern.len(), text.len() as int)
    } else {
        text
    }
}

/// `text` with `with` in the place of `pattern` wherever that stands, from
/// the left and never in what was put in. The pattern is not empty.
pub open spec fn replaced_all(text: Seq<char>, pattern: Seq<char>, with: Seq<char>) -> Seq<char>
    decreases text.len(),
{
    if pattern.len() > 0 && exists|i: int| first_at(text, pattern, i) {
        let i = choose|i: int| first_at(text, pattern, i);
        text.subrange(0, i) + with + replaced_all(
            text.subrange(i + pattern.len(), text.len() as int),
            pattern,
            with,
        )
    } else {
        text
    }
}

/// The digit for a number below ten.
pub open spec fn digit(n: int) -> char {
    if n == 0 {
        '0'
    } else if n == 1 {
        '1'
    } else if n == 2 {
        '2'
    } else if n == 3 {
        '3'
    } else if n == 4 {
        '4'
    } else if n == 5 {
        '5'
    } else if n == 6 {
        '6'
    } else if n == 7 {
        '7'
    } else if n == 8 {
        '8'
    } else {
        '9'
    }
}

/// The digits of a number that is not negative.
pub open spec fn digits(n: int) -> Seq<char>
    decreases n,
{
    if n < 10 {
        seq![digit(n)]
    } else {
        digits(n / 10).push(digit(n % 10))
    }
}

/// A number as it is written: its digits, after a minus sign where it is
/// negative.
pub open spec fn decimal(n: int) -> Seq<char> {
    if n < 0 {
        seq!['-'] + digits(-n)
    } else {
        digits(n)
    }
}

/// `str::replacen` for one replacement, with strings as the pattern and the
/// replacement: where the pattern stands in the text, the text with the
/// replacement in the place of the first such stand, else the text.
#[verifier::external_body]
pub(crate) fn replace_first(text: &str, pattern: &str, with: &str) -> (out: String)
    ensures
        out@ == replaced_first(text@, pattern@, with@),
{
    text.replacen(pattern, with, 1)
}

/// `str::replace`, with strings as the pattern and the replacement, for a
/// pattern that is not empty: the text with the replacement in the place of
/// the pattern wherever it stands, the stands taken from the left and none
/// within another.
#[verifier::external_body]
pub(crate) fn replace_all(text: &str, pattern: &str, with: &str) -> (out: String)
    requires
        pattern@.len() > 0,
    ensures
        out@ == replaced_all(text@, pattern@, with@),
{
    text.replace(pattern, with)
}

/// `i32::to_string`: the number as it is written in decimal.
#[verifier::external_body]
pub(crate) fn decimal_string(value: i32) -> (out: String)
    ensures
        out@ == decimal(value as int),
{
    value.to_string()
}

/// `usize::to_string`: the number as it is written in decimal.
#[verifier::external_body]
pub(crate) fn index_string(value: usize) -> (out: String)
    ensures
        out@ == decimal(value as int),
{
    value.to_string()
}

/// The place of the first `c` in `text` from `from` on, or the length of
/// the text where there is none.
pub open spec fn next_of(text: Seq<char>, c: char, from: int) -> int
    decreases text.len() - from,
{
    if from >= text.len() {
        text.len() as int
    } else if text[from] == c {
        from
    } else {
        next_of(text, c, from + 1)
    }
}

/// The groups in square brackets of `text` from `from` on, each by the
/// places where it begins and where it ends: a group begins with `[`, ends
/// with the next `]`, and holds something between them; the groups are
/// taken from the left, and none begins within another.
pub open spec fn groups_from(text: Seq<char>, from: int) -> Seq<(int, int)>
    decreases text.len() - from,
{
    if from < 0 || from >= text.len() {
        Seq::empty()
    } else {
        let close = next_of(text, ']', from + 1);
        if text[from] == '[' && from + 1 < close < text.len() {
            seq![(from, close + 1)] + groups_from(text, close + 1)
        } else {
            groups_from(text, from + 1)
        }
    }
}

/// What stands after the last `|` of `text`, or `text` where it has none.
pub open spec fn last_alternative(text: Seq<char>) -> Seq<char>
    decreases text.len(),
{
    if text.len() == 0 {
        text
    } else if text.last() == '|' {
        Seq::empty()
    } else {
        last_alternative(text.drop_last()).push(text.last())
    }
}

/// The place of the first `c` in `text` from `from` on, or the length of
/// the text where there is none.
pub fn find_char(text: &str, c: char, from: usize) -> (at: usize)
    ensures
        at == next_of(text@, c, from as int),
        from <= text@.len() ==> from <= at <= text@.len(),
        at < text@.len() ==> text@[at as int] == c,
{
    let n = text.unicode_len();
    if from >= n {
        return n;
    }
    let mut at = from;
    while at < n
        invariant
            from <= at <= n,
            n == text@.len(),
            next_of(text@, c, from as int) == next_of(text@, c, at as int),
        decreases n - at,
    {
        if text.get_char(at) == c {
            return at;
        }
        at += 1;
    }
    n
}

/// The groups in square brackets of `text`, each with its last alternative:
/// the text of the group with its brackets, and what stands in it after
/// its last `|`.
pub open spec fn bracket_groups(text: Seq<char>) -> Seq<(Seq<char>, Seq<char>)> {
    groups_from(text, 0).map_values(
        |group: (int, int)|
            (
                text.subrange(group.0, group.1),
                last_alternative(text.subrange(group.0 + 1, group.1 - 1)),
            ),
    )
}

/// What stands in `text` after its last `|`.
pub fn after_last_bar(text: &str) -> (out: String)
    ensures
        out@ == last_alternative(text@),
{
    let n = text.unicode_len();
    let mut start: usize = 0;
    let mut i: usize = 0;
    assert(text@.take(0) =~= Seq::empty());
    while i < n
        invariant
            i <= n,
            n == text@.len(),
            start <= i,
            last_alternative(text@.take(i as int)) == text@.subrange(start as int, i as int),
        decreases n - i,
    {
        let c = text.get_char(i);
        proof {
            let t = text@.take(i + 1);
            assert(t.drop_last() =~= text@.take(i as int));
            assert(t.last() == c);
            if c == '|' {
                assert(text@.subrange(i + 1, i + 1) =~= Seq::empty());
            } else {
                assert(text@.subrange(start as int, i as int).push(c) =~= text@.subrange(
                    start as int,
                    i + 1,
                ));
            }
        }
        if c == '|' {
            start = i + 1;
        }
        i += 1;
    }
    assert(text@.take(n as int) =~= text@);
    String::from_str(text.substring_char(start, n))
}

/// The groups in square brackets of `text`, each with its last alternative.
pub fn find_bracket_groups(text: &str) -> (groups: Vec<(String, String)>)
    ensures
        groups@.len() == bracket_groups(text@).len(),
        forall|k: int|
            0 <= k < groups@.len() ==> (#[trigger] groups@[k]).0@ == bracket_groups(text@)[k].0
                && groups@[k].1@ == bracket_groups(text@)[k].1,
{
    let n = text.unicode_len();
    let mut groups: Vec<(String, String)> = Vec::new();
    let ghost mut places: Seq<(int, int)> = Seq::empty();
    let mut from: usize = 0;
    while from < n
        invariant
            from <= n,
            n == text@.len(),
            groups_from(text@, 0) == places + groups_from(text@, from as int),
            groups@.len() == places.len(),
            forall|k: int|
                0 <= k < places.len() ==> 0 <= (#[trigger] places[k]).0 && places[k].0 + 2
                    < places[k].1 <= n,
            forall|k: int|
                0 <= k < groups@.len() ==> (#[trigger] groups@[k]).0@ == text@.subrange(
                    places[k].0,
                    places[k].1,
                ) && groups@[k].1@ == last_alternative(
                    text@.subrange(places[k].0 + 1, places[k].1 - 1),
                ),
        decreases n - from,
    {
        let mut found = false;
        if text.get_char(from) == '[' {
            let close = find_char(text, ']', from + 1);
            if from + 1 < close && close < n {
                let whole = String::from_str(text.substring_char(from, close + 1));
                let inner = after_last_bar(text.substring_char(from + 1, close));
                groups.push((whole, inner));
                proof {
                    let rest = groups_from(text@, close + 1);
                    assert(groups_from(text@, from as int) == seq![(from as int, close + 1)] + rest);
                    assert(places + (seq![(from as int, close + 1)] + rest) =~= places.push(
                        (from as int, close + 1),
                    ) + rest);
                    places = places.push((from as int, close + 1));
                }
                from = close + 1;
                found = true;
            }
        }
        if !found {
            from += 1;
        }
    }
    proof {
        assert(groups_from(text@, from as int) =~= Seq::empty());
        assert(places + Seq::<(int, int)>::empty() =~= places);
    }
    groups
}

/// `text` begins with `start`.
pub open spec fn begins_with(text: Seq<char>, start: Seq<char>) -> bool {
    start.len() <= text.len() && text.subrange(0, start.len() as int) == start
}

/// `text` ends with `end`.
pub open spec fn ends_with_text(text: Seq<char>, end: Seq<char>) -> bool {
    end.len() <= text.len() && text.subrange(text.len() - end.len(), text.len() as int) == end
}

/// Whether `text` has the characters of `part` from the place `from` on.
fn matches_at(text: &str, part: &str, from: usize) -> (b: bool)
    requires
        from + part@.len() <= text@.len(),
    ensures
        b == (text@.subrange(from as int, from + part@.len()) == part@),
{
    let n = part.unicode_len();
    let m = text.unicode_len();
    let mut i: usize = 0;
    while i < n
        invariant
            i <= n,
            n == part@.len(),
            m == text@.len(),
            from + n <= m,
            forall|j: int| 0 <= j < i ==> text@[from + j] == part@[j],
        decreases n - i,
    {
        if text.get_char(from + i) != part.get_char(i) {
            assert(text@.subrange(from as int, from + n)[i as int] != part@[i as int]);
            return false;
        }
        i += 1;
    }
    assert(text@.subrange(from as int, from + n) =~= part@);
    true
}

/// Whether the text begins with the characters of `start`.
pub fn starts_with(text: &str, start: &str) -> (b: bool)
    ensures
        b == begins_with(text@, start@),
{
    if start.unicode_len() > text.unicode_len() {
        return false;
    }
    matches_at(text, start, 0)
}

/// Whether the text ends with the characters of `end`.
pub fn ends_with(text: &str, end: &str) -> (b: bool)
    ensures
        b == ends_with_text(text@, end@),
{
    let n = end.unicode_len();
    let m = text.unicode_len();
    if n > m {
        return false;
    }
    matches_at(text, end, m - n)
}

} // verus!
