//! Lists of numbers as they are written between bars, such as `|1|2|3|`.

use crate::util::text::{find_char, next_of};
use vstd::prelude::*;
use vstd::string::{StrSliceExecFns, StringExecFns};

verus! {

/// The number that a decimal digit stands for.
pub open spec fn digit_value(c: char) -> Option<nat> {
    match c {
        '0' => Some(0),
        '1' => Some(1),
        '2' => Some(2),
        '3' => Some(3),
        '4' => Some(4),
        '5' => Some(5),
        '6' => Some(6),
        '7' => Some(7),
        '8' => Some(8),
        '9' => Some(9),
        _ => None,
    }
}

/// The number that the digits stand for, read as a decimal number, or
/// nothing where one of them is no digit.
pub open spec fn digits_value(text: Seq<char>) -> Option<nat>
    decreases text.len(),
{
    if text.len() == 0 {
        Some(0)
    } else {
        match (digits_value(text.drop_last()), digit_value(text.last())) {
            (Some(most), Some(last)) => Some(most * 10 + last),
            _ => None,
        }
    }
}

/// The number that the digits stand for, of which there is one or more,
/// where it is a number of 32 bits.
pub open spec fn digits_number(body: Seq<char>) -> Option<u32> {
    if body.len() == 0 {
        None
    } else {
        match digits_value(body) {
            Some(value) => if value <= u32::MAX {
                Some(value as u32)
            } else {
                None
            },
            None => None,
        }
    }
}

/// The number that is written as `text`: one digit or more, after a `+`
/// or without one, that stand for a number of 32 bits.
pub open spec fn number(text: Seq<char>) -> Option<u32> {
    if text.len() > 0 && text[0] == '+' {
        digits_number(text.skip(1))
    } else {
        digits_number(text)
    }
}

/// The numbers that are written in `text` from `from` on, between bars,
/// or the first piece between two bars that is no number. Nothing
/// between two bars counts for nothing.
pub open spec fn pipe_list(text: Seq<char>, from: int) -> Result<Seq<u32>, Seq<char>>
    decreases text.len() + 1 - from,
{
    if from < 0 || from >= text.len() {
        Ok(Seq::empty())
    } else {
        let end = next_of(text, '|', from);
        if end < from || end > text.len() {
            Ok(Seq::empty())
        } else {
            let piece = text.subrange(from, end);
            let rest = pipe_list(text, end + 1);
            if piece.len() == 0 {
                rest
            } else if number(piece) is None {
                Err(piece)
            } else {
                after_front(seq![number(piece).unwrap()], rest)
            }
        }
    }
}

/// The list with `front` before it.
pub open spec fn after_front(front: Seq<u32>, list: Result<Seq<u32>, Seq<char>>) -> Result<
    Seq<u32>,
    Seq<char>,
> {
    match list {
        Ok(rest) => Ok(front + rest),
        Err(piece) => Err(piece),
    }
}

/// The first digits of a number stand for no more than all of them.
proof fn lemma_first_digits(text: Seq<char>, count: int)
    requires
        0 <= count <= text.len(),
    ensures
        match digits_value(text) {
            Some(all) => digits_value(text.take(count)) matches Some(first) && first <= all,
            None => true,
        },
    decreases text.len(),
{
    if count == text.len() {
        assert(text.take(count) =~= text);
    } else {
        lemma_first_digits(text.drop_last(), count);
        assert(text.drop_last().take(count) =~= text.take(count));
    }
}

/// The number that a decimal digit stands for.
pub fn digit_of(c: char) -> (value: Option<u8>)
    ensures
        match value {
            Some(d) => digit_value(c) == Some(d as nat),
            None => digit_value(c) is None,
        },
{
    match c {
        '0' => Some(0),
        '1' => Some(1),
        '2' => Some(2),
        '3' => Some(3),
        '4' => Some(4),
        '5' => Some(5),
        '6' => Some(6),
        '7' => Some(7),
        '8' => Some(8),
        '9' => Some(9),
        _ => None,
    }
}

/// The number that is written as `text`.
pub fn parse_number(text: &str) -> (value: Option<u32>)
    ensures
        value == number(text@),
{
    let n = text.unicode_len();
    let start: usize = if n > 0 && text.get_char(0) == '+' {
        1
    } else {
        0
    };
    if start == n {
        return None;
    }
    let ghost body = text@.skip(start as int);
    let mut value: u64 = 0;
    let mut i: usize = start;
    assert(body.take(0) =~= Seq::empty());
    assert(text@.skip(0) =~= text@);
    while i < n
        invariant
            start <= i <= n,
            start < n,
            n == text@.len(),
            body == text@.skip(start as int),
            number(text@) == digits_number(body),
            digits_value(body.take(i - start)) == Some(value as nat),
            value <= u32::MAX,
        decreases n - i,
    {
        proof {
            assert(body.take(i - start + 1).drop_last() =~= body.take(i - start));
            assert(body.take(i - start + 1).last() == text@[i as int]);
            lemma_first_digits(body, i - start + 1);
        }
        match digit_of(text.get_char(i)) {
            None => {
                return None;
            },
            Some(d) => {
                value = value * 10 + d as u64;
                if value > 0xffff_ffff {
                    return None;
                }
            },
        }
        i += 1;
    }
    assert(body.take(n - start) =~= body);
    Some(value as u32)
}

/// The numbers that are written in `text` between bars, as in `|1|2|3|`,
/// or the first piece between two bars that is no number.
pub fn parse_pipe_list(text: &str) -> (list: Result<Vec<u32>, String>)
    ensures
        match list {
            Ok(numbers) => pipe_list(text@, 0) == Ok::<Seq<u32>, Seq<char>>(numbers@),
            Err(piece) => pipe_list(text@, 0) == Err::<Seq<u32>, Seq<char>>(piece@),
        },
{
    let n = text.unicode_len();
    let mut numbers: Vec<u32> = Vec::new();
    let mut from: usize = 0;
    assert(Seq::<u32>::empty() + Seq::<u32>::empty() =~= Seq::<u32>::empty());
    while from < n
        invariant
            n == text@.len(),
            pipe_list(text@, 0) == after_front(numbers@, pipe_list(text@, from as int)),
        decreases n - from,
    {
        let end = find_char(text, '|', from);
        if end > from {
            let piece = text.substring_char(from, end);
            match parse_number(piece) {
                None => {
                    return Err(String::from_str(piece));
                },
                Some(number) => {
                    proof {
                        let rest = pipe_list(text@, end + 1);
                        match rest {
                            Ok(more) => {
                                assert(numbers@ + (seq![number] + more) =~= numbers@.push(number)
                                    + more);
                            },
                            Err(_) => {},
                        }
                    }
                    numbers.push(number);
                },
            }
        }
        if end >= n {
            proof {
                assert(numbers@ + Seq::<u32>::empty() =~= numbers@);
            }
            return Ok(numbers);
        }
        from = end + 1;
    }
    proof {
        assert(numbers@ + Seq::<u32>::empty() =~= numbers@);
    }
    Ok(numbers)
}

} // verus!
