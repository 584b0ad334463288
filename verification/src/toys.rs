//! A workshop's request: of a list of toys with the number of copies to
//! make of each, the toy to make the most copies of.
//!
//! A list is a line such as `10x toy car,15x dog on a string`: items between
//! commas, each a number, an `x`, and what the toy is.

use vstd::prelude::*;
use crate::lrcp::message::{digits_value, is_digit};

verus! {

/// The byte `,`, which stands between two items.
pub const COMMA: u8 = 44;

/// The byte `x`, which ends the number of an item.
pub const TIMES: u8 = 120;

/// The byte `+`, which may stand before a number.
pub const PLUS: u8 = 43;

/// An item of the list is no number of copies of a toy.
#[derive(Debug, Clone, Copy, PartialEq, Eq, Structural)]
pub struct WrongItem;

impl WrongItem {
    /// The text that describes the error.
    pub fn message(&self) -> (text: &'static str)
        ensures
            text@ == "Received some wrong item"@,
    {
        "Received some wrong item"
    }
}

/// The index of the first byte `mark` from `start` on, or the length of the
/// line where there is none.
pub open spec fn next_mark(s: Seq<u8>, start: int, mark: u8) -> int
    decreases s.len() - start,
{
    if start >= s.len() || s[start] == mark {
        start
    } else {
        next_mark(s, start + 1, mark)
    }
}

/// Whether every byte is a digit.
pub open spec fn all_digits(digits: Seq<u8>) -> bool {
    forall|i: int| 0 <= i < digits.len() ==> is_digit(#[trigger] digits[i])
}

/// A number without its sign: what is left of a text without the `+` that
/// it may begin with.
pub open spec fn unsigned(text: Seq<u8>) -> Seq<u8> {
    if text.len() > 0 && text[0] == PLUS {
        text.skip(1)
    } else {
        text
    }
}

/// The number that a text denotes: digits, with a `+` before them or not,
/// whose value fits in 32 bits.
pub open spec fn number_of(text: Seq<u8>) -> Option<u32> {
    let digits = unsigned(text);
    if digits.len() > 0 && all_digits(digits) && digits_value(digits) <= u32::MAX {
        Some(digits_value(digits) as u32)
    } else {
        None
    }
}

/// The number of copies that an item asks for: the number before its first
/// `x`. An item without an `x`, or without a number before it, asks for
/// none.
pub open spec fn copies_of(item: Seq<u8>) -> Option<u32> {
    let x = next_mark(item, 0, TIMES);
    if 0 <= x < item.len() {
        number_of(item.take(x))
    } else {
        None
    }
}

/// An item of the list: the number of copies, and where the item begins and
/// ends in the line.
pub struct Choice {
    pub copies: u32,
    pub start: int,
    pub end: int,
}

/// The item to make the most copies of, among the items from `start` on and
/// the best item before them: of several items with the most copies, the
/// last. There is none where an item is wrong.
pub open spec fn scan(s: Seq<u8>, start: int, best: Option<Choice>) -> Option<Choice>
    decreases s.len() - start,
{
    let end = next_mark(s, start, COMMA);
    if 0 <= start <= end <= s.len() {
        match copies_of(s.subrange(start, end)) {
            Some(copies) => {
                let better = match best {
                    Some(earlier) => if copies >= earlier.copies {
                        Choice { copies, start, end }
                    } else {
                        earlier
                    },
                    None => Choice { copies, start, end },
                };
                if end >= s.len() {
                    Some(better)
                } else {
                    scan(s, end + 1, Some(better))
                }
            },
            None => None,
        }
    } else {
        None
    }
}

/// The item of a line to make the most copies of.
pub open spec fn busiest_spec(line: Seq<u8>) -> Option<Choice> {
    scan(line, 0, None)
}

/// What `next_mark` gives is the first index of the mark from `start` on.
pub proof fn lemma_next_mark(s: Seq<u8>, start: int, mark: u8)
    requires
        0 <= start <= s.len(),
    ensures
        start <= next_mark(s, start, mark) <= s.len(),
        forall|i: int| start <= i < next_mark(s, start, mark) ==> s[i] != mark,
        next_mark(s, start, mark) < s.len() ==> s[next_mark(s, start, mark)] == mark,
    decreases s.len() - start,
{
    if start < s.len() && s[start] != mark {
        lemma_next_mark(s, start + 1, mark);
    }
}

/// The first index of the mark from `start` on is what `next_mark` gives.
pub proof fn lemma_next_mark_is(s: Seq<u8>, start: int, mark: u8, at: int)
    requires
        0 <= start <= at <= s.len(),
        forall|i: int| start <= i < at ==> s[i] != mark,
        at < s.len() ==> s[at] == mark,
    ensures
        next_mark(s, start, mark) == at,
{
    lemma_next_mark(s, start, mark);
    let found = next_mark(s, start, mark);
    if found < at {
        assert(s[found] != mark);
    } else if found > at {
        assert(s[at] != mark);
    }
}

fn find_mark(line: &[u8], start: usize, end: usize, mark: u8) -> (at: usize)
    requires
        start <= end <= line@.len(),
    ensures
        start <= at <= end,
        forall|i: int| start <= i < at ==> line@[i] != mark,
        at < end ==> line@[at as int] == mark,
{
    let mut at: usize = start;
    while at < end && line[at] != mark
        invariant
            start <= at <= end <= line@.len(),
            forall|i: int| start <= i < at ==> line@[i] != mark,
        decreases end - at,
    {
        at += 1;
    }
    at
}

/// The number that the bytes `start..end` of the line denote.
fn parse_number(line: &[u8], start: usize, end: usize) -> (number: Option<u32>)
    requires
        start <= end <= line@.len(),
    ensures
        number == number_of(line@.subrange(start as int, end as int)),
{
    let ghost text = line@.subrange(start as int, end as int);
    let from: usize = if start < end && line[start] == PLUS {
        start + 1
    } else {
        start
    };
    let ghost digits = line@.subrange(from as int, end as int);
    proof {
        if start < end {
            assert(text[0] == line@[start as int]);
        }
        if from > start {
            assert(text.skip(1) =~= digits);
        } else {
            assert(text =~= digits);
        }
    }
    if from == end {
        return None;
    }
    let mut value: u64 = 0;
    let mut i: usize = from;
    proof {
        assert(digits.take(0) =~= Seq::<u8>::empty());
    }
    while i < end
        invariant
            from <= i <= end <= line@.len(),
            from < end,
            text == line@.subrange(start as int, end as int),
            digits == line@.subrange(from as int, end as int),
            digits == unsigned(text),
            forall|j: int| 0 <= j < i - from ==> is_digit(#[trigger] digits[j]),
            value == digits_value(digits.take(i - from)),
            value <= u32::MAX,
        decreases end - i,
    {
        let b = line[i];
        let ghost k = i - from;
        proof {
            assert(digits[k] == b);
            assert(digits.take(k + 1).drop_last() =~= digits.take(k));
            assert(digits.take(k + 1).last() == b);
        }
        if !(48 <= b && b <= 57) {
            assert(!is_digit(digits[k]));
            return None;
        }
        let longer: u64 = value * 10 + ((b - 48) as u64);
        if longer > 0xffff_ffff {
            proof {
                lemma_value_grows(digits, k + 1);
            }
            return None;
        }
        value = longer;
        i += 1;
    }
    proof {
        assert(digits.take(i - from) =~= digits);
        assert(all_digits(digits));
    }
    Some(value as u32)
}

/// A number whose first digits denote more than 32 bits hold is itself
/// more than 32 bits hold, whatever follows the digits.
proof fn lemma_value_grows(digits: Seq<u8>, k: int)
    requires
        0 <= k <= digits.len(),
    ensures
        all_digits(digits) ==> digits_value(digits.take(k)) <= digits_value(digits),
    decreases digits.len() - k,
{
    if all_digits(digits) {
        if k < digits.len() {
            lemma_value_grows(digits, k + 1);
            assert(digits.take(k + 1).drop_last() =~= digits.take(k));
            assert(is_digit(digits[k]));
            assert(digits.take(k + 1).last() == digits[k]);
        } else {
            assert(digits.take(k) =~= digits);
        }
    }
}

fn parse_copies(line: &[u8], start: usize, end: usize) -> (copies: Option<u32>)
    requires
        start <= end <= line@.len(),
    ensures
        copies == copies_of(line@.subrange(start as int, end as int)),
{
    let ghost item = line@.subrange(start as int, end as int);
    let x = find_mark(line, start, end, TIMES);
    proof {
        assert forall|i: int| 0 <= i < x - start implies item[i] != TIMES by {
            assert(item[i] == line@[start + i]);
        }
        if x < end {
            assert(item[x - start] == line@[x as int]);
        }
        lemma_next_mark_is(item, 0, TIMES, x - start);
        assert(item.take(x - start) =~= line@.subrange(start as int, x as int));
    }
    if x >= end {
        return None;
    }
    parse_number(line, start, x)
}

/// Finds the item to make the most copies of: where it begins and ends in
/// the line. Of several items with the most copies it is the last. A line
/// with an item that is no number, an `x` and a text is refused.
pub fn busiest(line: &[u8]) -> (chosen: Result<(usize, usize), WrongItem>)
    ensures
        match chosen {
            Ok((start, end)) => busiest_spec(line@) matches Some(choice) && choice.start == start
                && choice.end == end && start <= end <= line@.len(),
            Err(_) => busiest_spec(line@) is None,
        },
{
    let mut start: usize = 0;
    let mut best: Option<(u32, usize, usize)> = None;
    loop
        invariant
            start <= line@.len(),
            match best {
                Some((_, from, to)) => from <= to <= line@.len(),
                None => true,
            },
            busiest_spec(line@) == scan(
                line@,
                start as int,
                match best {
                    Some((copies, from, to)) => Some(
                        Choice { copies, start: from as int, end: to as int },
                    ),
                    None => None,
                },
            ),
        decreases line@.len() - start,
    {
        let end = find_mark(line, start, line.len(), COMMA);
        proof {
            lemma_next_mark_is(line@, start as int, COMMA, end as int);
        }
        let copies = match parse_copies(line, start, end) {
            Some(copies) => copies,
            None => {
                return Err(WrongItem);
            },
        };
        let better = match best {
            Some((most, from, to)) => if copies >= most {
                (copies, start, end)
            } else {
                (most, from, to)
            },
            None => (copies, start, end),
        };
        if end >= line.len() {
            return Ok((better.1, better.2));
        }
        best = Some(better);
        start = end + 1;
    }
}

} // verus!
