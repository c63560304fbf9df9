//! The text form of an instance: a header line with the item count and the
//! capacity, then one line per item with its value and its weight. The
//! numbers of a line are separated by one space; what follows the second
//! number is not read.

use crate::knapsack::{KnapsackItem, KnapsackProblem};
use vstd::prelude::*;
use vstd::slice::slice_subrange;

verus! {

/// Why a text is not an instance.
#[derive(Clone, Copy, Debug, PartialEq, Eq, Structural)]
pub enum ParseError {
    /// The text has no line at all.
    Empty,
    /// The first number of the header is not a number.
    BadItemCount,
    /// The header has no second number.
    MissingCapacity,
    /// The second number of the header is not a number.
    BadCapacity,
    /// The first number of an item line is not a number.
    BadValue,
    /// An item line has no second number.
    MissingWeight,
    /// The second number of an item line is not a number.
    BadWeight,
    /// The header announces another number of items than there are lines.
    CountMismatch,
}

/// Why a line does not hold two numbers.
#[derive(Clone, Copy, Debug, PartialEq, Eq, Structural)]
pub enum PairError {
    BadFirst,
    MissingSecond,
    BadSecond,
}

pub const NEWLINE: u8 = 10;

pub const CARRIAGE_RETURN: u8 = 13;

pub const SPACE: u8 = 32;

pub const PLUS: u8 = 43;

pub const ZERO: u8 = 48;

pub const NINE: u8 = 57;

/// The first position from `from` on that holds `sep`; the length of `s` if
/// there is none.
pub open spec fn piece_end(s: Seq<u8>, from: int, sep: u8) -> int
    decreases s.len() - from,
{
    if from < 0 || from >= s.len() {
        s.len() as int
    } else if s[from] == sep {
        from
    } else {
        piece_end(s, from + 1, sep)
    }
}

/// What stands before the first `sep`; all of `s` if there is none.
pub open spec fn first_piece(s: Seq<u8>, sep: u8) -> Seq<u8> {
    s.subrange(0, piece_end(s, 0, sep))
}

/// What stands behind the first `sep`, if there is one.
pub open spec fn rest_after(s: Seq<u8>, sep: u8) -> Option<Seq<u8>> {
    let end = piece_end(s, 0, sep);
    if 0 <= end < s.len() {
        Some(s.subrange(end + 1, s.len() as int))
    } else {
        None
    }
}

/// The first line of `text`, without its line end: a newline, or a carriage
/// return and a newline.
pub open spec fn first_line(text: Seq<u8>) -> Seq<u8> {
    let raw = first_piece(text, NEWLINE);
    if rest_after(text, NEWLINE) is Some && raw.len() > 0 && raw.last() == CARRIAGE_RETURN {
        raw.drop_last()
    } else {
        raw
    }
}

/// What follows the first line of `text`.
pub open spec fn later_lines(text: Seq<u8>) -> Seq<u8> {
    match rest_after(text, NEWLINE) {
        Some(rest) => rest,
        None => Seq::empty(),
    }
}

pub open spec fn is_digit(b: u8) -> bool {
    ZERO <= b <= NINE
}

pub open spec fn all_digits(s: Seq<u8>) -> bool {
    forall|i: int| 0 <= i < s.len() ==> is_digit(#[trigger] s[i])
}

/// The number that the decimal digits `s` write.
pub open spec fn digits_value(s: Seq<u8>) -> int
    decreases s.len(),
{
    if s.len() == 0 {
        0
    } else {
        10 * digits_value(s.drop_last()) + (s.last() - ZERO)
    }
}

/// The digits of a field: the field without a leading plus sign.
pub open spec fn digits_of(field: Seq<u8>) -> Seq<u8> {
    if field.len() > 0 && field[0] == PLUS {
        field.subrange(1, field.len() as int)
    } else {
        field
    }
}

/// The number that `field` writes: at least one decimal digit, after a plus
/// sign or without one, and a value that fits into a machine word.
pub open spec fn number(field: Seq<u8>) -> Option<usize> {
    let digits = digits_of(field);
    if digits.len() > 0 && all_digits(digits) && digits_value(digits) <= usize::MAX {
        Some(digits_value(digits) as usize)
    } else {
        None
    }
}

/// The two numbers at the start of `line`.
pub open spec fn pair(line: Seq<u8>) -> Result<(usize, usize), PairError> {
    match number(first_piece(line, SPACE)) {
        None => Err(PairError::BadFirst),
        Some(a) => match rest_after(line, SPACE) {
            None => Err(PairError::MissingSecond),
            Some(rest) => match number(first_piece(rest, SPACE)) {
                None => Err(PairError::BadSecond),
                Some(b) => Ok((a, b)),
            },
        },
    }
}

pub open spec fn header_error(e: PairError) -> ParseError {
    match e {
        PairError::BadFirst => ParseError::BadItemCount,
        PairError::MissingSecond => ParseError::MissingCapacity,
        PairError::BadSecond => ParseError::BadCapacity,
    }
}

pub open spec fn item_error(e: PairError) -> ParseError {
    match e {
        PairError::BadFirst => ParseError::BadValue,
        PairError::MissingSecond => ParseError::MissingWeight,
        PairError::BadSecond => ParseError::BadWeight,
    }
}

/// `items` in front of what `rest` holds, or the error of `rest`.
pub open spec fn after(
    items: Seq<KnapsackItem>,
    rest: Result<Seq<KnapsackItem>, ParseError>,
) -> Result<Seq<KnapsackItem>, ParseError> {
    match rest {
        Ok(more) => Ok(items + more),
        Err(e) => Err(e),
    }
}

/// The items that the lines of `text` write, or what is wrong with the first
/// line that writes none.
pub open spec fn item_lines(text: Seq<u8>) -> Result<Seq<KnapsackItem>, ParseError>
    decreases text.len(),
{
    if text.len() == 0 {
        Ok(Seq::empty())
    } else {
        match pair(first_line(text)) {
            Err(e) => Err(item_error(e)),
            Ok((value, weight)) => after(
                seq![KnapsackItem { value, weight }],
                item_lines(later_lines(text)),
            ),
        }
    }
}

/// The instance that `text` writes: item count, capacity and items; or what
/// is wrong with it.
pub open spec fn parsed(text: Seq<u8>) -> Result<(usize, usize, Seq<KnapsackItem>), ParseError> {
    if text.len() == 0 {
        Err(ParseError::Empty)
    } else {
        match pair(first_line(text)) {
            Err(e) => Err(header_error(e)),
            Ok((n_items, capacity)) => match item_lines(later_lines(text)) {
                Err(e) => Err(e),
                Ok(items) => if items.len() == n_items {
                    Ok((n_items, capacity, items))
                } else {
                    Err(ParseError::CountMismatch)
                },
            },
        }
    }
}

/// More digits never write a smaller number.
pub proof fn lemma_digits_grow(s: Seq<u8>, i: int)
    requires
        all_digits(s),
        0 <= i <= s.len(),
    ensures
        0 <= digits_value(s.take(i)) <= digits_value(s),
    decreases s.len() - i,
{
    if i == s.len() {
        assert(s.take(i) == s);
        lemma_digits_grow_from_zero(s);
    } else {
        lemma_digits_grow(s, i + 1);
        assert(s.take(i + 1).drop_last() == s.take(i));
        assert(is_digit(s[i]));
        lemma_digits_grow_from_zero(s.take(i));
    }
}

proof fn lemma_digits_grow_from_zero(s: Seq<u8>)
    requires
        all_digits(s),
    ensures
        0 <= digits_value(s),
    decreases s.len(),
{
    if s.len() > 0 {
        assert(is_digit(s.last()));
        lemma_digits_grow_from_zero(s.drop_last());
    }
}

/// The flag that names the input file on the command line: `-file=`.
pub open spec fn file_flag() -> Seq<u8> {
    seq![45u8, 102u8, 105u8, 108u8, 101u8, 61u8]
}

/// The file that a command-line argument names: what follows the flag
/// `-file=`, if the argument starts with it.
pub fn file_argument(arg: &[u8]) -> (path: Option<&[u8]>)
    ensures
        match path {
            Some(p) => file_flag().is_prefix_of(arg@) && p@ == arg@.subrange(6, arg@.len() as int),
            None => !file_flag().is_prefix_of(arg@),
        },
{
    if arg.len() >= 6 && arg[0] == 45 && arg[1] == 102 && arg[2] == 105 && arg[3] == 108 && arg[4]
        == 101 && arg[5] == 61 {
        assert(file_flag() =~= arg@.subrange(0, 6));
        Some(slice_subrange(arg, 6, arg.len()))
    } else {
        if arg.len() >= 6 {
            let ghost head = arg@.subrange(0, 6);
            assert(head[0] == arg@[0] && head[1] == arg@[1] && head[2] == arg@[2] && head[3]
                == arg@[3] && head[4] == arg@[4] && head[5] == arg@[5]);
            assert(file_flag()[0] == 45 && file_flag()[1] == 102 && file_flag()[2] == 105
                && file_flag()[3] == 108 && file_flag()[4] == 101 && file_flag()[5] == 61);
        }
        None
    }
}

/// Finds the first `sep` in `s`.
pub fn find(s: &[u8], sep: u8) -> (end: usize)
    ensures
        end == piece_end(s@, 0, sep),
        end <= s.len(),
{
    let mut i: usize = 0;
    while i < s.len() && s[i] != sep
        invariant
            i <= s.len(),
            piece_end(s@, 0, sep) == piece_end(s@, i as int, sep),
        decreases s.len() - i,
    {
        i += 1;
    }
    i
}

/// Splits `s` at its first `sep`.
pub fn split_first(s: &[u8], sep: u8) -> (parts: (&[u8], Option<&[u8]>))
    ensures
        parts.0@ == first_piece(s@, sep),
        match parts.1 {
            Some(rest) => rest_after(s@, sep) == Some(rest@),
            None => rest_after(s@, sep) is None,
        },
{
    let end = find(s, sep);
    let head = slice_subrange(s, 0, end);
    if end < s.len() {
        (head, Some(slice_subrange(s, end + 1, s.len())))
    } else {
        (head, None)
    }
}

/// Splits `text` into its first line and what follows it.
pub fn split_line(text: &[u8]) -> (parts: (&[u8], &[u8]))
    ensures
        parts.0@ == first_line(text@),
        parts.1@ == later_lines(text@),
{
    let (raw, rest) = split_first(text, NEWLINE);
    match rest {
        Some(rest) => {
            if raw.len() > 0 && raw[raw.len() - 1] == CARRIAGE_RETURN {
                (slice_subrange(raw, 0, raw.len() - 1), rest)
            } else {
                (raw, rest)
            }
        },
        None => (raw, slice_subrange(text, 0, 0)),
    }
}

/// Reads the number that `field` writes.
pub fn parse_number(field: &[u8]) -> (n: Option<usize>)
    ensures
        n == number(field@),
{
    let digits = if field.len() > 0 && field[0] == PLUS {
        slice_subrange(field, 1, field.len())
    } else {
        field
    };
    if digits.len() == 0 {
        return None;
    }
    let mut value: usize = 0;
    let mut i: usize = 0;
    while i < digits.len()
        invariant
            i <= digits.len(),
            digits@ == digits_of(field@),
            all_digits(digits@.take(i as int)),
            value == digits_value(digits@.take(i as int)),
        decreases digits.len() - i,
    {
        let b = digits[i];
        if b < ZERO || b > NINE {
            return None;
        }
        let d = (b - ZERO) as usize;
        proof {
            assert(digits@.take(i + 1).drop_last() == digits@.take(i as int));
            if all_digits(digits@) {
                lemma_digits_grow(digits@, i + 1);
            }
        }
        if value > (usize::MAX - d) / 10 {
            return None;
        }
        value = value * 10 + d;
        i += 1;
    }
    assert(digits@.take(i as int) == digits@);
    Some(value)
}

/// Reads the two numbers at the start of `line`.
pub fn parse_pair(line: &[u8]) -> (numbers: Result<(usize, usize), PairError>)
    ensures
        numbers == pair(line@),
{
    let (first, rest) = split_first(line, SPACE);
    let a = match parse_number(first) {
        None => {
            return Err(PairError::BadFirst);
        },
        Some(a) => a,
    };
    let rest = match rest {
        None => {
            return Err(PairError::MissingSecond);
        },
        Some(rest) => rest,
    };
    let (second, _) = split_first(rest, SPACE);
    match parse_number(second) {
        None => Err(PairError::BadSecond),
        Some(b) => Ok((a, b)),
    }
}

/// Reads an instance from its text form.
pub fn parse_problem(text: &[u8]) -> (problem: Result<KnapsackProblem, ParseError>)
    ensures
        match problem {
            Ok(p) => parsed(text@) == Ok::<_, ParseError>(
                (p.n_items, p.capacity, p.treasure_items@),
            ) && p.wf(),
            Err(e) => parsed(text@) == Err::<(usize, usize, Seq<KnapsackItem>), _>(e),
        },
{
    if text.len() == 0 {
        return Err(ParseError::Empty);
    }
    let (header, body) = split_line(text);
    let (n_items, capacity) = match parse_pair(header) {
        Err(e) => {
            return Err(
                match e {
                    PairError::BadFirst => ParseError::BadItemCount,
                    PairError::MissingSecond => ParseError::MissingCapacity,
                    PairError::BadSecond => ParseError::BadCapacity,
                },
            );
        },
        Ok(numbers) => numbers,
    };
    let mut treasure_items: Vec<KnapsackItem> = Vec::new();
    let mut rest = body;
    while rest.len() > 0
        invariant
            text@.len() > 0,
            pair(first_line(text@)) == Ok::<_, PairError>((n_items, capacity)),
            body@ == later_lines(text@),
            item_lines(body@) == after(treasure_items@, item_lines(rest@)),
        decreases rest.len(),
    {
        let (line, later) = split_line(rest);
        let ghost before = treasure_items@;
        match parse_pair(line) {
            Err(e) => {
                return Err(
                    match e {
                        PairError::BadFirst => ParseError::BadValue,
                        PairError::MissingSecond => ParseError::MissingWeight,
                        PairError::BadSecond => ParseError::BadWeight,
                    },
                );
            },
            Ok((value, weight)) => {
                let item = KnapsackItem { value, weight };
                treasure_items.push(item);
                proof {
                    match item_lines(later@) {
                        Ok(more) => {
                            assert(before.push(item) + more =~= before + (seq![item] + more));
                        },
                        Err(_) => {},
                    }
                }
            },
        }
        rest = later;
    }
    assert(treasure_items@ + Seq::<KnapsackItem>::empty() =~= treasure_items@);
    if treasure_items.len() != n_items {
        return Err(ParseError::CountMismatch);
    }
    Ok(KnapsackProblem::new(n_items, capacity, treasure_items))
}

} // verus!
