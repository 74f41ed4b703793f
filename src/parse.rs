use vstd::prelude::*;

verus! {

/// The byte that ends a line.
pub const NEWLINE: u8 = 10;

/// The byte between a key and its value.
pub const SEMICOLON: u8 = 59;

/// The sign byte of a negative value.
pub const MINUS: u8 = 45;

pub const ZERO: u8 = 48;

pub const NINE: u8 = 57;

/// Largest magnitude, in tenths, that a reading may have.
pub const MAX_TENTHS: i64 = 1_000_000_000;

/// Why a value token could not be turned into a reading.
#[derive(Debug, Clone, Copy, PartialEq, Eq, Structural)]
pub enum ParseError {
    /// The token holds no decimal digit.
    NoDigits,
    /// The digits give a magnitude above `MAX_TENTHS`.
    OutOfRange,
}

pub open spec fn is_digit(b: u8) -> bool {
    ZERO <= b <= NINE
}

/// Index of the first `d` in `s` at or after `i`, or `s.len()` if there is none.
pub open spec fn scan_to(s: Seq<u8>, d: u8, i: int) -> int
    decreases s.len() - i,
{
    if i >= s.len() {
        s.len() as int
    } else if s[i] == d {
        i
    } else {
        scan_to(s, d, i + 1)
    }
}

/// The digits of `s`, read in order as one decimal number; other bytes are skipped.
pub open spec fn digits_value(s: Seq<u8>) -> int
    decreases s.len(),
{
    if s.len() == 0 {
        0
    } else if is_digit(s.last()) {
        10 * digits_value(s.drop_last()) + (s.last() - ZERO)
    } else {
        digits_value(s.drop_last())
    }
}

pub open spec fn has_digit(s: Seq<u8>) -> bool {
    exists|i: int| 0 <= i < s.len() && is_digit(#[trigger] s[i])
}

pub open spec fn has_minus(s: Seq<u8>) -> bool {
    exists|i: int| 0 <= i < s.len() && #[trigger] s[i] == MINUS
}

/// The reading, in tenths, that a value token stands for: its digits with the
/// decimal point dropped, negated when a `-` occurs in it.
pub open spec fn reading_of(s: Seq<u8>) -> Result<int, ParseError> {
    if !has_digit(s) {
        Err(ParseError::NoDigits)
    } else if digits_value(s) > MAX_TENTHS {
        Err(ParseError::OutOfRange)
    } else if has_minus(s) {
        Ok(-digits_value(s))
    } else {
        Ok(digits_value(s))
    }
}

/// The key of a line: everything before its first `;`.
pub open spec fn key_of(line: Seq<u8>) -> Seq<u8> {
    line.subrange(0, scan_to(line, SEMICOLON, 0))
}

/// The value token of a line: everything after its first `;`, empty if it has none.
pub open spec fn token_of(line: Seq<u8>) -> Seq<u8> {
    let p = scan_to(line, SEMICOLON, 0);
    if p < line.len() {
        line.subrange(p + 1, line.len() as int)
    } else {
        Seq::empty()
    }
}

pub proof fn lemma_scan_to_bounds(s: Seq<u8>, d: u8, i: int)
    requires
        0 <= i <= s.len(),
    ensures
        i <= scan_to(s, d, i) <= s.len(),
        scan_to(s, d, i) < s.len() ==> s[scan_to(s, d, i)] == d,
        forall|j: int| i <= j < scan_to(s, d, i) ==> s[j] != d,
    decreases s.len() - i,
{
    if i < s.len() && s[i] != d {
        lemma_scan_to_bounds(s, d, i + 1);
    }
}

proof fn lemma_digits_value_nonneg(s: Seq<u8>)
    ensures
        digits_value(s) >= 0,
    decreases s.len(),
{
    if s.len() > 0 {
        lemma_digits_value_nonneg(s.drop_last());
    }
}

/// A reading lies within the accepted range.
pub proof fn lemma_reading_range(s: Seq<u8>)
    ensures
        reading_of(s) is Ok ==> -MAX_TENTHS <= reading_of(s)->Ok_0 <= MAX_TENTHS,
{
    lemma_digits_value_nonneg(s);
}

proof fn lemma_digits_value_monotone(s: Seq<u8>, i: int, j: int)
    requires
        0 <= i <= j <= s.len(),
    ensures
        digits_value(s.take(i)) <= digits_value(s.take(j)),
    decreases j - i,
{
    if i < j {
        lemma_digits_value_monotone(s, i, j - 1);
        assert(s.take(j).drop_last() =~= s.take(j - 1));
        lemma_digits_value_nonneg(s.take(j - 1));
    }
}

/// Splits `input` at the first `delimiter`: the bytes before it and the bytes
/// after it, or all of `input` and an empty tail when it does not occur.
pub fn split_once(input: &[u8], delimiter: u8) -> (r: (&[u8], &[u8]))
    ensures
        r.0@ == input@.subrange(0, scan_to(input@, delimiter, 0)),
        scan_to(input@, delimiter, 0) < input@.len() ==> r.1@ == input@.subrange(
            scan_to(input@, delimiter, 0) + 1,
            input@.len() as int,
        ),
        scan_to(input@, delimiter, 0) == input@.len() ==> r.1@.len() == 0,
{
    let mut pos: usize = 0;
    while pos < input.len()
        invariant
            0 <= pos <= input@.len(),
            scan_to(input@, delimiter, pos as int) == scan_to(input@, delimiter, 0),
        decreases input@.len() - pos,
    {
        if input[pos] == delimiter {
            let head = vstd::slice::slice_subrange(input, 0, pos);
            let tail = vstd::slice::slice_subrange(input, pos + 1, input.len());
            return (head, tail);
        }
        pos = pos + 1;
    }
    (input, vstd::slice::slice_subrange(input, 0, 0))
}

/// Reads a value token as a fixed-point reading in tenths: digits accumulate,
/// the decimal point and other bytes are skipped, a `-` makes it negative.
pub fn parse_temperature(token: &[u8]) -> (r: Result<i64, ParseError>)
    ensures
        match r {
            Ok(v) => reading_of(token@) == Ok::<int, ParseError>(v as int),
            Err(e) => reading_of(token@) == Err::<int, ParseError>(e),
        },
{
    let mut acc: i64 = 0;
    let mut negative = false;
    let mut seen_digit = false;
    let mut i: usize = 0;
    while i < token.len()
        invariant
            0 <= i <= token@.len(),
            acc as int == digits_value(token@.take(i as int)),
            0 <= acc <= MAX_TENTHS,
            negative <==> has_minus(token@.take(i as int)),
            seen_digit <==> has_digit(token@.take(i as int)),
        decreases token@.len() - i,
    {
        let b = token[i];
        proof {
            assert(token@.take(i + 1).drop_last() =~= token@.take(i as int));
            assert(token@.take(i + 1).last() == b);
            if has_minus(token@.take(i + 1)) && b != MINUS {
                let j = choose|j: int| 0 <= j < i + 1 && #[trigger] token@.take(i + 1)[j] == MINUS;
                assert(token@.take(i as int)[j] == MINUS);
            }
            if has_digit(token@.take(i + 1)) && !is_digit(b) {
                let j = choose|j: int| 0 <= j < i + 1 && is_digit(#[trigger] token@.take(i + 1)[j]);
                assert(is_digit(token@.take(i as int)[j]));
            }
            if negative {
                let j = choose|j: int| 0 <= j < i && #[trigger] token@.take(i as int)[j] == MINUS;
                assert(token@.take(i + 1)[j] == MINUS);
            }
            if seen_digit {
                let j = choose|j: int| 0 <= j < i && is_digit(#[trigger] token@.take(i as int)[j]);
                assert(is_digit(token@.take(i + 1)[j]));
            }
            assert(token@.take(i + 1)[i as int] == b);
        }
        if b == MINUS {
            negative = true;
        } else if ZERO <= b && b <= NINE {
            acc = acc * 10 + (b - ZERO) as i64;
            seen_digit = true;
            if acc > MAX_TENTHS {
                proof {
                    lemma_digits_value_monotone(token@, i + 1, token@.len() as int);
                    assert(token@.take(token@.len() as int) =~= token@);
                    assert(has_digit(token@)) by {
                        assert(is_digit(token@[i as int]));
                    }
                }
                return Err(ParseError::OutOfRange);
            }
        }
        i = i + 1;
    }
    proof {
        assert(token@.take(token@.len() as int) =~= token@);
    }
    if !seen_digit {
        Err(ParseError::NoDigits)
    } else if negative {
        Ok(-acc)
    } else {
        Ok(acc)
    }
}

} // verus!
