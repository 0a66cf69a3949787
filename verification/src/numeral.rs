//! Decimal numerals: the text of lengths and integers.
use vstd::prelude::*;
use crate::tag::{MINUS, NINE, ZERO};

verus! {

/// Whether `byte` is one of the ten ASCII digits.
pub open spec fn is_digit(byte: u8) -> bool {
    ZERO <= byte <= NINE
}

/// Every byte of `text` is a digit.
pub open spec fn all_digits(text: Seq<u8>) -> bool {
    forall|i: int| 0 <= i < text.len() ==> is_digit(#[trigger] text[i])
}

/// `text` is the numeral of some number: digits, at least one, and no leading
/// zero but in `0` itself.
pub open spec fn is_numeral(text: Seq<u8>) -> bool {
    &&& text.len() > 0
    &&& all_digits(text)
    &&& text[0] == ZERO ==> text.len() == 1
}

/// The numeral of `n`: its decimal digits without leading zeros.
pub open spec fn numeral(n: nat) -> Seq<u8>
    decreases n,
{
    if n < 10 {
        seq![(ZERO + n) as u8]
    } else {
        numeral(n / 10).push((ZERO + n % 10) as u8)
    }
}

/// The number that the digits of `text` denote in base ten; 0 for no digits.
pub open spec fn numeral_value(text: Seq<u8>) -> nat
    decreases text.len(),
{
    if text.len() == 0 {
        0
    } else {
        numeral_value(text.drop_last()) * 10 + (text.last() - ZERO) as nat
    }
}

/// The text of an integer: a minus sign if it is negative, then the numeral of
/// its magnitude.
pub open spec fn integer_text(n: i64) -> Seq<u8> {
    if n < 0 {
        seq![MINUS] + numeral((-n) as nat)
    } else {
        numeral(n as nat)
    }
}

/// The end of the run of digits that starts at `pos`: the first position from
/// `pos` on that holds no digit, or the length of `bytes`.
pub open spec fn digits_end(bytes: Seq<u8>, pos: int) -> int
    decreases bytes.len() - pos,
{
    if 0 <= pos < bytes.len() && is_digit(bytes[pos]) {
        digits_end(bytes, pos + 1)
    } else {
        pos
    }
}

/// The numeral of a number is a numeral.
pub proof fn lemma_numeral_is_numeral(n: nat)
    ensures
        is_numeral(numeral(n)),
        numeral(n)[0] == ZERO <==> n == 0,
    decreases n,
{
    if n >= 10 {
        lemma_numeral_is_numeral(n / 10);
    }
}

/// Reading the numeral of a number gives the number back.
pub proof fn lemma_numeral_value(n: nat)
    ensures
        numeral_value(numeral(n)) == n,
    decreases n,
{
    if n < 10 {
        assert(numeral(n).drop_last() =~= Seq::<u8>::empty());
        assert(numeral_value(numeral(n).drop_last()) == 0);
    } else {
        lemma_numeral_value(n / 10);
        assert(numeral(n).drop_last() =~= numeral(n / 10));
    }
}

/// Digits that do not start with a zero denote a positive number.
pub proof fn lemma_value_positive(text: Seq<u8>)
    requires
        text.len() > 0,
        all_digits(text),
        text[0] != ZERO,
    ensures
        numeral_value(text) >= 1,
    decreases text.len(),
{
    if text.len() > 1 {
        lemma_value_positive(text.drop_last());
    } else {
        assert(numeral_value(text.drop_last()) == 0);
    }
}

/// A numeral is the numeral of the number it denotes: no other text denotes
/// that number.
pub proof fn lemma_value_numeral(text: Seq<u8>)
    requires
        is_numeral(text),
    ensures
        numeral(numeral_value(text)) == text,
    decreases text.len(),
{
    let front = text.drop_last();
    if text.len() == 1 {
        assert(numeral_value(front) == 0);
        assert(numeral(numeral_value(text)) =~= text);
    } else {
        assert(is_digit(text.last()));
        assert(all_digits(front)) by {
            assert forall|i: int| 0 <= i < front.len() implies is_digit(#[trigger] front[i]) by {
                assert(front[i] == text[i]);
            }
        }
        assert(front[0] == text[0]);
        lemma_value_positive(front);
        lemma_value_numeral(front);
        let v = numeral_value(text);
        assert(v / 10 == numeral_value(front));
        assert(v % 10 == text.last() - ZERO);
        assert(numeral(v) =~= text);
    }
}

/// A prefix of a run of digits denotes no more than the whole run.
pub proof fn lemma_value_prefix(text: Seq<u8>, k: int)
    requires
        0 <= k <= text.len(),
    ensures
        numeral_value(text.take(k)) <= numeral_value(text),
    decreases text.len(),
{
    if k == text.len() {
        assert(text.take(k) =~= text);
    } else {
        lemma_value_prefix(text.drop_last(), k);
        assert(text.drop_last().take(k) =~= text.take(k));
    }
}

/// Where a run of digits ends: within the bytes, past nothing but digits, at a
/// byte that is no digit or at the end.
pub proof fn lemma_digits_end(bytes: Seq<u8>, pos: int)
    requires
        0 <= pos <= bytes.len(),
    ensures
        pos <= digits_end(bytes, pos) <= bytes.len(),
        forall|i: int| pos <= i < digits_end(bytes, pos) ==> is_digit(#[trigger] bytes[i]),
        digits_end(bytes, pos) < bytes.len() ==> !is_digit(bytes[digits_end(bytes, pos)]),
    decreases bytes.len() - pos,
{
    if pos < bytes.len() && is_digit(bytes[pos]) {
        lemma_digits_end(bytes, pos + 1);
    }
}

/// A run of digits that stops at `end` ends there.
pub proof fn lemma_digits_end_is(bytes: Seq<u8>, pos: int, end: int)
    requires
        0 <= pos <= end <= bytes.len(),
        forall|i: int| pos <= i < end ==> is_digit(#[trigger] bytes[i]),
        end < bytes.len() ==> !is_digit(bytes[end]),
    ensures
        digits_end(bytes, pos) == end,
    decreases end - pos,
{
    if pos < end {
        lemma_digits_end_is(bytes, pos + 1, end);
    }
}

/// Whether `byte` is one of the ten ASCII digits.
pub fn is_digit_byte(byte: u8) -> (digit: bool)
    ensures
        digit == is_digit(byte),
{
    ZERO <= byte && byte <= NINE
}

/// Finds the end of the run of digits that starts at `pos`.
pub fn scan_digits(bytes: &[u8], pos: usize) -> (end: usize)
    ensures
        end == digits_end(bytes@, pos as int),
        pos <= end,
        pos <= bytes.len() ==> end <= bytes.len(),
{
    let mut end: usize = pos;
    while end < bytes.len() && is_digit_byte(bytes[end])
        invariant
            pos <= end,
            pos <= bytes.len() ==> end <= bytes.len(),
            digits_end(bytes@, pos as int) == digits_end(bytes@, end as int),
        decreases bytes.len() - end,
    {
        end += 1;
    }
    end
}

/// Reads the digits of `bytes` from `start` up to `end` as a number, as long
/// as it is at most `limit`.
pub(crate) fn read_numeral(bytes: &[u8], start: usize, end: usize, limit: u64) -> (number: Option<u64>)
    requires
        start <= end <= bytes.len(),
        all_digits(bytes@.subrange(start as int, end as int)),
    ensures
        match number {
            Some(n) => n == numeral_value(bytes@.subrange(start as int, end as int)) && n <= limit,
            None => numeral_value(bytes@.subrange(start as int, end as int)) > limit,
        },
{
    let ghost text = bytes@.subrange(start as int, end as int);
    let mut value: u64 = 0;
    let mut i: usize = start;
    proof {
        assert(text.take(0) =~= Seq::<u8>::empty());
    }
    while i < end
        invariant
            start <= i <= end <= bytes.len(),
            text == bytes@.subrange(start as int, end as int),
            all_digits(text),
            value == numeral_value(text.take(i - start)),
            value <= limit,
        decreases end - i,
    {
        let ghost longer = text.take(i - start + 1);
        proof {
            assert(is_digit(text[i - start]));
            assert(text[i - start] == bytes@[i as int]);
            assert(longer.drop_last() =~= text.take(i - start));
            assert(longer.last() == bytes@[i as int]);
            lemma_value_prefix(text, i - start + 1);
        }
        let digit: u64 = (bytes[i] - ZERO) as u64;
        let next: u128 = value as u128 * 10 + digit as u128;
        if next > limit as u128 {
            return None;
        }
        value = next as u64;
        i += 1;
    }
    proof {
        assert(text.take(end - start) =~= text);
    }
    Some(value)
}

/// Appends the numeral of `n` to `out`.
pub fn push_numeral(out: &mut Vec<u8>, n: u64)
    ensures
        final(out)@ == old(out)@ + numeral(n as nat),
    decreases n,
{
    if n >= 10 {
        push_numeral(out, n / 10);
    }
    out.push(ZERO + (n % 10) as u8);
    proof {
        assert(out@ =~= old(out)@ + numeral(n as nat));
    }
}

/// Appends the text of the integer `n` to `out`.
pub fn push_integer(out: &mut Vec<u8>, n: i64)
    ensures
        final(out)@ == old(out)@ + integer_text(n),
{
    if n < 0 {
        out.push(MINUS);
        let magnitude: u64 = (0 - n as i128) as u64;
        push_numeral(out, magnitude);
        proof {
            assert(out@ =~= old(out)@ + integer_text(n));
        }
    } else {
        push_numeral(out, n as u64);
    }
}

} // verus!
