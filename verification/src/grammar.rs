//! The grammar: what every input means.
//!
//! For each input, position and depth allowance the functions of this module
//! name one result: the tree that starts at the position together with the
//! position just past it, or the first fault. The decoder is proved to compute
//! them.
use vstd::prelude::*;
use crate::error::{DecodeErrorKind, Fault};
use crate::numeral::{digits_end, is_digit, numeral_value};
use crate::order::lex_less;
use crate::tag::{COLON, DICTIONARY, END, INTEGER, LIST, MINUS, ZERO};
use crate::value::Tree;

verus! {

/// What parsing gives: what was read and the position just past it, or the
/// fault.
pub type Parsed<T> = Result<(T, int), Fault>;

/// The fault of kind `kind` at position `at`.
pub open spec fn fault<T>(kind: DecodeErrorKind, at: int) -> Parsed<T> {
    Err(Fault { kind, at })
}

/// The byte string that starts at `pos`.
///
/// Its length is a run of digits without a leading zero, a colon follows, and
/// then as many bytes as the length says. The faults, in the order in which
/// they are looked for:
///
/// * `UnexpectedEnd`, at the end: there is no byte at `pos`;
/// * `MalformedLength`, at `pos`: the byte there is no digit;
/// * `MalformedLength`, at `pos`: the length starts with a zero and goes on;
/// * `UnexpectedEnd`, at the end: the input ends with the digits;
/// * `MalformedLength`, at the byte after the digits: it is no colon;
/// * `LengthOverflow`, at `pos`: fewer bytes than the length follow the colon.
pub open spec fn parse_byte_string(bytes: Seq<u8>, pos: int) -> Parsed<Seq<u8>> {
    let end = digits_end(bytes, pos);
    let len = numeral_value(bytes.subrange(pos, end));
    if pos >= bytes.len() {
        fault(DecodeErrorKind::UnexpectedEnd, bytes.len() as int)
    } else if !is_digit(bytes[pos]) {
        fault(DecodeErrorKind::MalformedLength, pos)
    } else if bytes[pos] == ZERO && end > pos + 1 {
        fault(DecodeErrorKind::MalformedLength, pos)
    } else if end >= bytes.len() {
        fault(DecodeErrorKind::UnexpectedEnd, bytes.len() as int)
    } else if bytes[end] != COLON {
        fault(DecodeErrorKind::MalformedLength, end)
    } else if end + 1 + len > bytes.len() {
        fault(DecodeErrorKind::LengthOverflow, pos)
    } else {
        Ok((bytes.subrange(end + 1, end + 1 + len), end + 1 + len))
    }
}

/// The integer that starts at `pos`.
///
/// It is an `i`, an optional minus sign, a run of digits and an `e`. The
/// faults, in the order in which they are looked for:
///
/// * `UnexpectedEnd`, at the end: there is no byte at `pos`;
/// * `InvalidTypeTag`, at `pos`: the byte there is no `i`;
/// * `UnexpectedEnd`, at the end: the input ends before the first digit;
/// * `MalformedInteger`, at the byte where the digits should start: it is no
///   digit;
/// * `MalformedInteger`, at the byte after the `i`: the digits start with a
///   zero and go on, or a minus sign stands before a zero;
/// * `MissingTerminator`, at the end: the input ends with the digits;
/// * `MalformedInteger`, at the byte after the digits: it is no `e`;
/// * `MalformedInteger`, at the byte after the `i`: the number does not fit in
///   a signed 64-bit integer.
pub open spec fn parse_integer(bytes: Seq<u8>, pos: int) -> Parsed<i64> {
    let negative = pos + 1 < bytes.len() && bytes[pos + 1] == MINUS;
    let start = if negative { pos + 2 } else { pos + 1 };
    let end = digits_end(bytes, start);
    let magnitude = numeral_value(bytes.subrange(start, end)) as int;
    let number = if negative { -magnitude } else { magnitude };
    if pos >= bytes.len() {
        fault(DecodeErrorKind::UnexpectedEnd, bytes.len() as int)
    } else if bytes[pos] != INTEGER {
        fault(DecodeErrorKind::InvalidTypeTag, pos)
    } else if start >= bytes.len() {
        fault(DecodeErrorKind::UnexpectedEnd, bytes.len() as int)
    } else if end == start {
        fault(DecodeErrorKind::MalformedInteger, start)
    } else if bytes[start] == ZERO && (negative || end > start + 1) {
        fault(DecodeErrorKind::MalformedInteger, pos + 1)
    } else if end >= bytes.len() {
        fault(DecodeErrorKind::MissingTerminator, bytes.len() as int)
    } else if bytes[end] != END {
        fault(DecodeErrorKind::MalformedInteger, end)
    } else if number < i64::MIN || number > i64::MAX {
        fault(DecodeErrorKind::MalformedInteger, pos + 1)
    } else {
        Ok((number as i64, end + 1))
    }
}

/// The value that starts at `pos`, where lists and dictionaries may nest
/// `budget` deep.
///
/// The byte at `pos` decides: a digit opens a byte string, `i` an integer, `l`
/// a list, `d` a dictionary. The faults of its own are `UnexpectedEnd`, at the
/// end, where there is no byte at `pos`, and `InvalidTypeTag`, at `pos`, where
/// the byte opens none of the four.
pub open spec fn parse_value(bytes: Seq<u8>, pos: int, budget: nat) -> Parsed<Tree>
    decreases bytes.len() - pos, 1int,
{
    if pos >= bytes.len() {
        fault(DecodeErrorKind::UnexpectedEnd, bytes.len() as int)
    } else if is_digit(bytes[pos]) {
        match parse_byte_string(bytes, pos) {
            Ok((string, end)) => Ok((Tree::ByteString(string), end)),
            Err(f) => Err(f),
        }
    } else if bytes[pos] == INTEGER {
        match parse_integer(bytes, pos) {
            Ok((number, end)) => Ok((Tree::Integer(number), end)),
            Err(f) => Err(f),
        }
    } else if bytes[pos] == LIST {
        match parse_list(bytes, pos, budget) {
            Ok((items, end)) => Ok((Tree::List(items), end)),
            Err(f) => Err(f),
        }
    } else if bytes[pos] == DICTIONARY {
        match parse_dictionary(bytes, pos, budget) {
            Ok((entries, end)) => Ok((Tree::Dictionary(entries), end)),
            Err(f) => Err(f),
        }
    } else {
        fault(DecodeErrorKind::InvalidTypeTag, pos)
    }
}

/// The list that starts at `pos`: an `l`, the items, an `e`.
///
/// The faults of its own: `UnexpectedEnd`, at the end, where there is no byte
/// at `pos`; `InvalidTypeTag`, at `pos`, where the byte there is no `l`;
/// `DepthExceeded`, at `pos`, where `budget` is 0. The items may nest one less
/// deep than the list.
pub open spec fn parse_list(bytes: Seq<u8>, pos: int, budget: nat) -> Parsed<Seq<Tree>>
    decreases bytes.len() - pos, 0int,
{
    if pos >= bytes.len() {
        fault(DecodeErrorKind::UnexpectedEnd, bytes.len() as int)
    } else if bytes[pos] != LIST {
        fault(DecodeErrorKind::InvalidTypeTag, pos)
    } else if budget == 0 {
        fault(DecodeErrorKind::DepthExceeded, pos)
    } else {
        parse_items(bytes, pos + 1, (budget - 1) as nat)
    }
}

/// The items of a list from `pos` on, up to and including the closing `e`.
///
/// The fault of its own is `UnterminatedList`, at the end, where the input
/// ends before the `e`. A fault in an item is the fault of the list.
///
/// A value that was read ends past its start and within the input
/// (`canon::lemma_parse_value_sound`), so the branch that asks for that is
/// never the one that fails; it is there for the recursion to be well founded.
pub open spec fn parse_items(bytes: Seq<u8>, pos: int, budget: nat) -> Parsed<Seq<Tree>>
    decreases bytes.len() - pos, 2int,
{
    if pos >= bytes.len() {
        fault(DecodeErrorKind::UnterminatedList, bytes.len() as int)
    } else if bytes[pos] == END {
        Ok((Seq::empty(), pos + 1))
    } else {
        match parse_value(bytes, pos, budget) {
            Ok((item, next)) => if pos < next <= bytes.len() {
                match parse_items(bytes, next, budget) {
                    Ok((rest, end)) => Ok((seq![item] + rest, end)),
                    Err(f) => Err(f),
                }
            } else {
                fault(DecodeErrorKind::UnterminatedList, bytes.len() as int)
            },
            Err(f) => Err(f),
        }
    }
}

/// The dictionary that starts at `pos`: a `d`, the entries, an `e`.
///
/// The faults of its own: `UnexpectedEnd`, at the end, where there is no byte
/// at `pos`; `InvalidTypeTag`, at `pos`, where the byte there is no `d`;
/// `DepthExceeded`, at `pos`, where `budget` is 0. The values may nest one
/// less deep than the dictionary.
pub open spec fn parse_dictionary(bytes: Seq<u8>, pos: int, budget: nat) -> Parsed<
    Seq<(Seq<u8>, Tree)>,
>
    decreases bytes.len() - pos, 0int,
{
    if pos >= bytes.len() {
        fault(DecodeErrorKind::UnexpectedEnd, bytes.len() as int)
    } else if bytes[pos] != DICTIONARY {
        fault(DecodeErrorKind::InvalidTypeTag, pos)
    } else if budget == 0 {
        fault(DecodeErrorKind::DepthExceeded, pos)
    } else {
        parse_entries(bytes, pos + 1, (budget - 1) as nat, None)
    }
}

/// The entries of a dictionary from `pos` on, up to and including the closing
/// `e`, where `previous` is the key of the entry before `pos`, if there is
/// one.
///
/// Each entry is a key, which is a byte string, and a value. The faults of its
/// own, in the order in which they are looked for:
///
/// * `UnterminatedDict`, at the end: the input ends before the `e`;
/// * `InvalidKeyType`, at `pos`: what stands there is neither `e` nor the
///   start of a byte string;
/// * `DuplicateKey`, at the key: it is the same as `previous`;
/// * `UnsortedKeys`, at the key: it comes before `previous`.
///
/// A fault in a key or in a value is the fault of the dictionary.
///
/// A key and a value that were read end past their start and within the input
/// (`canon::lemma_byte_string_sound`, `canon::lemma_parse_value_sound`), so
/// the branches that ask for that are never the ones that fail; they are there
/// for the recursion to be well founded.
pub open spec fn parse_entries(
    bytes: Seq<u8>,
    pos: int,
    budget: nat,
    previous: Option<Seq<u8>>,
) -> Parsed<Seq<(Seq<u8>, Tree)>>
    decreases bytes.len() - pos, 2int,
{
    if pos >= bytes.len() {
        fault(DecodeErrorKind::UnterminatedDict, bytes.len() as int)
    } else if bytes[pos] == END {
        Ok((Seq::empty(), pos + 1))
    } else if !is_digit(bytes[pos]) {
        fault(DecodeErrorKind::InvalidKeyType, pos)
    } else {
        match parse_byte_string(bytes, pos) {
            Ok((key, after_key)) => if previous == Some(key) {
                fault(DecodeErrorKind::DuplicateKey, pos)
            } else if previous is Some && !lex_less(previous->0, key) {
                fault(DecodeErrorKind::UnsortedKeys, pos)
            } else if pos < after_key <= bytes.len() {
                match parse_value(bytes, after_key, budget) {
                    Ok((value, next)) => if after_key < next <= bytes.len() {
                        match parse_entries(bytes, next, budget, Some(key)) {
                            Ok((rest, end)) => Ok((seq![(key, value)] + rest, end)),
                            Err(f) => Err(f),
                        }
                    } else {
                        fault(DecodeErrorKind::UnterminatedDict, bytes.len() as int)
                    },
                    Err(f) => Err(f),
                }
            } else {
                fault(DecodeErrorKind::UnterminatedDict, bytes.len() as int)
            },
            Err(f) => Err(f),
        }
    }
}

} // verus!
