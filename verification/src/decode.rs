//! The decoder: from bytes to a value, or to the first fault.
//!
//! Every function here works on the whole input and a position in it, and
//! gives back the position just past what it read. Each computes the function
//! of the grammar that its contract names: the same value and end where the
//! grammar reads one, the same kind of fault at the same offset where it does
//! not. Lists and dictionaries are read by recursive descent, which goes no
//! deeper than the depth allowance.
use vstd::prelude::*;
use vstd::slice::{slice_subrange, slice_to_vec};
use crate::canon::lemma_parse_value_sound;
use crate::error::{DecodeError, DecodeErrorKind, Fault};
use crate::grammar::{
    parse_byte_string, parse_dictionary, parse_entries, parse_integer, parse_items, parse_list,
    parse_value, Parsed,
};
use crate::numeral::{is_digit_byte, lemma_digits_end, read_numeral, scan_digits};
use crate::order::{bytes_equal, bytes_less, lemma_lex_less_transitive, lex_less};
use crate::tag::{COLON, DICTIONARY, END, INTEGER, LIST, MINUS, ZERO};
use crate::value::{
    keys_ascend, lemma_view_entries, lemma_view_items, view_entries, view_items, Dictionary, Tree,
    Value,
};

verus! {

/// How deep lists and dictionaries may nest for [`decode`] to accept them.
/// [`decode_bencoded_value`] takes any other allowance.
pub const DEPTH_LIMIT: usize = 512;

/// `rest` with `read` put before what it read: how the result of a sequence
/// follows from what was read of it so far and the result of the remainder.
spec fn after<T>(read: Seq<T>, rest: Parsed<Seq<T>>) -> Parsed<Seq<T>> {
    match rest {
        Ok((more, end)) => Ok((read + more, end)),
        Err(f) => Err(f),
    }
}

/// The key of the last of `entries`, if there is one.
spec fn last_key(entries: Seq<(Seq<u8>, Tree)>) -> Option<Seq<u8>> {
    if entries.len() == 0 {
        None
    } else {
        Some(entries.last().0)
    }
}

/// The failure of kind `kind` at `offset`.
fn failure<T>(kind: DecodeErrorKind, offset: usize) -> (result: Result<T, DecodeError>)
    ensures
        result == Err::<T, DecodeError>(DecodeError { kind, offset }),
{
    Err(DecodeError { kind, offset })
}

/// Decodes the byte string that starts at `pos`: gives its bytes and the
/// position just past it, or the fault that [`parse_byte_string`] names.
///
/// The declared length is held against the bytes that are left before any of
/// them is copied.
pub fn decode_string(bytes: &[u8], pos: usize) -> (result: Result<(Vec<u8>, usize), DecodeError>)
    ensures
        match result {
            Ok((string, end)) => {
                &&& parse_byte_string(bytes@, pos as int) == Ok::<(Seq<u8>, int), Fault>(
                    (string@, end as int),
                )
                &&& pos < end <= bytes.len()
            },
            Err(e) => {
                &&& parse_byte_string(bytes@, pos as int) == Err::<(Seq<u8>, int), Fault>(e@)
                &&& e.offset <= bytes.len()
            },
        },
{
    let len = bytes.len();
    if pos >= len {
        return failure(DecodeErrorKind::UnexpectedEnd, len);
    }
    if !is_digit_byte(bytes[pos]) {
        return failure(DecodeErrorKind::MalformedLength, pos);
    }
    let end = scan_digits(bytes, pos);
    proof {
        lemma_digits_end(bytes@, pos as int);
    }
    if bytes[pos] == ZERO && end > pos + 1 {
        return failure(DecodeErrorKind::MalformedLength, pos);
    }
    if end >= len {
        return failure(DecodeErrorKind::UnexpectedEnd, len);
    }
    if bytes[end] != COLON {
        return failure(DecodeErrorKind::MalformedLength, end);
    }
    let available = len - end - 1;
    match read_numeral(bytes, pos, end, available as u64) {
        None => failure(DecodeErrorKind::LengthOverflow, pos),
        Some(n) => {
            let stop = end + 1 + n as usize;
            let string = slice_to_vec(slice_subrange(bytes, end + 1, stop));
            Ok((string, stop))
        },
    }
}

/// Decodes the integer that starts at `pos`: gives the number and the position
/// just past it, or the fault that [`parse_integer`] names.
pub fn decode_int(bytes: &[u8], pos: usize) -> (result: Result<(i64, usize), DecodeError>)
    ensures
        match result {
            Ok((number, end)) => {
                &&& parse_integer(bytes@, pos as int) == Ok::<(i64, int), Fault>(
                    (number, end as int),
                )
                &&& pos < end <= bytes.len()
            },
            Err(e) => {
                &&& parse_integer(bytes@, pos as int) == Err::<(i64, int), Fault>(e@)
                &&& e.offset <= bytes.len()
            },
        },
{
    let len = bytes.len();
    if pos >= len {
        return failure(DecodeErrorKind::UnexpectedEnd, len);
    }
    if bytes[pos] != INTEGER {
        return failure(DecodeErrorKind::InvalidTypeTag, pos);
    }
    let negative = pos + 1 < len && bytes[pos + 1] == MINUS;
    let start = if negative { pos + 2 } else { pos + 1 };
    if start >= len {
        return failure(DecodeErrorKind::UnexpectedEnd, len);
    }
    let end = scan_digits(bytes, start);
    proof {
        lemma_digits_end(bytes@, start as int);
    }
    if end == start {
        return failure(DecodeErrorKind::MalformedInteger, start);
    }
    if bytes[start] == ZERO && (negative || end > start + 1) {
        return failure(DecodeErrorKind::MalformedInteger, pos + 1);
    }
    if end >= len {
        return failure(DecodeErrorKind::MissingTerminator, len);
    }
    if bytes[end] != END {
        return failure(DecodeErrorKind::MalformedInteger, end);
    }
    let limit: u64 = if negative { 0x8000_0000_0000_0000 } else { 0x7fff_ffff_ffff_ffff };
    match read_numeral(bytes, start, end, limit) {
        None => failure(DecodeErrorKind::MalformedInteger, pos + 1),
        Some(magnitude) => {
            let number: i64 = if negative {
                (0 - magnitude as i128) as i64
            } else {
                magnitude as i64
            };
            Ok((number, end + 1))
        },
    }
}

/// Decodes the value that starts at `pos`, where lists and dictionaries may
/// nest `budget` deep: gives the value and the position just past it, or the
/// fault that [`parse_value`] names.
///
/// A value that is given is well formed and within the allowance, and the
/// bytes it was read from are its canonical encoding.
pub fn decode_bencoded_value(bytes: &[u8], pos: usize, budget: usize) -> (result: Result<
    (Value, usize),
    DecodeError,
>)
    ensures
        match result {
            Ok((value, end)) => {
                &&& parse_value(bytes@, pos as int, budget as nat) == Ok::<(Tree, int), Fault>(
                    (value@, end as int),
                )
                &&& pos < end <= bytes.len()
                &&& value@.well_formed()
                &&& value@.depth() <= budget
                &&& bytes@.subrange(pos as int, end as int) == value@.encoding()
            },
            Err(e) => {
                &&& parse_value(bytes@, pos as int, budget as nat) == Err::<(Tree, int), Fault>(
                    e@,
                )
                &&& e.offset <= bytes.len()
            },
        },
    decreases budget, 1nat,
{
    if pos >= bytes.len() {
        return failure(DecodeErrorKind::UnexpectedEnd, bytes.len());
    }
    proof {
        if parse_value(bytes@, pos as int, budget as nat) is Ok {
            lemma_parse_value_sound(bytes@, pos as int, budget as nat);
        }
    }
    let tag = bytes[pos];
    if is_digit_byte(tag) {
        match decode_string(bytes, pos) {
            Ok((string, end)) => Ok((Value::ByteString(string), end)),
            Err(e) => Err(e),
        }
    } else if tag == INTEGER {
        match decode_int(bytes, pos) {
            Ok((number, end)) => Ok((Value::Integer(number), end)),
            Err(e) => Err(e),
        }
    } else if tag == LIST {
        match decode_list(bytes, pos, budget) {
            Ok((items, end)) => Ok((Value::List(items), end)),
            Err(e) => Err(e),
        }
    } else if tag == DICTIONARY {
        match decode_dict(bytes, pos, budget) {
            Ok((dict, end)) => Ok((Value::Dictionary(dict), end)),
            Err(e) => Err(e),
        }
    } else {
        failure(DecodeErrorKind::InvalidTypeTag, pos)
    }
}

/// Decodes the list that starts at `pos`, which may nest `budget` deep, itself
/// counted: gives its items and the position just past it, or the fault that
/// [`parse_list`] names.
#[verifier::loop_isolation(false)]
pub fn decode_list(bytes: &[u8], pos: usize, budget: usize) -> (result: Result<
    (Vec<Value>, usize),
    DecodeError,
>)
    ensures
        match result {
            Ok((items, end)) => {
                &&& parse_list(bytes@, pos as int, budget as nat) == Ok::<(Seq<Tree>, int), Fault>(
                    (view_items(items@), end as int),
                )
                &&& pos < end <= bytes.len()
            },
            Err(e) => {
                &&& parse_list(bytes@, pos as int, budget as nat) == Err::<
                    (Seq<Tree>, int),
                    Fault,
                >(e@)
                &&& e.offset <= bytes.len()
            },
        },
    decreases budget, 0nat,
{
    let len = bytes.len();
    if pos >= len {
        return failure(DecodeErrorKind::UnexpectedEnd, len);
    }
    if bytes[pos] != LIST {
        return failure(DecodeErrorKind::InvalidTypeTag, pos);
    }
    if budget == 0 {
        return failure(DecodeErrorKind::DepthExceeded, pos);
    }
    let inner = budget - 1;
    let ghost whole = parse_items(bytes@, pos + 1, inner as nat);
    let mut items: Vec<Value> = Vec::new();
    let mut at: usize = pos + 1;
    proof {
        assert(view_items(items@) =~= Seq::<Tree>::empty());
    }
    loop
        invariant
            pos < at <= len,
            whole == after(view_items(items@), parse_items(bytes@, at as int, inner as nat)),
        decreases len - at,
    {
        if at >= len {
            return failure(DecodeErrorKind::UnterminatedList, len);
        }
        if bytes[at] == END {
            proof {
                assert(view_items(items@) + Seq::<Tree>::empty() =~= view_items(items@));
            }
            return Ok((items, at + 1));
        }
        match decode_bencoded_value(bytes, at, inner) {
            Err(e) => {
                return Err(e);
            },
            Ok((item, next)) => {
                let ghost before = view_items(items@);
                let ghost earlier = items@;
                items.push(item);
                proof {
                    assert(items@.drop_last() =~= earlier);
                    let rest = parse_items(bytes@, next as int, inner as nat);
                    assert(view_items(items@) == before.push(item@));
                    if rest is Ok {
                        assert(before + (seq![item@] + rest->Ok_0.0) =~= before.push(item@)
                            + rest->Ok_0.0);
                    }
                }
                at = next;
            },
        }
    }
}

/// Decodes the dictionary that starts at `pos`, which may nest `budget` deep,
/// itself counted: gives the dictionary and the position just past it, or the
/// fault that [`parse_dictionary`] names.
///
/// Keys must ascend strictly: a key that repeats the one before it, or comes
/// before it, is refused and not put in order.
#[verifier::loop_isolation(false)]
pub fn decode_dict(bytes: &[u8], pos: usize, budget: usize) -> (result: Result<
    (Dictionary, usize),
    DecodeError,
>)
    ensures
        match result {
            Ok((dict, end)) => {
                &&& parse_dictionary(bytes@, pos as int, budget as nat) == Ok::<
                    (Seq<(Seq<u8>, Tree)>, int),
                    Fault,
                >((dict@, end as int))
                &&& pos < end <= bytes.len()
            },
            Err(e) => {
                &&& parse_dictionary(bytes@, pos as int, budget as nat) == Err::<
                    (Seq<(Seq<u8>, Tree)>, int),
                    Fault,
                >(e@)
                &&& e.offset <= bytes.len()
            },
        },
    decreases budget, 0nat,
{
    let len = bytes.len();
    if pos >= len {
        return failure(DecodeErrorKind::UnexpectedEnd, len);
    }
    if bytes[pos] != DICTIONARY {
        return failure(DecodeErrorKind::InvalidTypeTag, pos);
    }
    if budget == 0 {
        return failure(DecodeErrorKind::DepthExceeded, pos);
    }
    let inner = budget - 1;
    let ghost whole = parse_entries(bytes@, pos + 1, inner as nat, None);
    let mut entries: Vec<(Vec<u8>, Value)> = Vec::new();
    let mut at: usize = pos + 1;
    proof {
        assert(view_entries(entries@) =~= Seq::<(Seq<u8>, Tree)>::empty());
    }
    loop
        invariant
            pos < at <= len,
            keys_ascend(view_entries(entries@)),
            whole == after(
                view_entries(entries@),
                parse_entries(bytes@, at as int, inner as nat, last_key(view_entries(entries@))),
            ),
        decreases len - at,
    {
        proof {
            lemma_view_entries(entries@);
        }
        if at >= len {
            return failure(DecodeErrorKind::UnterminatedDict, len);
        }
        if bytes[at] == END {
            proof {
                assert(view_entries(entries@) + Seq::<(Seq<u8>, Tree)>::empty() =~= view_entries(
                    entries@,
                ));
            }
            return Ok((Dictionary::from_ordered(entries), at + 1));
        }
        if !is_digit_byte(bytes[at]) {
            return failure(DecodeErrorKind::InvalidKeyType, at);
        }
        let (key, after_key) = match decode_string(bytes, at) {
            Err(e) => {
                return Err(e);
            },
            Ok(read) => read,
        };
        if entries.len() > 0 {
            let previous = &entries[entries.len() - 1].0;
            if bytes_equal(previous.as_slice(), key.as_slice()) {
                return failure(DecodeErrorKind::DuplicateKey, at);
            }
            if !bytes_less(previous.as_slice(), key.as_slice()) {
                return failure(DecodeErrorKind::UnsortedKeys, at);
            }
        }
        match decode_bencoded_value(bytes, after_key, inner) {
            Err(e) => {
                return Err(e);
            },
            Ok((value, next)) => {
                let ghost before = view_entries(entries@);
                let ghost pair = (key@, value@);
                let ghost earlier = entries@;
                entries.push((key, value));
                proof {
                    assert(entries@.drop_last() =~= earlier);
                    let now = view_entries(entries@);
                    assert(now == before.push(pair));
                    assert(keys_ascend(now)) by {
                        assert forall|i: int, j: int| 0 <= i < j < now.len() implies lex_less(
                            #[trigger] now[i].0,
                            #[trigger] now[j].0,
                        ) by {
                            assert(now[i] == before[i]);
                            if j < before.len() {
                                assert(now[j] == before[j]);
                            } else if i < j - 1 {
                                assert(lex_less(before[i].0, before[j - 1].0));
                                lemma_lex_less_transitive(before[i].0, before[j - 1].0, pair.0);
                            }
                        }
                    }
                    let rest = parse_entries(bytes@, next as int, inner as nat, Some(pair.0));
                    if rest is Ok {
                        assert(before + (seq![pair] + rest->Ok_0.0) =~= before.push(pair)
                            + rest->Ok_0.0);
                    }
                }
                at = next;
            },
        }
    }
}

/// Decodes the value at the start of `bytes`: gives the value and the number
/// of bytes it spans, or the first fault, as [`parse_value`] names them. Lists
/// and dictionaries may nest [`DEPTH_LIMIT`] deep. What follows the value is
/// not looked at.
///
/// A value that is given is well formed, and the bytes it was read from are
/// its canonical encoding: encoding it again gives those bytes.
pub fn decode(bytes: &[u8]) -> (result: Result<(Value, usize), DecodeError>)
    ensures
        match result {
            Ok((value, consumed)) => {
                &&& parse_value(bytes@, 0, DEPTH_LIMIT as nat) == Ok::<(Tree, int), Fault>(
                    (value@, consumed as int),
                )
                &&& 0 < consumed <= bytes.len()
                &&& value@.well_formed()
                &&& value@.depth() <= DEPTH_LIMIT
                &&& bytes@.subrange(0, consumed as int) == value@.encoding()
            },
            Err(e) => {
                &&& parse_value(bytes@, 0, DEPTH_LIMIT as nat) == Err::<(Tree, int), Fault>(e@)
                &&& e.offset <= bytes.len()
            },
        },
{
    decode_bencoded_value(bytes, 0, DEPTH_LIMIT)
}

} // verus!
