use bencode::{decode, encode, DecodeError, DecodeErrorKind, Value};

fn fails(input: &[u8], kind: DecodeErrorKind, offset: usize) {
    assert_eq!(decode(input), Err(DecodeError { kind, offset }));
}

#[test]
fn empty_byte_string() {
    assert_eq!(decode(b"0:"), Ok((Value::ByteString(vec![]), 2)));
}

#[test]
fn byte_string_spam() {
    assert_eq!(decode(b"4:spam"), Ok((Value::ByteString(b"spam".to_vec()), 6)));
}

#[test]
fn integer_three() {
    assert_eq!(decode(b"i3e"), Ok((Value::Integer(3), 3)));
}

#[test]
fn integer_minus_forty_two() {
    assert_eq!(decode(b"i-42e"), Ok((Value::Integer(-42), 5)));
}

#[test]
fn list_of_spam_and_forty_two() {
    let expected = Value::List(vec![Value::ByteString(b"spam".to_vec()), Value::Integer(42)]);
    assert_eq!(decode(b"l4:spami42ee"), Ok((expected, 12)));
}

#[test]
fn dictionary_with_ascending_keys() {
    let (value, consumed) = decode(b"d3:cow3:moo4:spam4:eggse").unwrap();
    assert_eq!(consumed, 24);
    match value {
        Value::Dictionary(dict) => {
            let entries = dict.entries();
            assert_eq!(entries.len(), 2);
            assert_eq!(entries[0], (b"cow".to_vec(), Value::ByteString(b"moo".to_vec())));
            assert_eq!(entries[1], (b"spam".to_vec(), Value::ByteString(b"eggs".to_vec())));
        }
        other => panic!("not a dictionary: {:?}", other),
    }
}

#[test]
fn dictionary_with_descending_keys_is_refused() {
    fails(b"d4:spam4:eggs3:cow3:mooe", DecodeErrorKind::UnsortedKeys, 13);
}

#[test]
fn key_with_short_length_leaves_no_value() {
    // The key is `spa`; `m` opens no value.
    fails(b"d3:spam4:eggs3:cow3:mooe", DecodeErrorKind::InvalidTypeTag, 6);
}

#[test]
fn integer_with_leading_zero_is_refused() {
    fails(b"i03e", DecodeErrorKind::MalformedInteger, 1);
}

#[test]
fn negative_zero_is_refused() {
    fails(b"i-0e", DecodeErrorKind::MalformedInteger, 1);
}

#[test]
fn declared_length_beyond_the_input_is_refused() {
    fails(b"5:abc", DecodeErrorKind::LengthOverflow, 0);
}

#[test]
fn list_without_terminator_is_refused() {
    fails(b"l", DecodeErrorKind::UnterminatedList, 1);
}

#[test]
fn encode_gives_the_bytes_back() {
    let input = b"d3:cow3:moo4:spaml4:eggsi-7eee";
    let (value, consumed) = decode(input).unwrap();
    assert_eq!(consumed, input.len());
    assert_eq!(encode(&value), input.to_vec());
}
