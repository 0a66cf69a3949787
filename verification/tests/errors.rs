use bencode::{
    decode, decode_bencoded_value, decode_dict, decode_int, decode_list, decode_string,
    DecodeError, DecodeErrorKind, Value,
};

fn fault(kind: DecodeErrorKind, offset: usize) -> DecodeError {
    DecodeError { kind, offset }
}

fn refused(input: &[u8], kind: DecodeErrorKind, offset: usize) {
    assert_eq!(decode(input), Err(fault(kind, offset)), "input {:?}", input);
}

#[test]
fn empty_input_ends_unexpectedly() {
    refused(b"", DecodeErrorKind::UnexpectedEnd, 0);
}

#[test]
fn length_without_colon_ends_unexpectedly() {
    refused(b"5", DecodeErrorKind::UnexpectedEnd, 1);
    refused(b"12", DecodeErrorKind::UnexpectedEnd, 2);
}

#[test]
fn integer_without_digits_ends_unexpectedly() {
    refused(b"i", DecodeErrorKind::UnexpectedEnd, 1);
    refused(b"i-", DecodeErrorKind::UnexpectedEnd, 2);
}

#[test]
fn dictionary_key_without_value_ends_unexpectedly() {
    refused(b"d1:a", DecodeErrorKind::UnexpectedEnd, 4);
}

#[test]
fn unknown_first_byte_is_an_invalid_tag() {
    refused(b"x", DecodeErrorKind::InvalidTypeTag, 0);
    refused(b"e", DecodeErrorKind::InvalidTypeTag, 0);
    refused(b"-1", DecodeErrorKind::InvalidTypeTag, 0);
    refused(b"li1ex", DecodeErrorKind::InvalidTypeTag, 4);
}

#[test]
fn each_decoder_checks_its_own_tag() {
    assert_eq!(decode_int(b"l", 0), Err(fault(DecodeErrorKind::InvalidTypeTag, 0)));
    assert_eq!(decode_list(b"i1e", 0, 8), Err(fault(DecodeErrorKind::InvalidTypeTag, 0)));
    assert_eq!(decode_dict(b"le", 0, 8), Err(fault(DecodeErrorKind::InvalidTypeTag, 0)));
    assert_eq!(decode_string(b"i1e", 0), Err(fault(DecodeErrorKind::MalformedLength, 0)));
}

#[test]
fn each_decoder_reports_the_end_of_input() {
    assert_eq!(decode_int(b"", 0), Err(fault(DecodeErrorKind::UnexpectedEnd, 0)));
    assert_eq!(decode_list(b"", 0, 8), Err(fault(DecodeErrorKind::UnexpectedEnd, 0)));
    assert_eq!(decode_dict(b"", 0, 8), Err(fault(DecodeErrorKind::UnexpectedEnd, 0)));
    assert_eq!(decode_string(b"", 0), Err(fault(DecodeErrorKind::UnexpectedEnd, 0)));
    assert_eq!(decode_string(b"1:a", 7), Err(fault(DecodeErrorKind::UnexpectedEnd, 3)));
    assert_eq!(
        decode_bencoded_value(b"i1e", 3, 8),
        Err(fault(DecodeErrorKind::UnexpectedEnd, 3))
    );
}

#[test]
fn length_with_leading_zero_is_malformed() {
    refused(b"01:a", DecodeErrorKind::MalformedLength, 0);
    refused(b"00:", DecodeErrorKind::MalformedLength, 0);
}

#[test]
fn length_followed_by_another_byte_is_malformed() {
    refused(b"1x", DecodeErrorKind::MalformedLength, 1);
    refused(b"4spam", DecodeErrorKind::MalformedLength, 1);
    refused(b"l2-ab", DecodeErrorKind::MalformedLength, 2);
}

#[test]
fn length_beyond_the_input_overflows() {
    refused(b"5:abc", DecodeErrorKind::LengthOverflow, 0);
    refused(b"1:", DecodeErrorKind::LengthOverflow, 0);
    refused(b"li1e5:abce", DecodeErrorKind::LengthOverflow, 4);
}

#[test]
fn length_beyond_any_machine_word_overflows() {
    refused(b"18446744073709551616:a", DecodeErrorKind::LengthOverflow, 0);
    refused(b"99999999999999999999999999999999999999:", DecodeErrorKind::LengthOverflow, 0);
}

#[test]
fn integer_without_digits_is_malformed() {
    refused(b"ie", DecodeErrorKind::MalformedInteger, 1);
    refused(b"i-e", DecodeErrorKind::MalformedInteger, 2);
    refused(b"i--1e", DecodeErrorKind::MalformedInteger, 2);
    refused(b"i+1e", DecodeErrorKind::MalformedInteger, 1);
}

#[test]
fn integer_with_redundant_zero_is_malformed() {
    refused(b"i03e", DecodeErrorKind::MalformedInteger, 1);
    refused(b"i00e", DecodeErrorKind::MalformedInteger, 1);
    refused(b"i-0e", DecodeErrorKind::MalformedInteger, 1);
    refused(b"i-03e", DecodeErrorKind::MalformedInteger, 1);
}

#[test]
fn integer_with_a_stray_byte_is_malformed() {
    refused(b"i1x2e", DecodeErrorKind::MalformedInteger, 2);
    refused(b"i12 e", DecodeErrorKind::MalformedInteger, 3);
    refused(b"i1-2e", DecodeErrorKind::MalformedInteger, 2);
}

#[test]
fn integer_beyond_64_bits_is_malformed() {
    refused(b"i9223372036854775808e", DecodeErrorKind::MalformedInteger, 1);
    refused(b"i-9223372036854775809e", DecodeErrorKind::MalformedInteger, 1);
    refused(b"i123456789012345678901234567890e", DecodeErrorKind::MalformedInteger, 1);
}

#[test]
fn integer_at_the_ends_of_the_range_is_read() {
    assert_eq!(decode(b"i9223372036854775807e"), Ok((Value::Integer(i64::MAX), 21)));
    assert_eq!(decode(b"i-9223372036854775808e"), Ok((Value::Integer(i64::MIN), 22)));
    assert_eq!(decode(b"i0e"), Ok((Value::Integer(0), 3)));
    assert_eq!(decode(b"i-1e"), Ok((Value::Integer(-1), 4)));
}

#[test]
fn integer_without_its_end_misses_the_terminator() {
    refused(b"i123", DecodeErrorKind::MissingTerminator, 4);
    refused(b"i-7", DecodeErrorKind::MissingTerminator, 3);
    refused(b"li0", DecodeErrorKind::MissingTerminator, 3);
}

#[test]
fn list_without_its_end_is_unterminated() {
    refused(b"l", DecodeErrorKind::UnterminatedList, 1);
    refused(b"li1e", DecodeErrorKind::UnterminatedList, 4);
    refused(b"ll", DecodeErrorKind::UnterminatedList, 2);
    refused(b"llei1e", DecodeErrorKind::UnterminatedList, 6);
}

#[test]
fn dictionary_without_its_end_is_unterminated() {
    refused(b"d", DecodeErrorKind::UnterminatedDict, 1);
    refused(b"d1:ai1e", DecodeErrorKind::UnterminatedDict, 7);
    refused(b"ld", DecodeErrorKind::UnterminatedDict, 2);
}

#[test]
fn key_that_is_no_byte_string_has_invalid_type() {
    refused(b"di1ei2ee", DecodeErrorKind::InvalidKeyType, 1);
    refused(b"dle", DecodeErrorKind::InvalidKeyType, 1);
    refused(b"dde", DecodeErrorKind::InvalidKeyType, 1);
    refused(b"d1:ai1ei2ei3ee", DecodeErrorKind::InvalidKeyType, 7);
}

#[test]
fn repeated_key_is_a_duplicate() {
    refused(b"d1:ai1e1:ai2ee", DecodeErrorKind::DuplicateKey, 7);
    refused(b"d0:i1e0:i2ee", DecodeErrorKind::DuplicateKey, 6);
}

#[test]
fn descending_key_is_unsorted() {
    refused(b"d1:bi1e1:ai2ee", DecodeErrorKind::UnsortedKeys, 7);
    refused(b"d2:aai1e1:ai2ee", DecodeErrorKind::UnsortedKeys, 8);
    refused(b"d1:ai1e1:ci1e1:bi1ee", DecodeErrorKind::UnsortedKeys, 13);
}

#[test]
fn keys_compare_byte_by_byte_without_sign() {
    let (value, consumed) = decode(b"d1:\x7fi1e1:\xffi2ee").unwrap();
    assert_eq!(consumed, 14);
    match value {
        Value::Dictionary(dict) => assert_eq!(dict.len(), 2),
        other => panic!("not a dictionary: {:?}", other),
    }
    refused(b"d1:\xffi1e1:\x7fi2ee", DecodeErrorKind::UnsortedKeys, 7);
}

#[test]
fn prefix_comes_before_the_longer_key() {
    assert!(decode(b"d1:ai1e2:aai2ee").is_ok());
    assert!(decode(b"d0:i1e1:ai2ee").is_ok());
}

#[test]
fn fault_in_a_key_is_the_fault_of_the_dictionary() {
    refused(b"d01:ai1ee", DecodeErrorKind::MalformedLength, 1);
    refused(b"d5:ab", DecodeErrorKind::LengthOverflow, 1);
}

#[test]
fn fault_in_a_value_is_the_fault_of_the_dictionary() {
    refused(b"d1:ai03ee", DecodeErrorKind::MalformedInteger, 5);
    refused(b"d1:axe", DecodeErrorKind::InvalidTypeTag, 4);
}

#[test]
fn first_fault_wins() {
    refused(b"li03ei-0ee", DecodeErrorKind::MalformedInteger, 2);
    refused(b"l9:abci03ee", DecodeErrorKind::LengthOverflow, 1);
}

#[test]
fn what_follows_a_value_is_not_looked_at() {
    assert_eq!(decode(b"i3eXYZ"), Ok((Value::Integer(3), 3)));
    assert_eq!(decode(b"0:i03e"), Ok((Value::ByteString(vec![]), 2)));
    assert_eq!(decode(b"lee"), Ok((Value::List(vec![]), 2)));
}

#[test]
fn decoding_starts_at_the_given_position() {
    let input = b"xxi42e4:spam";
    assert_eq!(decode_int(input, 2), Ok((42, 6)));
    assert_eq!(decode_string(input, 6), Ok((b"spam".to_vec(), 12)));
    assert_eq!(decode_bencoded_value(input, 2, 0), Ok((Value::Integer(42), 6)));
    assert_eq!(
        decode_bencoded_value(input, 0, 0),
        Err(fault(DecodeErrorKind::InvalidTypeTag, 0))
    );
}

#[test]
fn every_kind_has_its_name() {
    assert_eq!(DecodeErrorKind::UnexpectedEnd.name(), "UnexpectedEnd");
    assert_eq!(DecodeErrorKind::InvalidTypeTag.name(), "InvalidTypeTag");
    assert_eq!(DecodeErrorKind::MalformedLength.name(), "MalformedLength");
    assert_eq!(DecodeErrorKind::LengthOverflow.name(), "LengthOverflow");
    assert_eq!(DecodeErrorKind::MalformedInteger.name(), "MalformedInteger");
    assert_eq!(DecodeErrorKind::MissingTerminator.name(), "MissingTerminator");
    assert_eq!(DecodeErrorKind::UnterminatedList.name(), "UnterminatedList");
    assert_eq!(DecodeErrorKind::UnterminatedDict.name(), "UnterminatedDict");
    assert_eq!(DecodeErrorKind::InvalidKeyType.name(), "InvalidKeyType");
    assert_eq!(DecodeErrorKind::DuplicateKey.name(), "DuplicateKey");
    assert_eq!(DecodeErrorKind::UnsortedKeys.name(), "UnsortedKeys");
    assert_eq!(DecodeErrorKind::DepthExceeded.name(), "DepthExceeded");
}
