use bencode::{
    decode, decode_bencoded_value, decode_dict, decode_list, encode, DecodeError, DecodeErrorKind,
    Dictionary, Value, DEPTH_LIMIT,
};

fn nested_lists(depth: usize) -> Vec<u8> {
    let mut bytes = vec![b'l'; depth];
    bytes.extend(vec![b'e'; depth]);
    bytes
}

fn nested_value(depth: usize) -> Value {
    let mut value = Value::List(vec![]);
    for _ in 1..depth {
        value = Value::List(vec![value]);
    }
    value
}

#[test]
fn the_limit_is_512() {
    assert_eq!(DEPTH_LIMIT, 512);
}

#[test]
fn lists_nested_to_the_limit_are_read() {
    let input = nested_lists(DEPTH_LIMIT);
    assert_eq!(decode(&input), Ok((nested_value(DEPTH_LIMIT), 2 * DEPTH_LIMIT)));
}

#[test]
fn lists_nested_beyond_the_limit_are_refused() {
    let input = nested_lists(DEPTH_LIMIT + 1);
    assert_eq!(
        decode(&input),
        Err(DecodeError { kind: DecodeErrorKind::DepthExceeded, offset: DEPTH_LIMIT })
    );
}

#[test]
fn depth_is_checked_before_the_end_of_input() {
    let input = vec![b'l'; 10_000];
    assert_eq!(
        decode(&input),
        Err(DecodeError { kind: DecodeErrorKind::DepthExceeded, offset: DEPTH_LIMIT })
    );
}

#[test]
fn dictionaries_count_towards_the_depth() {
    let mut input = Vec::new();
    for _ in 0..DEPTH_LIMIT {
        input.extend_from_slice(b"d1:a");
    }
    input.extend_from_slice(b"le");
    input.extend(vec![b'e'; DEPTH_LIMIT]);
    assert_eq!(
        decode(&input),
        Err(DecodeError { kind: DecodeErrorKind::DepthExceeded, offset: 4 * DEPTH_LIMIT })
    );
}

#[test]
fn integers_and_byte_strings_have_no_depth() {
    assert_eq!(decode_bencoded_value(b"i1e", 0, 0), Ok((Value::Integer(1), 3)));
    assert_eq!(decode_bencoded_value(b"1:a", 0, 0), Ok((Value::ByteString(vec![b'a']), 3)));
}

#[test]
fn a_container_needs_a_budget_of_one() {
    let refused = Err(DecodeError { kind: DecodeErrorKind::DepthExceeded, offset: 0 });
    assert_eq!(decode_bencoded_value(b"le", 0, 0), refused);
    assert_eq!(decode_list(b"le", 0, 0), Err(DecodeError {
        kind: DecodeErrorKind::DepthExceeded,
        offset: 0,
    }));
    assert_eq!(decode_dict(b"de", 0, 0), Err(DecodeError {
        kind: DecodeErrorKind::DepthExceeded,
        offset: 0,
    }));
    assert_eq!(decode_bencoded_value(b"le", 0, 1), Ok((Value::List(vec![]), 2)));
    assert_eq!(decode_list(b"le", 0, 1), Ok((vec![], 2)));
    assert_eq!(decode_dict(b"de", 0, 1), Ok((Dictionary::new(), 2)));
}

#[test]
fn an_inner_container_needs_one_more() {
    assert_eq!(
        decode_bencoded_value(b"llee", 0, 1),
        Err(DecodeError { kind: DecodeErrorKind::DepthExceeded, offset: 1 })
    );
    assert_eq!(
        decode_bencoded_value(b"llee", 0, 2),
        Ok((Value::List(vec![Value::List(vec![])]), 4))
    );
    assert_eq!(
        decode_bencoded_value(b"lleli1eee", 0, 2),
        Ok((Value::List(vec![Value::List(vec![]), Value::List(vec![Value::Integer(1)])]), 9))
    );
}

#[test]
fn a_value_deeper_than_the_limit_is_encoded_and_then_refused() {
    let value = nested_value(DEPTH_LIMIT + 1);
    let bytes = encode(&value);
    assert_eq!(bytes, nested_lists(DEPTH_LIMIT + 1));
    assert_eq!(
        decode(&bytes),
        Err(DecodeError { kind: DecodeErrorKind::DepthExceeded, offset: DEPTH_LIMIT })
    );
    assert_eq!(decode_bencoded_value(&bytes, 0, DEPTH_LIMIT + 1), Ok((value, bytes.len())));
}
