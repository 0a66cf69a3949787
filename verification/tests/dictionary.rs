use bencode::{bytes_equal, bytes_less, Dictionary, Value};

#[test]
fn a_new_dictionary_is_empty() {
    let dict = Dictionary::new();
    assert!(dict.is_empty());
    assert_eq!(dict.len(), 0);
    assert!(dict.entries().is_empty());
    assert_eq!(dict.get(b"a"), None);
}

#[test]
fn insert_binds_a_key() {
    let mut dict = Dictionary::new();
    assert_eq!(dict.insert(b"a".to_vec(), Value::Integer(1)), None);
    assert!(!dict.is_empty());
    assert_eq!(dict.len(), 1);
    assert_eq!(dict.get(b"a"), Some(&Value::Integer(1)));
    assert_eq!(dict.get(b"b"), None);
    assert_eq!(dict.get(b""), None);
}

#[test]
fn insert_replaces_and_gives_the_old_value_back() {
    let mut dict = Dictionary::new();
    dict.insert(b"a".to_vec(), Value::Integer(1));
    dict.insert(b"b".to_vec(), Value::Integer(2));
    assert_eq!(dict.insert(b"a".to_vec(), Value::Integer(3)), Some(Value::Integer(1)));
    assert_eq!(dict.len(), 2);
    assert_eq!(dict.get(b"a"), Some(&Value::Integer(3)));
    assert_eq!(dict.get(b"b"), Some(&Value::Integer(2)));
}

#[test]
fn entries_come_in_key_order() {
    let mut dict = Dictionary::new();
    dict.insert(b"m".to_vec(), Value::Integer(2));
    dict.insert(b"z".to_vec(), Value::Integer(3));
    dict.insert(b"a".to_vec(), Value::Integer(1));
    dict.insert(b"mm".to_vec(), Value::Integer(4));
    let keys: Vec<&[u8]> = dict.entries().iter().map(|entry| entry.0.as_slice()).collect();
    let expected: Vec<&[u8]> = vec![b"a", b"m", b"mm", b"z"];
    assert_eq!(keys, expected);
    let values: Vec<&Value> = dict.entries().iter().map(|entry| &entry.1).collect();
    assert_eq!(
        values,
        vec![&Value::Integer(1), &Value::Integer(2), &Value::Integer(4), &Value::Integer(3)]
    );
}

#[test]
fn dictionaries_with_the_same_entries_are_equal() {
    let mut one = Dictionary::new();
    one.insert(b"x".to_vec(), Value::Integer(1));
    one.insert(b"y".to_vec(), Value::Integer(2));
    let mut other = Dictionary::new();
    other.insert(b"y".to_vec(), Value::Integer(2));
    other.insert(b"x".to_vec(), Value::Integer(1));
    assert_eq!(one, other);
    other.insert(b"y".to_vec(), Value::Integer(3));
    assert_ne!(one, other);
}

#[test]
fn a_copy_is_equal_and_independent() {
    let mut dict = Dictionary::new();
    dict.insert(b"k".to_vec(), Value::List(vec![Value::ByteString(b"v".to_vec())]));
    let value = Value::Dictionary(dict);
    let copy = value.clone();
    assert_eq!(copy, value);
    assert_eq!(value.duplicate(), value);
    match copy {
        Value::Dictionary(mut inner) => {
            inner.insert(b"k".to_vec(), Value::Integer(0));
            assert_ne!(Value::Dictionary(inner), value);
        }
        other => panic!("not a dictionary: {:?}", other),
    }
}

#[test]
fn byte_strings_are_ordered_lexicographically() {
    assert!(bytes_less(b"", b"a"));
    assert!(bytes_less(b"a", b"aa"));
    assert!(bytes_less(b"a", b"b"));
    assert!(bytes_less(b"ab", b"b"));
    assert!(bytes_less(b"\x7f", b"\x80"));
    assert!(bytes_less(b"Z", b"a"));
    assert!(!bytes_less(b"a", b"a"));
    assert!(!bytes_less(b"", b""));
    assert!(!bytes_less(b"b", b"ab"));
    assert!(!bytes_less(b"aa", b"a"));
}

#[test]
fn byte_strings_are_equal_when_all_bytes_are() {
    assert!(bytes_equal(b"", b""));
    assert!(bytes_equal(b"abc", b"abc"));
    assert!(!bytes_equal(b"abc", b"abd"));
    assert!(!bytes_equal(b"abc", b"ab"));
    assert!(!bytes_equal(b"", b"\0"));
}
