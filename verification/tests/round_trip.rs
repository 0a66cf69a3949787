use bencode::{decode, encode, Dictionary, Value};

/// A small deterministic generator, so that a failure can be reproduced.
struct Source {
    state: u64,
}

impl Source {
    fn next(&mut self) -> u64 {
        self.state = self.state.wrapping_mul(6364136223846793005).wrapping_add(1442695040888963407);
        self.state >> 33
    }

    fn below(&mut self, bound: u64) -> u64 {
        self.next() % bound
    }

    fn bytes(&mut self, longest: u64) -> Vec<u8> {
        let len = self.below(longest + 1);
        (0..len).map(|_| self.below(256) as u8).collect()
    }

    fn integer(&mut self) -> i64 {
        match self.below(6) {
            0 => 0,
            1 => i64::MAX,
            2 => i64::MIN,
            3 => -(self.below(1000) as i64),
            4 => self.below(1000) as i64,
            _ => ((self.next() << 33) ^ (self.next() << 11) ^ self.next()) as i64,
        }
    }

    fn value(&mut self, depth: u32) -> Value {
        let kinds = if depth == 0 { 2 } else { 4 };
        match self.below(kinds) {
            0 => Value::Integer(self.integer()),
            1 => Value::ByteString(self.bytes(12)),
            2 => {
                let len = self.below(5);
                Value::List((0..len).map(|_| self.value(depth - 1)).collect())
            }
            _ => {
                let len = self.below(5);
                let mut dict = Dictionary::new();
                for _ in 0..len {
                    let key = self.bytes(3);
                    let value = self.value(depth - 1);
                    dict.insert(key, value);
                }
                Value::Dictionary(dict)
            }
        }
    }
}

#[test]
fn generated_values_survive_the_round_trip() {
    let mut source = Source { state: 2024 };
    for round in 0..2000 {
        let value = source.value(round % 6);
        let bytes = encode(&value);
        let decoded = decode(&bytes);
        assert_eq!(decoded, Ok((value, bytes.len())), "round {}", round);
    }
}

#[test]
fn encoding_again_gives_the_same_bytes() {
    let mut source = Source { state: 77 };
    for round in 0..1000 {
        let value = source.value(round % 5);
        let bytes = encode(&value);
        let (decoded, _) = decode(&bytes).unwrap();
        assert_eq!(encode(&decoded), bytes, "round {}", round);
    }
}

#[test]
fn the_round_trip_leaves_what_follows_alone() {
    let mut source = Source { state: 5 };
    for round in 0..500 {
        let value = source.value(round % 4);
        let mut bytes = encode(&value);
        let own = bytes.len();
        bytes.extend(source.bytes(8));
        assert_eq!(decode(&bytes), Ok((value, own)), "round {}", round);
    }
}

#[test]
fn whatever_decodes_is_canonical() {
    let alphabet = b"ilde0123456789:-a";
    let mut source = Source { state: 99 };
    let mut accepted = 0;
    for _ in 0..20000 {
        let len = source.below(12) as usize;
        let input: Vec<u8> =
            (0..len).map(|_| alphabet[source.below(alphabet.len() as u64) as usize]).collect();
        match decode(&input) {
            Ok((value, consumed)) => {
                accepted += 1;
                assert!(0 < consumed && consumed <= input.len());
                assert_eq!(encode(&value), input[..consumed].to_vec());
            }
            Err(error) => assert!(error.offset <= input.len()),
        }
    }
    assert!(accepted > 100);
}

#[test]
fn a_truncated_encoding_is_refused() {
    let mut source = Source { state: 31 };
    for round in 0..300 {
        let value = source.value(1 + round % 4);
        let bytes = encode(&value);
        for cut in 0..bytes.len() {
            assert!(decode(&bytes[..cut]).is_err(), "round {} cut {}", round, cut);
        }
    }
}

#[test]
fn the_examples_survive_the_round_trip() {
    let inputs: [&[u8]; 8] = [
        b"0:",
        b"4:spam",
        b"i3e",
        b"i-42e",
        b"l4:spami42ee",
        b"d3:cow3:moo4:spam4:eggse",
        b"le",
        b"de",
    ];
    for input in inputs.iter() {
        let (value, consumed) = decode(input).unwrap();
        assert_eq!(consumed, input.len());
        assert_eq!(encode(&value), input.to_vec());
    }
}
