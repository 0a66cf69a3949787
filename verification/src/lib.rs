//! A codec for bencode: a compact, self-delimiting, binary-safe format for
//! integers, byte strings, lists and dictionaries keyed by byte strings.
//!
//! The crate is built around a mathematical model of the format:
//!
//! * [`Tree`] is the abstract value tree, and [`Tree::encoding`] its unique
//!   canonical byte sequence;
//! * [`parse_value`] is the grammar: for every input it names either the tree
//!   and the position just past it, or the kind and offset of the first fault.
//!
//! The executable [`encode`] and [`decode`] are proved to compute exactly
//! these functions. The module [`laws`] states, and [`canon`] proves, that the
//! two are inverse to each other: what was encoded decodes to itself, and
//! nothing but a canonical encoding decodes at all.
pub mod canon;
pub mod decode;
pub mod encode;
pub mod error;
pub mod grammar;
pub mod laws;
pub mod numeral;
pub mod order;
pub mod tag;
pub mod value;

pub use decode::{
    decode, decode_bencoded_value, decode_dict, decode_int, decode_list, decode_string, DEPTH_LIMIT,
};
pub use encode::{byte_string_encoding, encode, encode_bytes_into, encode_into};
pub use error::{DecodeError, DecodeErrorKind, Fault};
pub use grammar::{
    parse_byte_string, parse_dictionary, parse_entries, parse_integer, parse_items, parse_list,
    parse_value, Parsed,
};
pub use order::{bytes_equal, bytes_less, lex_less};
pub use value::{keys_ascend, Dictionary, Tree, Value};
