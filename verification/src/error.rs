//! What can be wrong with an input, and where.
use vstd::prelude::*;

verus! {

/// The ways in which an input can fail to be a bencode value.
#[derive(Clone, Copy, Debug, PartialEq, Eq, Structural)]
pub enum DecodeErrorKind {
    /// The input ends where a value was expected, or in the middle of a length
    /// or of an integer before any digit of it was read.
    UnexpectedEnd,
    /// A value starts with a byte that opens none of the four kinds.
    InvalidTypeTag,
    /// The length of a byte string has no digit or a leading zero, or is
    /// followed by something other than a colon.
    MalformedLength,
    /// A byte string declares more bytes than the input has left.
    LengthOverflow,
    /// An integer has no digits, a leading zero, a negative zero, a byte that
    /// is no digit, or does not fit in 64 bits.
    MalformedInteger,
    /// The input ends after the digits of an integer, before its `e`.
    MissingTerminator,
    /// The input ends inside a list.
    UnterminatedList,
    /// The input ends inside a dictionary, where a key or `e` was expected.
    UnterminatedDict,
    /// A dictionary key is not a byte string.
    InvalidKeyType,
    /// A dictionary key is the same as the key before it.
    DuplicateKey,
    /// A dictionary key comes before the key that precedes it.
    UnsortedKeys,
    /// Lists and dictionaries nest more deeply than the limit allows.
    DepthExceeded,
}

impl DecodeErrorKind {
    /// The name of the kind, as it is written in this enum.
    pub open spec fn spec_name(self) -> Seq<char> {
        match self {
            DecodeErrorKind::UnexpectedEnd => "UnexpectedEnd"@,
            DecodeErrorKind::InvalidTypeTag => "InvalidTypeTag"@,
            DecodeErrorKind::MalformedLength => "MalformedLength"@,
            DecodeErrorKind::LengthOverflow => "LengthOverflow"@,
            DecodeErrorKind::MalformedInteger => "MalformedInteger"@,
            DecodeErrorKind::MissingTerminator => "MissingTerminator"@,
            DecodeErrorKind::UnterminatedList => "UnterminatedList"@,
            DecodeErrorKind::UnterminatedDict => "UnterminatedDict"@,
            DecodeErrorKind::InvalidKeyType => "InvalidKeyType"@,
            DecodeErrorKind::DuplicateKey => "DuplicateKey"@,
            DecodeErrorKind::UnsortedKeys => "UnsortedKeys"@,
            DecodeErrorKind::DepthExceeded => "DepthExceeded"@,
        }
    }

    /// The name of the kind, for a message.
    pub fn name(&self) -> (text: &'static str)
        ensures
            text@ == self.spec_name(),
    {
        match self {
            DecodeErrorKind::UnexpectedEnd => "UnexpectedEnd",
            DecodeErrorKind::InvalidTypeTag => "InvalidTypeTag",
            DecodeErrorKind::MalformedLength => "MalformedLength",
            DecodeErrorKind::LengthOverflow => "LengthOverflow",
            DecodeErrorKind::MalformedInteger => "MalformedInteger",
            DecodeErrorKind::MissingTerminator => "MissingTerminator",
            DecodeErrorKind::UnterminatedList => "UnterminatedList",
            DecodeErrorKind::UnterminatedDict => "UnterminatedDict",
            DecodeErrorKind::InvalidKeyType => "InvalidKeyType",
            DecodeErrorKind::DuplicateKey => "DuplicateKey",
            DecodeErrorKind::UnsortedKeys => "UnsortedKeys",
            DecodeErrorKind::DepthExceeded => "DepthExceeded",
        }
    }
}

/// A failure to decode: its kind and the offset of the byte at which it was
/// found.
#[derive(Clone, Copy, Debug, PartialEq, Eq, Structural)]
pub struct DecodeError {
    /// What is wrong.
    pub kind: DecodeErrorKind,
    /// Where: an offset into the input, at most its length.
    pub offset: usize,
}

/// The mathematical counterpart of a [`DecodeError`]: the kind of a fault and
/// its position.
pub struct Fault {
    /// What is wrong.
    pub kind: DecodeErrorKind,
    /// Where.
    pub at: int,
}

impl View for DecodeError {
    type V = Fault;

    open spec fn view(&self) -> Fault {
        Fault { kind: self.kind, at: self.offset as int }
    }
}

} // verus!
