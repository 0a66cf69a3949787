//! The encoder: the canonical byte sequence of a value.
use vstd::prelude::*;
use crate::numeral::{integer_text, numeral, push_integer, push_numeral};
use crate::tag::{COLON, DICTIONARY, END, INTEGER, LIST};
use crate::value::{
    lemma_view_entries, lemma_view_items, view_entries, view_items, Tree, Value,
};

verus! {

/// The encoding of a byte string: the numeral of its length, a colon, and the
/// bytes as they are.
pub open spec fn byte_string_encoding(bytes: Seq<u8>) -> Seq<u8> {
    numeral(bytes.len()) + seq![COLON] + bytes
}

impl Tree {
    /// The canonical encoding of the tree.
    ///
    /// * An integer: `i`, its text, `e`.
    /// * A byte string: its length, `:`, its bytes.
    /// * A list: `l`, the encodings of the children in order, `e`.
    /// * A dictionary: `d`, for each entry in order the encoding of the key as
    ///   a byte string and the encoding of the value, `e`.
    pub open spec fn encoding(self) -> Seq<u8>
        decreases self,
    {
        match self {
            Tree::Integer(n) => seq![INTEGER] + integer_text(n) + seq![END],
            Tree::ByteString(bytes) => byte_string_encoding(bytes),
            Tree::List(items) => seq![LIST] + Self::items_encoding(items) + seq![END],
            Tree::Dictionary(entries) => seq![DICTIONARY] + Self::entries_encoding(entries)
                + seq![END],
        }
    }

    /// The encodings of `items`, one after the other.
    pub open spec fn items_encoding(items: Seq<Tree>) -> Seq<u8>
        decreases items,
    {
        if items.len() == 0 {
            Seq::empty()
        } else {
            items[0].encoding() + Self::items_encoding(items.skip(1))
        }
    }

    /// The encodings of `entries`, one after the other: of each the key, as a
    /// byte string, and then the value.
    pub open spec fn entries_encoding(entries: Seq<(Seq<u8>, Tree)>) -> Seq<u8>
        decreases entries,
    {
        if entries.len() == 0 {
            Seq::empty()
        } else {
            byte_string_encoding(entries[0].0) + entries[0].1.encoding() + Self::entries_encoding(
                entries.skip(1),
            )
        }
    }
}

/// The encoding of items followed by one more is the encoding of the items
/// followed by that of the one.
pub proof fn lemma_items_encoding_push(items: Seq<Tree>, last: Tree)
    ensures
        Tree::items_encoding(items.push(last)) == Tree::items_encoding(items) + last.encoding(),
    decreases items.len(),
{
    let all = items.push(last);
    if items.len() == 0 {
        assert(all.skip(1) =~= Seq::<Tree>::empty());
        assert(Tree::items_encoding(all.skip(1)) == Seq::<u8>::empty());
        assert(Tree::items_encoding(all) =~= last.encoding());
    } else {
        lemma_items_encoding_push(items.skip(1), last);
        assert(all.skip(1) =~= items.skip(1).push(last));
        assert(Tree::items_encoding(all) =~= Tree::items_encoding(items) + last.encoding());
    }
}

/// The encoding of entries followed by one more is the encoding of the entries
/// followed by that of the one.
pub proof fn lemma_entries_encoding_push(entries: Seq<(Seq<u8>, Tree)>, last: (Seq<u8>, Tree))
    ensures
        Tree::entries_encoding(entries.push(last)) == Tree::entries_encoding(entries)
            + byte_string_encoding(last.0) + last.1.encoding(),
    decreases entries.len(),
{
    let all = entries.push(last);
    if entries.len() == 0 {
        assert(all.skip(1) =~= Seq::<(Seq<u8>, Tree)>::empty());
        assert(Tree::entries_encoding(all.skip(1)) == Seq::<u8>::empty());
        assert(Tree::entries_encoding(all) =~= byte_string_encoding(last.0) + last.1.encoding());
    } else {
        lemma_entries_encoding_push(entries.skip(1), last);
        assert(all.skip(1) =~= entries.skip(1).push(last));
        assert(Tree::entries_encoding(all) =~= Tree::entries_encoding(entries)
            + byte_string_encoding(last.0) + last.1.encoding());
    }
}

/// Appends the encoding of the byte string `bytes` to `out`.
pub fn encode_bytes_into(bytes: &[u8], out: &mut Vec<u8>)
    ensures
        final(out)@ == old(out)@ + byte_string_encoding(bytes@),
{
    let ghost before = out@;
    push_numeral(out, bytes.len() as u64);
    out.push(COLON);
    let mut i: usize = 0;
    while i < bytes.len()
        invariant
            i <= bytes.len(),
            out@ == before + numeral(bytes@.len()) + seq![COLON] + bytes@.take(i as int),
        decreases bytes.len() - i,
    {
        out.push(bytes[i]);
        proof {
            assert(bytes@.take(i + 1) =~= bytes@.take(i as int).push(bytes@[i as int]));
        }
        i += 1;
    }
    proof {
        assert(bytes@.take(bytes@.len() as int) =~= bytes@);
    }
}

/// Appends the canonical encoding of `value` to `out`.
///
/// The value is well formed, as every value is: its dictionaries keep their
/// keys in ascending order.
#[verifier::loop_isolation(false)]
pub fn encode_into(value: &Value, out: &mut Vec<u8>)
    ensures
        final(out)@ == old(out)@ + value@.encoding(),
        value@.well_formed(),
    decreases value,
{
    let ghost before = out@;
    match value {
        Value::Integer(n) => {
            out.push(INTEGER);
            push_integer(out, *n);
            out.push(END);
            proof {
                assert(out@ =~= before + value@.encoding());
            }
        },
        Value::ByteString(bytes) => {
            encode_bytes_into(bytes.as_slice(), out);
        },
        Value::List(items) => {
            out.push(LIST);
            let ghost trees = view_items(items@);
            proof {
                lemma_view_items(items@);
                assert(trees.take(0) =~= Seq::<Tree>::empty());
            }
            let mut i: usize = 0;
            while i < items.len()
                invariant
                    i <= items.len(),
                    trees == view_items(items@),
                    trees.len() == items.len(),
                    forall|j: int| 0 <= j < items.len() ==> #[trigger] trees[j] == items@[j]@,
                    out@ == before + seq![LIST] + Tree::items_encoding(trees.take(i as int)),
                    forall|j: int| 0 <= j < i ==> (#[trigger] trees[j]).well_formed(),
                decreases items.len() - i,
            {
                encode_into(&items[i], out);
                proof {
                    lemma_items_encoding_push(trees.take(i as int), trees[i as int]);
                    assert(trees.take(i + 1) =~= trees.take(i as int).push(trees[i as int]));
                }
                i += 1;
            }
            out.push(END);
            proof {
                assert(trees.take(items.len() as int) =~= trees);
                assert(out@ =~= before + value@.encoding());
            }
        },
        Value::Dictionary(dict) => {
            out.push(DICTIONARY);
            let entries = dict.entries();
            let ghost pairs = view_entries(entries@);
            proof {
                lemma_view_entries(entries@);
                assert(pairs.take(0) =~= Seq::<(Seq<u8>, Tree)>::empty());
            }
            let mut i: usize = 0;
            while i < entries.len()
                invariant
                    i <= entries.len(),
                    pairs == view_entries(entries@),
                    pairs.len() == entries.len(),
                    forall|j: int|
                        0 <= j < entries.len() ==> #[trigger] pairs[j] == (
                            entries@[j].0@,
                            entries@[j].1@,
                        ),
                    out@ == before + seq![DICTIONARY] + Tree::entries_encoding(
                        pairs.take(i as int),
                    ),
                    forall|j: int| 0 <= j < i ==> (#[trigger] pairs[j]).1.well_formed(),
                decreases entries.len() - i,
            {
                encode_bytes_into(entries[i].0.as_slice(), out);
                encode_into(&entries[i].1, out);
                proof {
                    lemma_entries_encoding_push(pairs.take(i as int), pairs[i as int]);
                    assert(pairs.take(i + 1) =~= pairs.take(i as int).push(pairs[i as int]));
                }
                i += 1;
            }
            out.push(END);
            proof {
                assert(pairs.take(entries.len() as int) =~= pairs);
                assert(out@ =~= before + value@.encoding());
            }
        },
    }
}

/// The canonical encoding of `value`.
///
/// Every value has one, and decoding it gives the value back. The second
/// clause says that the value is well formed, as every value is.
pub fn encode(value: &Value) -> (bytes: Vec<u8>)
    ensures
        bytes@ == value@.encoding(),
        value@.well_formed(),
{
    let mut out: Vec<u8> = Vec::new();
    encode_into(value, &mut out);
    out
}

} // verus!
