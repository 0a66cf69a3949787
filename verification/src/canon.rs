//! Why the grammar and the canonical encoding agree: what the grammar reads is
//! the encoding of what it gives, and the encoding of a tree is read as that
//! tree.
use vstd::prelude::*;
use crate::encode::byte_string_encoding;
use crate::error::Fault;
use crate::grammar::{parse_byte_string, parse_entries, parse_integer, parse_items, parse_value};
use crate::numeral::{
    digits_end, integer_text, is_digit, is_numeral, lemma_digits_end, lemma_digits_end_is,
    lemma_numeral_is_numeral, lemma_numeral_value, lemma_value_numeral, lemma_value_positive,
    numeral, numeral_value,
};
use crate::order::{lemma_lex_less_irreflexive, lemma_lex_less_transitive, lex_less};
use crate::tag::{COLON, DICTIONARY, END, INTEGER, LIST, MINUS};
use crate::value::{keys_ascend, lemma_deepest, lemma_deepest_entry, Tree};

verus! {

/// `text` stands in `bytes` at `pos`.
pub open spec fn holds_at(bytes: Seq<u8>, pos: int, text: Seq<u8>) -> bool {
    &&& 0 <= pos
    &&& pos + text.len() <= bytes.len()
    &&& bytes.subrange(pos, pos + text.len()) == text
}

/// Where a text stands, each of its bytes stands.
pub proof fn lemma_holds_at_index(bytes: Seq<u8>, pos: int, text: Seq<u8>)
    requires
        holds_at(bytes, pos, text),
    ensures
        forall|i: int| 0 <= i < text.len() ==> bytes[pos + i] == #[trigger] text[i],
{
    assert forall|i: int| 0 <= i < text.len() implies bytes[pos + i] == #[trigger] text[i] by {
        assert(bytes.subrange(pos, pos + text.len())[i] == bytes[pos + i]);
    }
}

/// Where two texts stand one after the other, the first stands and then the
/// second.
pub proof fn lemma_holds_at_split(bytes: Seq<u8>, pos: int, first: Seq<u8>, second: Seq<u8>)
    requires
        holds_at(bytes, pos, first + second),
    ensures
        holds_at(bytes, pos, first),
        holds_at(bytes, pos + first.len(), second),
{
    lemma_holds_at_index(bytes, pos, first + second);
    assert(bytes.subrange(pos, pos + first.len()) =~= first) by {
        assert forall|i: int| 0 <= i < first.len() implies bytes[pos + i] == first[i] by {
            assert((first + second)[i] == first[i]);
        }
    }
    assert(bytes.subrange(pos + first.len(), pos + first.len() + second.len()) =~= second) by {
        assert forall|i: int| 0 <= i < second.len() implies bytes[pos + first.len() + i]
            == second[i] by {
            assert((first + second)[first.len() + i] == second[i]);
        }
    }
}

/// Where one text stands and a second right after it, the two stand as one.
pub proof fn lemma_holds_at_join(bytes: Seq<u8>, pos: int, first: Seq<u8>, second: Seq<u8>)
    requires
        holds_at(bytes, pos, first),
        holds_at(bytes, pos + first.len(), second),
    ensures
        holds_at(bytes, pos, first + second),
{
    lemma_holds_at_index(bytes, pos, first);
    lemma_holds_at_index(bytes, pos + first.len(), second);
    assert(bytes.subrange(pos, pos + (first + second).len()) =~= first + second) by {
        assert forall|i: int| 0 <= i < (first + second).len() implies bytes[pos + i] == (first
            + second)[i] by {
            if i < first.len() {
                assert(first[i] == bytes[pos + i]);
            } else {
                assert(second[i - first.len()] == bytes[pos + first.len() + (i - first.len())]);
            }
        }
    }
}

/// A byte string that the grammar reads stands in the input in its canonical
/// encoding.
pub proof fn lemma_byte_string_sound(bytes: Seq<u8>, pos: int)
    requires
        0 <= pos,
        parse_byte_string(bytes, pos) is Ok,
    ensures
        ({
            let (string, end) = parse_byte_string(bytes, pos)->Ok_0;
            &&& end == pos + byte_string_encoding(string).len()
            &&& holds_at(bytes, pos, byte_string_encoding(string))
        }),
{
    let (string, stop) = parse_byte_string(bytes, pos)->Ok_0;
    let end = digits_end(bytes, pos);
    lemma_digits_end(bytes, pos);
    let text = bytes.subrange(pos, end);
    assert(is_digit(bytes[pos]));
    assert(end > pos);
    assert(is_numeral(text)) by {
        assert forall|i: int| 0 <= i < text.len() implies is_digit(#[trigger] text[i]) by {
            assert(text[i] == bytes[pos + i]);
        }
        assert(text[0] == bytes[pos]);
    }
    lemma_value_numeral(text);
    let n = numeral_value(text);
    assert(string.len() == n);
    assert(bytes.subrange(pos, stop) =~= byte_string_encoding(string));
}

/// The canonical encoding of a byte string, wherever it stands, is read as
/// that byte string.
pub proof fn lemma_byte_string_complete(bytes: Seq<u8>, pos: int, string: Seq<u8>)
    requires
        holds_at(bytes, pos, byte_string_encoding(string)),
    ensures
        parse_byte_string(bytes, pos) == Ok::<(Seq<u8>, int), Fault>(
            (string, pos + byte_string_encoding(string).len()),
        ),
{
    let n = string.len();
    let text = numeral(n);
    lemma_numeral_is_numeral(n);
    lemma_numeral_value(n);
    lemma_holds_at_split(bytes, pos, text + seq![COLON], string);
    lemma_holds_at_split(bytes, pos, text, seq![COLON]);
    lemma_holds_at_index(bytes, pos, text);
    lemma_holds_at_index(bytes, pos + text.len(), seq![COLON]);
    let end = pos + text.len();
    assert(bytes[end] == COLON) by {
        assert(seq![COLON][0] == COLON);
        assert(bytes[pos + text.len() + 0] == seq![COLON][0]);
    }
    assert forall|i: int| pos <= i < end implies is_digit(#[trigger] bytes[i]) by {
        assert(bytes[pos + (i - pos)] == text[i - pos]);
    }
    lemma_digits_end_is(bytes, pos, end);
    assert(bytes[pos + 0] == text[0]);
    assert(bytes.subrange(pos, end) =~= text);
    assert((text + seq![COLON]).len() == text.len() + 1);
}

/// An integer that the grammar reads stands in the input in its canonical
/// encoding.
pub proof fn lemma_integer_sound(bytes: Seq<u8>, pos: int)
    requires
        0 <= pos,
        parse_integer(bytes, pos) is Ok,
    ensures
        ({
            let (number, end) = parse_integer(bytes, pos)->Ok_0;
            let encoding = seq![INTEGER] + integer_text(number) + seq![END];
            &&& end == pos + encoding.len()
            &&& holds_at(bytes, pos, encoding)
        }),
{
    let (number, stop) = parse_integer(bytes, pos)->Ok_0;
    let negative = pos + 1 < bytes.len() && bytes[pos + 1] == MINUS;
    let start = if negative { pos + 2 } else { pos + 1 };
    let end = digits_end(bytes, start);
    lemma_digits_end(bytes, start);
    let text = bytes.subrange(start, end);
    assert(is_numeral(text)) by {
        assert forall|i: int| 0 <= i < text.len() implies is_digit(#[trigger] text[i]) by {
            assert(text[i] == bytes[start + i]);
        }
        assert(text[0] == bytes[start]);
    }
    lemma_value_numeral(text);
    if negative {
        lemma_value_positive(text);
    }
    let encoding = seq![INTEGER] + integer_text(number) + seq![END];
    assert(bytes.subrange(pos, stop) =~= encoding);
}

/// The canonical encoding of an integer, wherever it stands, is read as that
/// integer.
pub proof fn lemma_integer_complete(bytes: Seq<u8>, pos: int, number: i64)
    requires
        holds_at(bytes, pos, seq![INTEGER] + integer_text(number) + seq![END]),
    ensures
        parse_integer(bytes, pos) == Ok::<(i64, int), Fault>(
            (number, pos + (seq![INTEGER] + integer_text(number) + seq![END]).len()),
        ),
{
    let magnitude: nat = if number < 0 { (-number) as nat } else { number as nat };
    let text = numeral(magnitude);
    let body = integer_text(number);
    lemma_numeral_is_numeral(magnitude);
    lemma_numeral_value(magnitude);
    lemma_holds_at_split(bytes, pos, seq![INTEGER] + body, seq![END]);
    lemma_holds_at_split(bytes, pos, seq![INTEGER], body);
    lemma_holds_at_index(bytes, pos, seq![INTEGER]);
    lemma_holds_at_index(bytes, pos + 1, body);
    lemma_holds_at_index(bytes, pos + 1 + body.len(), seq![END]);
    assert(bytes[pos] == INTEGER) by {
        assert(bytes[pos + 0] == seq![INTEGER][0]);
    }
    assert(bytes[pos + 1 + body.len()] == END) by {
        assert(bytes[pos + 1 + body.len() + 0] == seq![END][0]);
    }
    assert(bytes[pos + 1] == body[0]) by {
        assert(bytes[pos + 1 + 0] == body[0]);
    }
    let negative = number < 0;
    assert(is_digit(text[0]));
    assert((pos + 1 < bytes.len() && bytes[pos + 1] == MINUS) == negative);
    let start = if negative { pos + 2 } else { pos + 1 };
    let end = pos + 1 + body.len();
    assert(end == start + text.len());
    assert forall|i: int| start <= i < end implies is_digit(#[trigger] bytes[i]) by {
        assert(bytes[pos + 1 + (i - pos - 1)] == body[i - pos - 1]);
        assert(body[i - pos - 1] == text[i - start]);
    }
    lemma_digits_end_is(bytes, start, end);
    assert(bytes.subrange(start, end) =~= text) by {
        assert forall|i: int| 0 <= i < text.len() implies bytes[start + i] == text[i] by {
            assert(bytes[pos + 1 + (start + i - pos - 1)] == body[start + i - pos - 1]);
        }
    }
    assert(bytes[start] == text[0]) by {
        assert(bytes.subrange(start, end)[0] == bytes[start]);
    }
}

/// What holds of items that the grammar has read from `pos` up to `end`: each
/// is well formed and nests at most `budget` deep, and their encodings and the
/// closing `e` are what stands there.
pub open spec fn items_read(bytes: Seq<u8>, pos: int, budget: nat, items: Seq<Tree>, end: int) -> bool {
    &&& forall|i: int| 0 <= i < items.len() ==> (#[trigger] items[i]).well_formed()
    &&& forall|i: int| 0 <= i < items.len() ==> (#[trigger] items[i]).depth() <= budget
    &&& end == pos + Tree::items_encoding(items).len() + 1
    &&& holds_at(bytes, pos, Tree::items_encoding(items) + seq![END])
}

/// What holds of entries that the grammar has read from `pos` up to `end`:
/// their keys ascend, from `previous` on if there is one, each value is well
/// formed and nests at most `budget` deep, and their encodings and the closing
/// `e` are what stands there.
pub open spec fn entries_read(
    bytes: Seq<u8>,
    pos: int,
    budget: nat,
    previous: Option<Seq<u8>>,
    entries: Seq<(Seq<u8>, Tree)>,
    end: int,
) -> bool {
    &&& keys_ascend(entries)
    &&& previous is Some && entries.len() > 0 ==> lex_less(previous->0, entries[0].0)
    &&& forall|i: int| 0 <= i < entries.len() ==> (#[trigger] entries[i]).1.well_formed()
    &&& forall|i: int| 0 <= i < entries.len() ==> (#[trigger] entries[i]).1.depth() <= budget
    &&& end == pos + Tree::entries_encoding(entries).len() + 1
    &&& holds_at(bytes, pos, Tree::entries_encoding(entries) + seq![END])
}

/// What the grammar reads is canonical: a value that it reads at `pos` is well
/// formed, nests at most `budget` deep, spans at least one byte, and its
/// canonical encoding is what stands in the input from `pos` to its end.
pub proof fn lemma_parse_value_sound(bytes: Seq<u8>, pos: int, budget: nat)
    requires
        0 <= pos,
        parse_value(bytes, pos, budget) is Ok,
    ensures
        ({
            let (tree, end) = parse_value(bytes, pos, budget)->Ok_0;
            &&& tree.well_formed()
            &&& tree.depth() <= budget
            &&& end == pos + tree.encoding().len()
            &&& pos < end
            &&& holds_at(bytes, pos, tree.encoding())
        }),
    decreases bytes.len() - pos, 1int,
{
    let (tree, end) = parse_value(bytes, pos, budget)->Ok_0;
    if is_digit(bytes[pos]) {
        lemma_byte_string_sound(bytes, pos);
        lemma_numeral_is_numeral(tree->ByteString_0.len());
    } else if bytes[pos] == INTEGER {
        lemma_integer_sound(bytes, pos);
    } else if bytes[pos] == LIST {
        let items = tree->List_0;
        lemma_parse_items_sound(bytes, pos + 1, (budget - 1) as nat);
        lemma_deepest(items, (budget - 1) as nat);
        let inner = Tree::items_encoding(items) + seq![END];
        assert(holds_at(bytes, pos, seq![LIST])) by {
            assert(bytes.subrange(pos, pos + 1) =~= seq![LIST]);
        }
        lemma_holds_at_join(bytes, pos, seq![LIST], inner);
        assert(seq![LIST] + inner =~= tree.encoding());
    } else {
        let entries = tree->Dictionary_0;
        lemma_parse_entries_sound(bytes, pos + 1, (budget - 1) as nat, None);
        lemma_deepest_entry(entries, (budget - 1) as nat);
        let inner = Tree::entries_encoding(entries) + seq![END];
        assert(holds_at(bytes, pos, seq![DICTIONARY])) by {
            assert(bytes.subrange(pos, pos + 1) =~= seq![DICTIONARY]);
        }
        lemma_holds_at_join(bytes, pos, seq![DICTIONARY], inner);
        assert(seq![DICTIONARY] + inner =~= tree.encoding());
    }
}

/// The items that the grammar reads are canonical, each of them.
pub proof fn lemma_parse_items_sound(bytes: Seq<u8>, pos: int, budget: nat)
    requires
        0 <= pos,
        parse_items(bytes, pos, budget) is Ok,
    ensures
        ({
            let (items, end) = parse_items(bytes, pos, budget)->Ok_0;
            items_read(bytes, pos, budget, items, end)
        }),
    decreases bytes.len() - pos, 2int,
{
    let (items, end) = parse_items(bytes, pos, budget)->Ok_0;
    if bytes[pos] == END {
        assert(Tree::items_encoding(items) + seq![END] =~= seq![END]);
        assert(bytes.subrange(pos, pos + 1) =~= seq![END]);
    } else {
        lemma_parse_value_sound(bytes, pos, budget);
        let (item, next) = parse_value(bytes, pos, budget)->Ok_0;
        lemma_parse_items_sound(bytes, next, budget);
        let (rest, _) = parse_items(bytes, next, budget)->Ok_0;
        assert(items == seq![item] + rest);
        assert(items.skip(1) =~= rest);
        assert(items[0] == item);
        let tail = Tree::items_encoding(rest) + seq![END];
        lemma_holds_at_join(bytes, pos, item.encoding(), tail);
        assert(item.encoding() + tail =~= Tree::items_encoding(items) + seq![END]);
        assert forall|i: int| 0 <= i < items.len() implies (#[trigger] items[i]).well_formed()
            && items[i].depth() <= budget by {
            if i > 0 {
                assert(items[i] == rest[i - 1]);
            }
        }
    }
}

/// The entries that the grammar reads are canonical, each of them, and in key
/// order.
pub proof fn lemma_parse_entries_sound(
    bytes: Seq<u8>,
    pos: int,
    budget: nat,
    previous: Option<Seq<u8>>,
)
    requires
        0 <= pos,
        parse_entries(bytes, pos, budget, previous) is Ok,
    ensures
        ({
            let (entries, end) = parse_entries(bytes, pos, budget, previous)->Ok_0;
            entries_read(bytes, pos, budget, previous, entries, end)
        }),
    decreases bytes.len() - pos, 2int,
{
    let (entries, end) = parse_entries(bytes, pos, budget, previous)->Ok_0;
    if bytes[pos] == END {
        assert(Tree::entries_encoding(entries) + seq![END] =~= seq![END]);
        assert(bytes.subrange(pos, pos + 1) =~= seq![END]);
    } else {
        lemma_byte_string_sound(bytes, pos);
        let (key, after_key) = parse_byte_string(bytes, pos)->Ok_0;
        lemma_parse_value_sound(bytes, after_key, budget);
        let (value, next) = parse_value(bytes, after_key, budget)->Ok_0;
        lemma_parse_entries_sound(bytes, next, budget, Some(key));
        let (rest, _) = parse_entries(bytes, next, budget, Some(key))->Ok_0;
        assert(entries == seq![(key, value)] + rest);
        assert(entries.skip(1) =~= rest);
        assert(entries[0] == (key, value));
        let tail = Tree::entries_encoding(rest) + seq![END];
        lemma_holds_at_join(bytes, after_key, value.encoding(), tail);
        lemma_holds_at_join(bytes, pos, byte_string_encoding(key), value.encoding() + tail);
        assert(byte_string_encoding(key) + (value.encoding() + tail) =~= Tree::entries_encoding(
            entries,
        ) + seq![END]);
        assert forall|i: int| 0 <= i < entries.len() implies (#[trigger] entries[i]).1.well_formed()
            && entries[i].1.depth() <= budget by {
            if i > 0 {
                assert(entries[i] == rest[i - 1]);
            }
        }
        assert forall|i: int, j: int| 0 <= i < j < entries.len() implies lex_less(
            #[trigger] entries[i].0,
            #[trigger] entries[j].0,
        ) by {
            assert(entries[j] == rest[j - 1]);
            if i > 0 {
                assert(entries[i] == rest[i - 1]);
            } else if j > 1 {
                lemma_lex_less_transitive(key, rest[0].0, rest[j - 1].0);
            }
        }
    }
}

/// An encoding is never empty, and its first byte tells the kind of the tree:
/// a digit for a byte string, `i`, `l` or `d` for the others. It is never the
/// `e` that closes a list or a dictionary.
pub proof fn lemma_encoding_first(tree: Tree)
    ensures
        tree.encoding().len() > 0,
        tree is ByteString <==> is_digit(tree.encoding()[0]),
        tree is Integer <==> tree.encoding()[0] == INTEGER,
        tree is List <==> tree.encoding()[0] == LIST,
        tree is Dictionary <==> tree.encoding()[0] == DICTIONARY,
        tree.encoding()[0] != END,
{
    match tree {
        Tree::ByteString(bytes) => {
            lemma_numeral_is_numeral(bytes.len());
            assert(tree.encoding()[0] == numeral(bytes.len())[0]);
        },
        Tree::Integer(number) => {
            assert(tree.encoding()[0] == INTEGER);
        },
        Tree::List(items) => {
            assert(tree.encoding()[0] == LIST);
        },
        Tree::Dictionary(entries) => {
            assert(tree.encoding()[0] == DICTIONARY);
        },
    }
}

/// The canonical encoding of a well-formed tree that nests at most `budget`
/// deep, wherever it stands, is read as that tree.
pub proof fn lemma_value_complete(tree: Tree, bytes: Seq<u8>, pos: int, budget: nat)
    requires
        tree.well_formed(),
        tree.depth() <= budget,
        holds_at(bytes, pos, tree.encoding()),
    ensures
        parse_value(bytes, pos, budget) == Ok::<(Tree, int), Fault>(
            (tree, pos + tree.encoding().len()),
        ),
    decreases tree,
{
    let encoding = tree.encoding();
    lemma_encoding_first(tree);
    lemma_holds_at_index(bytes, pos, encoding);
    assert(bytes[pos] == encoding[0]) by {
        assert(bytes[pos + 0] == encoding[0]);
    }
    match tree {
        Tree::ByteString(string) => {
            lemma_byte_string_complete(bytes, pos, string);
        },
        Tree::Integer(number) => {
            lemma_integer_complete(bytes, pos, number);
        },
        Tree::List(items) => {
            let inner = Tree::items_encoding(items) + seq![END];
            assert(encoding =~= seq![LIST] + inner);
            lemma_holds_at_split(bytes, pos, seq![LIST], inner);
            lemma_deepest(items, (budget - 1) as nat);
            lemma_items_complete(items, bytes, pos + 1, (budget - 1) as nat);
        },
        Tree::Dictionary(entries) => {
            let inner = Tree::entries_encoding(entries) + seq![END];
            assert(encoding =~= seq![DICTIONARY] + inner);
            lemma_holds_at_split(bytes, pos, seq![DICTIONARY], inner);
            lemma_deepest_entry(entries, (budget - 1) as nat);
            lemma_entries_complete(entries, bytes, pos + 1, (budget - 1) as nat, None);
        },
    }
}

/// The encodings of well-formed items and the closing `e`, wherever they
/// stand, are read as those items.
pub proof fn lemma_items_complete(items: Seq<Tree>, bytes: Seq<u8>, pos: int, budget: nat)
    requires
        forall|i: int| 0 <= i < items.len() ==> (#[trigger] items[i]).well_formed(),
        forall|i: int| 0 <= i < items.len() ==> (#[trigger] items[i]).depth() <= budget,
        holds_at(bytes, pos, Tree::items_encoding(items) + seq![END]),
    ensures
        parse_items(bytes, pos, budget) == Ok::<(Seq<Tree>, int), Fault>(
            (items, pos + Tree::items_encoding(items).len() + 1),
        ),
    decreases items,
{
    let text = Tree::items_encoding(items) + seq![END];
    lemma_holds_at_index(bytes, pos, text);
    assert(bytes[pos] == text[0]) by {
        assert(bytes[pos + 0] == text[0]);
    }
    if items.len() == 0 {
        assert(items =~= Seq::<Tree>::empty());
    } else {
        let first = items[0];
        let rest = items.skip(1);
        let tail = Tree::items_encoding(rest) + seq![END];
        lemma_encoding_first(first);
        assert(text =~= first.encoding() + tail);
        assert(text[0] == first.encoding()[0]);
        lemma_holds_at_split(bytes, pos, first.encoding(), tail);
        lemma_value_complete(first, bytes, pos, budget);
        assert forall|i: int| 0 <= i < rest.len() implies (#[trigger] rest[i]).well_formed()
            && rest[i].depth() <= budget by {
            assert(rest[i] == items[i + 1]);
        }
        lemma_items_complete(rest, bytes, pos + first.encoding().len(), budget);
        assert(seq![first] + rest =~= items);
    }
}

/// The encodings of well-formed entries in key order and the closing `e`,
/// wherever they stand, are read as those entries.
pub proof fn lemma_entries_complete(
    entries: Seq<(Seq<u8>, Tree)>,
    bytes: Seq<u8>,
    pos: int,
    budget: nat,
    previous: Option<Seq<u8>>,
)
    requires
        keys_ascend(entries),
        previous is Some && entries.len() > 0 ==> lex_less(previous->0, entries[0].0),
        forall|i: int| 0 <= i < entries.len() ==> (#[trigger] entries[i]).1.well_formed(),
        forall|i: int| 0 <= i < entries.len() ==> (#[trigger] entries[i]).1.depth() <= budget,
        holds_at(bytes, pos, Tree::entries_encoding(entries) + seq![END]),
    ensures
        parse_entries(bytes, pos, budget, previous) == Ok::<(Seq<(Seq<u8>, Tree)>, int), Fault>(
            (entries, pos + Tree::entries_encoding(entries).len() + 1),
        ),
    decreases entries,
{
    let text = Tree::entries_encoding(entries) + seq![END];
    lemma_holds_at_index(bytes, pos, text);
    assert(bytes[pos] == text[0]) by {
        assert(bytes[pos + 0] == text[0]);
    }
    if entries.len() == 0 {
        assert(entries =~= Seq::<(Seq<u8>, Tree)>::empty());
    } else {
        let (key, value) = entries[0];
        let rest = entries.skip(1);
        let key_text = byte_string_encoding(key);
        let tail = Tree::entries_encoding(rest) + seq![END];
        lemma_encoding_first(Tree::ByteString(key));
        lemma_encoding_first(value);
        assert(text =~= key_text + (value.encoding() + tail));
        assert(text[0] == key_text[0]);
        lemma_holds_at_split(bytes, pos, key_text, value.encoding() + tail);
        lemma_holds_at_split(bytes, pos + key_text.len(), value.encoding(), tail);
        lemma_byte_string_complete(bytes, pos, key);
        if previous is Some {
            lemma_lex_less_irreflexive(key);
        }
        assert(entries[0].1 == value);
        lemma_value_complete(value, bytes, pos + key_text.len(), budget);
        assert forall|i: int| 0 <= i < rest.len() implies (#[trigger] rest[i]).1.well_formed()
            && rest[i].1.depth() <= budget by {
            assert(rest[i] == entries[i + 1]);
        }
        assert(keys_ascend(rest)) by {
            assert forall|i: int, j: int| 0 <= i < j < rest.len() implies lex_less(
                #[trigger] rest[i].0,
                #[trigger] rest[j].0,
            ) by {
                assert(rest[i] == entries[i + 1]);
                assert(rest[j] == entries[j + 1]);
            }
        }
        if rest.len() > 0 {
            assert(rest[0] == entries[1]);
            assert(lex_less(entries[0].0, entries[1].0));
        }
        lemma_entries_complete(
            rest,
            bytes,
            pos + key_text.len() + value.encoding().len(),
            budget,
            Some(key),
        );
        assert(seq![(key, value)] + rest =~= entries);
    }
}

} // verus!
