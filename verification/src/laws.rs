//! The laws of the codec: encoding and decoding are inverse to each other.
use vstd::prelude::*;
use crate::canon::{lemma_parse_value_sound, lemma_value_complete};
use crate::decode::DEPTH_LIMIT;
use crate::error::Fault;
use crate::grammar::parse_value;
use crate::value::Tree;

verus! {

/// Round trip: the canonical encoding of a well-formed tree that nests no
/// deeper than the limit decodes to that tree, and to the whole of it.
pub proof fn law_round_trip(tree: Tree)
    requires
        tree.well_formed(),
        tree.depth() <= DEPTH_LIMIT,
    ensures
        parse_value(tree.encoding(), 0, DEPTH_LIMIT as nat) == Ok::<(Tree, int), Fault>(
            (tree, tree.encoding().len() as int),
        ),
{
    let bytes = tree.encoding();
    assert(bytes.subrange(0, bytes.len() as int) =~= bytes);
    lemma_value_complete(tree, bytes, 0, DEPTH_LIMIT as nat);
}

/// Self-delimiting: whatever follows the encoding of a tree, the tree is read
/// and what follows is left alone.
pub proof fn law_self_delimiting(tree: Tree, rest: Seq<u8>)
    requires
        tree.well_formed(),
        tree.depth() <= DEPTH_LIMIT,
    ensures
        parse_value(tree.encoding() + rest, 0, DEPTH_LIMIT as nat) == Ok::<(Tree, int), Fault>(
            (tree, tree.encoding().len() as int),
        ),
{
    let bytes = tree.encoding() + rest;
    assert(bytes.subrange(0, tree.encoding().len() as int) =~= tree.encoding());
    lemma_value_complete(tree, bytes, 0, DEPTH_LIMIT as nat);
}

/// Canonical idempotence: encoding, decoding and encoding again gives the
/// bytes of the first encoding.
pub proof fn law_canonical_idempotence(tree: Tree)
    requires
        tree.well_formed(),
        tree.depth() <= DEPTH_LIMIT,
    ensures
        parse_value(tree.encoding(), 0, DEPTH_LIMIT as nat) is Ok,
        parse_value(tree.encoding(), 0, DEPTH_LIMIT as nat)->Ok_0.0.encoding() == tree.encoding(),
{
    law_round_trip(tree);
}

/// Only canonical input is accepted: whatever decodes, decodes to a
/// well-formed tree within the depth allowance whose canonical encoding is
/// exactly the bytes that were read. So no two different inputs decode to the
/// same tree.
pub proof fn law_decoded_is_canonical(bytes: Seq<u8>, budget: nat)
    requires
        parse_value(bytes, 0, budget) is Ok,
    ensures
        ({
            let (tree, end) = parse_value(bytes, 0, budget)->Ok_0;
            &&& tree.well_formed()
            &&& tree.depth() <= budget
            &&& 0 < end <= bytes.len()
            &&& bytes.subrange(0, end) == tree.encoding()
        }),
{
    lemma_parse_value_sound(bytes, 0, budget);
}

/// No ambiguity: the encoding of one well-formed tree is never the start of
/// the encoding of another. In particular no two well-formed trees have the
/// same encoding.
pub proof fn law_encoding_unambiguous(a: Tree, b: Tree, after_a: Seq<u8>, after_b: Seq<u8>)
    requires
        a.well_formed(),
        b.well_formed(),
        a.encoding() + after_a == b.encoding() + after_b,
    ensures
        a == b,
{
    let bytes = a.encoding() + after_a;
    let budget = if a.depth() > b.depth() { a.depth() } else { b.depth() };
    assert(bytes.subrange(0, a.encoding().len() as int) =~= a.encoding());
    assert(bytes.subrange(0, b.encoding().len() as int) =~= b.encoding());
    lemma_value_complete(a, bytes, 0, budget);
    lemma_value_complete(b, bytes, 0, budget);
}

} // verus!
