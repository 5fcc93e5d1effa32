//! What holds of the library as a whole.

use vstd::prelude::*;
use crate::binary::document::{
    decode_document, encode_document, has_magic, has_version, parse_trailer, trailer_ok,
};
use crate::binary::document_proofs::lemma_binary_round_trip;
use crate::binary::table::encodable;
use crate::error::PlistError;
use crate::node::Node;
use crate::value::{lemma_value_equal_reflexive, value_equal, Value};
use crate::xml::decode::decode_xml_document;
use crate::xml::document_proofs::lemma_xml_round_trip;
use crate::xml::encode::xml_document;
use crate::xml::proofs::xml_exact;
use crate::xml::reals::{reals_view, RealText};

verus! {

/// Round trip through the binary encoding: the document of a tree is
/// read back as a tree that stands for the same value, and so is
/// structurally equal to the first. This holds of every tree that can be
/// written, that is, one without a key node in the place of a value, whose
/// document fits in memory.
pub proof fn law_binary_round_trip(tree: Node)
    requires
        tree@.wf(),
        encodable(tree@),
        encode_document(tree@).len() <= usize::MAX,
    ensures
        decode_document(encode_document(tree@)) == Ok::<Value, PlistError>(tree@),
        value_equal(decode_document(encode_document(tree@))->Ok_0, tree@),
{
    lemma_binary_round_trip(tree@);
    lemma_value_equal_reflexive(tree@);
}

/// Round trip through the XML encoding: the document of a tree is read
/// back as a tree that stands for the same value, and so is structurally
/// equal to the first. This holds of every tree that can be written with
/// the table, where the table gives back for the text of each real
/// number of the tree the number itself, and every date of the tree
/// counts whole seconds: the text of a number may stand for a rounded
/// number, and the text of a date leaves the microseconds out.
pub proof fn law_xml_round_trip(tree: Node, reals: Seq<RealText>)
    requires
        tree@.wf(),
        xml_exact(tree@, reals_view(reals)),
        xml_document(tree@, reals_view(reals)) is Ok,
    ensures
        decode_xml_document(xml_document(tree@, reals_view(reals))->Ok_0, reals_view(reals))
            == Ok::<Value, PlistError>(tree@),
        value_equal(
            decode_xml_document(
                xml_document(tree@, reals_view(reals))->Ok_0,
                reals_view(reals),
            )->Ok_0,
            tree@,
        ),
{
    lemma_xml_round_trip(tree@, reals_view(reals));
    lemma_value_equal_reflexive(tree@);
}

/// A copy is structurally equal to the tree it was made from: whatever
/// stands for the same value as a tree compares equal to it.
pub proof fn law_copy_compares_equal(tree: Node, copy: Node)
    requires
        tree@.wf(),
        copy@ == tree@,
    ensures
        value_equal(copy@, tree@),
        value_equal(tree@, copy@),
{
    lemma_value_equal_reflexive(tree@);
}

/// A binary document whose trailer puts the offset table behind the end
/// of the buffer is refused as truncated, whatever else it holds.
pub proof fn law_offset_table_beyond_buffer(bytes: Seq<u8>)
    requires
        bytes.len() >= 40,
        has_magic(bytes),
        has_version(bytes),
        trailer_ok(parse_trailer(bytes)),
        parse_trailer(bytes).table_offset > bytes.len() - 32,
    ensures
        decode_document(bytes) == Err::<Value, PlistError>(PlistError::TruncatedInput),
{
    let tr = parse_trailer(bytes);
    assert(tr.count * tr.off_size >= 0) by (nonlinear_arith);
}

} // verus!
