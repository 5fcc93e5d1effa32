//! Telling a binary document from an XML document.

use vstd::prelude::*;
use crate::binary::document::{decode_binary, decode_document, has_magic, has_version};
use crate::error::PlistError;
use crate::node::Node;
use crate::xml::decode::{decode_xml, decode_xml_document};
use crate::xml::reals::{reals_view, RealText};

verus! {

/// The two encodings of a plist.
#[derive(Debug, Clone, Copy, PartialEq, Eq, Structural)]
pub enum PlistFormat {
    Binary,
    Xml,
}

/// Whether the buffer starts with the eight bytes `bplist00`.
pub open spec fn is_binary(bytes: Seq<u8>) -> bool {
    has_magic(bytes) && has_version(bytes)
}

/// `Binary` for a buffer that starts with the eight bytes `bplist00`,
/// `Xml` for any other. Only the start is looked at: whether the buffer
/// holds a document shows when it is decoded.
pub fn sniff_format(bytes: &[u8]) -> (f: PlistFormat)
    ensures
        f == if is_binary(bytes@) {
            PlistFormat::Binary
        } else {
            PlistFormat::Xml
        },
{
    if bytes.len() >= 8 && bytes[0] == 0x62 && bytes[1] == 0x70 && bytes[2] == 0x6c && bytes[3]
        == 0x69 && bytes[4] == 0x73 && bytes[5] == 0x74 && bytes[6] == 0x30 && bytes[7] == 0x30 {
        PlistFormat::Binary
    } else {
        PlistFormat::Xml
    }
}

/// Reads the tree that the buffer holds, as a binary document if the
/// buffer starts like one and as an XML document if not. `reals` is the
/// table that `decode_xml` takes.
pub fn decode(bytes: &[u8], reals: &[RealText]) -> (r: Result<Node, PlistError>)
    ensures
        match if is_binary(bytes@) {
            decode_document(bytes@)
        } else {
            decode_xml_document(bytes@, reals_view(reals@))
        } {
            Ok(v) => r matches Ok(n) && n@ == v && n@.wf(),
            Err(e) => r matches Err(x) && x == e,
        },
{
    match sniff_format(bytes) {
        PlistFormat::Binary => decode_binary(bytes),
        PlistFormat::Xml => decode_xml(bytes, reals),
    }
}

} // verus!
