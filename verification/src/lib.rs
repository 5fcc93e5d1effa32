//! An in-memory property-list tree with its binary and XML encodings.
//!
//! A tree is a [`Node`]: a scalar, an array of nodes or a dictionary of
//! nodes under unique keys, kept in insertion order. Trees are built with
//! the constructors of `Node`, read with its accessors and changed with
//! its array and dictionary operations; a node inside a tree is named by
//! the path that leads to it from the root.
//!
//! Every function states what it returns over [`value::Value`], the
//! mathematical model of a tree, and is proved to do so. The `laws`
//! module holds what follows for the library as a whole: a document
//! written by either encoder is read back as the tree it was written
//! from.
//!
//! A real number is held as its IEEE 754 binary64 bit pattern, on which
//! the library does no arithmetic. The binary encoding stores the pattern
//! as it is. The XML encoding needs the decimal text of a number, which
//! the caller hands over in a table of [`RealText`].

pub mod binary;
pub mod error;
pub mod laws;
pub mod node;
pub mod plist_type;
pub mod sniffer;
pub mod text;
pub mod tree_ops;
pub mod value;
pub mod xml;

pub use binary::document::{decode_binary, encode_binary};
pub use error::{ParseMessage, PlistError};
pub use node::{plist_is_type, Dictionary, Node};
pub use plist_type::PlistType;
pub use sniffer::{decode, sniff_format, PlistFormat};
pub use tree_ops::{access_path, compare, PathSegment};
pub use xml::decode::decode_xml;
pub use xml::encode::encode_xml;
pub use xml::reals::{real_values, xml_real_texts, RealText};
