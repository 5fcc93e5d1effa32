//! The XML encoding: a prolog and a `plist` element that holds one
//! element for the root of the tree.

pub mod base64;
pub mod date;
pub mod decode;
pub mod document_proofs;
pub mod encode;
pub mod escape;
pub mod lex;
pub mod number;
pub mod proofs;
pub mod reals;
