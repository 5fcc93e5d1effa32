//! The binary encoding: an eight-byte header, the objects, the offset
//! table and a 32-byte trailer.
//!
//! A tree is written in two steps: `table` lays its nodes out as a table
//! of objects that refer to each other by position, and `document` writes
//! the table down. Reading goes the other way: `document` reads the
//! table, and `rebuild` makes the tree that its top object stands for.

pub mod document;
pub mod document_proofs;
pub mod ints;
pub mod object;
pub mod object_proofs;
pub mod rebuild;
pub mod single;
pub mod table;
pub mod table_proofs;
pub mod utf16;
