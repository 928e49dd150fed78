//! A random-access reader for the classic PDF file format.
//!
//! Given the bytes of a PDF file, the library exposes the file's logical
//! object graph: the trailer dictionary, the cross-reference table, and any
//! indirect object reachable by reference, decoded into a typed in-memory
//! representation.

pub mod bytes;
pub mod scan;
pub mod keywords;
pub mod grammar;
pub mod tokens;
pub mod error;
pub mod objects;
pub mod flate;
pub mod parser;
pub mod pdf_file;
pub mod laws;
