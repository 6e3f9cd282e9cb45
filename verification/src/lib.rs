//! Line data embedded at build time.
//!
//! A build step reads a text file once, splits it into newline-delimited
//! records, silently drops records that are not valid UTF-8, and emits the
//! surviving lines as a fixed-size array (of borrowed or of owned strings)
//! or emits only their count. This crate holds the verified core of that
//! step: everything between the raw bytes of the file and the emitted
//! values. Opening the file, and turning the emitted values into source
//! tokens, happens outside it.

pub mod emit;
pub mod records;
pub mod text;
