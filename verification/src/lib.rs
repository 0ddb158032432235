//! A content-addressable object store in the shape of a version-control
//! system's object database.
//!
//! An object is a blob (the bytes of one file) or a tree (the entries of one
//! directory). Its envelope is its kind, the length of its payload and the
//! payload; its identifier is the SHA-1 digest of the envelope, written as
//! forty hexadecimal digits; it is kept as a zlib stream in a file whose path
//! the identifier gives.
//!
//! - [`types`]: identifiers, kinds and headers;
//! - [`envelope`] and [`utils`]: writing and reading envelopes, checking
//!   identifiers, deriving paths, decoding stored bytes;
//! - [`tree`]: the entries of a tree, their canonical order and the payload
//!   that holds them;
//! - [`helpers`]: the commands, from what was read for them to what is to be
//!   written and printed;
//! - [`codec`], [`digest`] and [`hexadecimal`]: compression, SHA-1 and
//!   hexadecimal text, which other crates compute and which are believed of
//!   them as their contracts state;
//! - [`bytes`], [`errors`] and [`commands`]: byte strings, error values and
//!   the commands of the command line.
//!
//! Nothing here reads or writes a file: a caller hands in the bytes that it
//! read and is told what to write.

pub mod bytes;
pub mod codec;
pub mod commands;
pub mod digest;
pub mod envelope;
pub mod errors;
pub mod helpers;
pub mod hexadecimal;
pub mod tree;
pub mod types;
pub mod utils;
