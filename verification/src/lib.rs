//! A small scripting language and an embedded, schemaless row store.
//!
//! The row store (`db`) keeps an append-only log of framed records per
//! table, optional single-column secondary indexes, and a filter-expression
//! query executor. The scripting language has a lexer, a parser and an
//! interpreter with a small standard library.
//!
//! The library is verified with Verus. It never reads or writes a file and
//! never prints: the caller hands in the bytes that an operation reads and
//! takes back the bytes to write and the effects to perform. The few calls
//! into other crates and into parts of the standard library that have no
//! specification stand behind small functions with stated contracts.

pub mod assoc;
pub mod db;
pub mod errors;
pub mod interpreter;
pub mod lexer;
pub mod parser;
pub mod std_lib;
pub mod text;
