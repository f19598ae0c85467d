//! A small interpreter for a SQL-like query language over tables kept as
//! delimited text.
//!
//! A statement goes through four stages: the [`lexer`] turns text into
//! tokens, the [`parser`] turns tokens into a syntax tree ([`ast`]), the
//! [`semantic_analyzer`] holds the tree against the [`schema`], and the
//! [`execution_engine`] runs it on the [`datastore`]. Numbers are exact
//! decimals ([`decimal`]).
//!
//! The library computes and never touches a file: an operation on a table
//! takes the bytes of the table's file and returns the bytes to write. Every
//! function is verified against a contract that states what it returns; the
//! contracts of the storage functions speak of the delimited text through the
//! two named outcomes of the [`codec`].

pub mod text;
pub mod decimal;
pub mod lexer;
pub mod ast;
pub mod parser;
pub mod ordered_map;
pub mod schema;
pub mod semantic_analyzer;
pub mod codec;
pub mod datastore;
pub mod execution_engine;
