//! A small relational store driven by a postfix query language: a lexer that
//! turns query text into a program of tokens, a stack-based interpreter that
//! runs a program against an in-memory database, and the codecs that persist
//! each table as a textual schema and a file of fixed-width binary rows.
pub mod chars;
pub mod model;
pub mod query;
pub mod engine;
pub mod schema;
pub mod rows;
pub mod store;
