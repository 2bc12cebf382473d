//! A small relational database: a SQL executor over a pluggable storage
//! engine, an in-memory table store, and a B-tree index of integer keys.
pub mod text;
pub mod bplus_tree;
pub mod storage_engine_interface;
pub mod storage;
pub mod error;
pub mod formatter;
pub mod sql_ast;
pub mod sql_parser;
pub mod handler;
pub mod script;
pub use crate::script::execute_sql;
