//! A backtracking matcher engine, and a tokenizer and a parser of type
//! declarations built on it.
pub mod pattern;
pub mod paths;
pub mod data;
pub mod tokenizer;
pub mod parser;
