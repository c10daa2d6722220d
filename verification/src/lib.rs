//! Verified core of a small database server: framing of HTTP/1.1-style
//! requests read from a byte stream, parsing of the request header block,
//! and a JSON tokenizer, parser and renderer for request bodies.

pub mod cli;
pub mod db;
pub mod errors;
pub mod http;
pub mod json;
pub mod laws;
pub mod lexer;
pub mod num;
pub mod parser;
pub mod reader;
pub mod render;
pub mod strings;
pub mod types;
