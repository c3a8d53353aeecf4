//! A parser for a compact, line-oriented notation of HTTP requests:
//! a request line, optional headers and an optional body.

pub mod blank_line;
pub mod error;
pub mod grammar;
pub mod header_lines;
pub mod input;
pub mod parser;
pub mod request;
pub mod round_trip;
pub mod request_builder;
pub mod text;
pub mod token_helpers;
pub mod tokenizer;
