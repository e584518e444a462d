//! An indentation-aware lexical front end for a small Python-like language.
//!
//! Characters come from a [`parser::parse_stream::StringStream`] (or a
//! [`parser::parse_stream::FileStream`], which tags failures with a path) and
//! are grouped into tokens by a [`parser::lexer::TokenStream`]. Every stream
//! offers the same two operations, `next` and the all-or-nothing `try_match`.
pub mod parser;
