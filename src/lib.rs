//! A recursive-descent JSON parser with a verified grammar.
//!
//! `token` classifies the characters of the input, `grammar` states the
//! accepted language and what each phrase denotes, `json_element` holds the
//! value tree and its mathematical model, and `parser` reads a text into a
//! tree that is proved to be the one the grammar gives.
pub mod grammar;
pub mod json_element;
pub mod token;
pub mod parser;
