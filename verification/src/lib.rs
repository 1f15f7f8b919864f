//! A small text-templating language: source text mixes literal text with
//! `{...}` tags that reference named values or call host-supplied functions
//! against a data context. The crate holds the tokenizer, the fault-tolerant
//! parser, the tree-walking evaluator, the document position model, and the
//! node-at-cursor lookup that backs editor tooling.

pub mod document;
pub mod lex;
pub mod parser;
pub mod parser_get_node_at;
pub mod runtime;
pub mod service;
