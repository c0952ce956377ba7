//! A language server for Mojom, the interface definition language of Chromium.
//!
//! The crate holds the parts of the server that compute: the grammar and its
//! parser, the syntax tree, the semantic checks, the symbol queries and the
//! decisions that the server takes on each message. Reading files, talking to
//! clangd and moving bytes is left to the program around it.
#![allow(non_camel_case_types)]

pub mod answers;
pub mod bindings;
pub mod checked;
pub mod clangd;
pub mod definition;
pub mod diagnostic;
pub mod document;
pub mod document_symbol;
pub mod expected;
pub mod fits;
pub mod frame;
pub mod grammar;
pub mod joined;
pub mod kept;
pub mod laws;
pub mod layout;
pub mod lexemes;
pub mod lexical;
pub mod locality;
pub mod lookup;
pub mod lsp;
pub mod mojomast;
pub mod moved;
pub mod order;
pub mod outline;
pub mod parser;
pub mod peg;
pub mod places;
pub mod productions;
pub mod protocol;
pub mod ranks;
pub mod requests;
pub mod rpc;
pub mod search;
pub mod server;
pub mod shifted;
pub mod syntax;
pub mod text;
pub mod traversal;
pub mod tree;
pub mod uri_map;
pub mod views;
pub mod walk;
pub mod wire;
pub mod workspace;
pub mod written;
