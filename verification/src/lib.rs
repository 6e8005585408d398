//! STTP core: lexing, layering and schema validation of STTP node text, the
//! structural validator, tenant scoping of sessions, and the SurrealDB query
//! texts and settings used by the storage layer.
pub mod text;
pub mod lexicon;
pub mod lexer;
pub mod ast;
pub mod state_machine;
pub mod content_scan;
pub mod number;
pub mod diagnostics;
pub mod content_schema;
pub mod node_fields;
pub mod node_parser;
pub mod models;
pub mod validator;
pub mod raw_queries;
pub mod tenant;
pub mod store_keys;
pub mod requests;
pub mod settings;
pub mod rekey;
pub mod services;
pub mod tallies;
pub mod upsert;
pub mod ranking;
pub mod memory_store;
pub mod session_graph;
