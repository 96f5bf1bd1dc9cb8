//! Parsing of sysctl-style `key = value` configuration text and of schema text,
//! and validation of a parsed configuration against a schema.
pub mod lex;
pub mod types;
pub mod config;
pub mod validation;
pub mod sysctl;
pub mod schema;
