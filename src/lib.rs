//! A key-lookup redirector: configuration text is parsed into per-scope
//! key/URL tables, requests are routed against them, and a scope's table can
//! be replaced from freshly fetched text.

pub mod config;
pub mod log;
pub mod request;
pub mod setup;
pub mod table;
pub mod text;

pub use config::{init, lookup, ScopeMap};
