//! Authoritative DNS zone files and a ROA document from a registry of route, domain and
//! network objects.
//!
//! The library reads the text of registry objects, gathers the delegations of domains into
//! forward zones and those of address blocks into reverse zones, and writes zone files and
//! the entries of a ROA document. Every function states what it computes over mathematical
//! values, and the statements are proved.
pub mod clock;
pub mod config;
pub mod formatter;
pub mod model;
pub mod parser;
pub mod task;
pub mod text;
