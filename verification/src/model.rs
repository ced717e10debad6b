//! The values that the library works on.
pub mod dns;
pub mod net;
pub mod output;
pub mod record;
pub mod tree;
