//! From registry objects to zones and to the entries of the ROA document.
pub mod dns;
pub mod route;
