//! From zones to text.
pub mod dns_zone;
