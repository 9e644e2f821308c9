//! Hosts-file maintenance for a fixed set of domains: the lookup target of a
//! domain, the address found on a lookup page, the map of resolved domains and
//! the rewriting of the managed block of a hosts file.

pub mod extract;
pub mod hosts;
pub mod ipv4;
pub mod lines;
pub mod lookup;
pub mod platform;
pub mod resolution;
pub mod resolve;
pub mod text;
