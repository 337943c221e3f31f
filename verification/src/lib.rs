//! A table of IP network prefixes (IPv4 and IPv6, CIDR style) mapped to
//! values, together with a verified codec that turns the table into an
//! ordered, size-hinted sequence of key/value entries and rebuilds an equal
//! table from such a sequence, so that a structured-serialization framework
//! can carry the table over the wire.

pub mod network;
pub mod serde_support;
pub mod table;
