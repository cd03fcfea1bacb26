//! A longest-prefix-match IPv4 forwarding table.
//!
//! A [`RoutingTable`] collects routes, each a CIDR network bound to an egress
//! interface and an optional next-hop gateway, and answers for a destination
//! address which route forwards it: the most specific network that contains
//! the address, and among equally specific ones the route added first.
//!
//! Addresses are `u32` values in host byte order, the most significant octet
//! first: `10.0.0.1` is `0x0A00_0001`.
//!
//! - [`cidr`]: networks, and what it means for one to contain an address.
//! - [`interface`]: the interface that a route names.
//! - [`lookup`]: which route forwards an address, over the routes in the
//!   order they were added.
//! - [`bucket`]: the routes grouped by prefix length, as the table holds them.
//! - [`table`]: the table itself, and what holds of every table.

pub mod bucket;
pub mod cidr;
pub mod interface;
pub mod lookup;
pub mod table;

pub use crate::cidr::Cidr;
pub use crate::interface::Interface;
pub use crate::lookup::Entry;
pub use crate::table::RoutingTable;
