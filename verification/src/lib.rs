//! Routing plane of a publish/subscribe and query broker with wildcard keys:
//! key intersection, the wire codec, the resource trie, the routing tables
//! and the router that has them.

pub mod rname;
pub mod io;
pub mod types;
pub mod locator;
pub mod proto;
pub mod routing;
