//! The routing plane: the resource trie, the faces and the routing tables.

pub mod names;
pub mod resource;
pub mod face;
pub mod tables;
pub mod contexts;
pub mod clean;
pub mod keys;
pub mod routes;
pub mod faces;
pub mod outbound;
pub mod ops;
pub mod detach;
pub mod adverts;
pub mod hops;
pub mod pubsub;
pub mod queries;
pub mod router;
pub mod declare;
pub mod api;
pub mod handle;
