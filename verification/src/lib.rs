//! A distributed key-value store in memory, without its sockets.
//!
//! The nodes of a cluster share the keys among them by consistent hashing.
//! A client may send a request to any node; a node that does not own the key
//! sends the request on to the owner. Which peers are alive is learned by
//! gossip. This library holds every decision of a node, with its contract:
//!
//! - [`text`]: white space, splitting, trimming, comparison, decimal numbers;
//! - [`commands`]: the five commands, their parser and their canonical text;
//! - [`config`]: the roster, the node's settings and the configuration text;
//! - [`hashing`]: the ring of virtual tokens and the owner of a key;
//! - [`storage`]: the storage abstraction and the engine in memory;
//! - [`gossip`]: the membership snapshot and the steps of talker and listener;
//! - [`networking`]: what a node does with one request;
//! - [`laws`]: what holds between the nodes of a cluster.
//!
//! Connections, threads and timers are the caller's. The caller performs
//! what the library decides and hands back what the peers answered.

pub mod commands;
pub mod config;
pub mod gossip;
pub mod hashing;
pub mod laws;
pub mod networking;
pub mod storage;
pub mod text;
