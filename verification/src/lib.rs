//! A minimal key-value exchange service: a bootstrap node holds an in-memory
//! map from string keys to string values and serves it over a line-delimited
//! message protocol. This crate is the verified core: the store, the message
//! model with its wire codec, the per-connection dispatch logic, and the file
//! chunking / hashing utilities. The surrounding process (sockets, tasks,
//! argument parsing) lives outside the library and hands it plain values.

pub mod dht;
pub mod file_manager;
pub mod network;
pub mod parse;
pub mod protocol;
pub mod text;
