//! A small key-value store: a bit-level wire protocol for its requests, and
//! the map that serves them.
pub mod bits;
pub mod protocol;
pub mod order;
pub mod kvmap;
mod cell;
pub mod store;
pub mod service;
pub mod command;
