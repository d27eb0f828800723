//! Connections: line framing of the byte streams, and the decisions taken
//! on what clients send.

pub mod connection;
pub mod reactor;
