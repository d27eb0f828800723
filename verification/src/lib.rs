//! Verified core of the Zappy game server.

pub mod config;
pub mod game;
pub mod map;
pub mod net;
pub mod scheduler;
pub mod server;
pub mod text;
