//! The game world: board, drones, teams, AI commands and the GUI protocol.

pub mod command;
pub mod gui;
pub mod map;
pub mod player;
pub mod team;
pub mod world;
