//! A team: its free connection slots (eggs) and its connected drones.

use vstd::prelude::*;

verus! {

/// Why a connection could not join a team.
#[derive(Debug, Clone, Copy, PartialEq, Eq, Structural)]
pub enum JoinError {
    UnknownTeam,
    TeamFull,
}

/// A team.
#[derive(Debug)]
pub struct Team {
    pub name: String,
    pub slots: usize,
    pub players: Vec<u32>,
}

impl Team {
    /// A team with `slots` free slots and no drone.
    pub fn new(name: String, slots: usize) -> (t: Team)
        ensures
            t.name == name,
            t.slots == slots,
            t.players@.len() == 0,
    {
        Team { name, slots, players: Vec::new() }
    }

    /// Whether a new drone can still join.
    pub fn has_free_slot(&self) -> (r: bool)
        ensures
            r == (self.slots > 0),
    {
        self.slots > 0
    }

    /// Number of free slots.
    pub fn remaining(&self) -> (r: usize)
        ensures
            r == self.slots,
    {
        self.slots
    }
}

} // verus!
