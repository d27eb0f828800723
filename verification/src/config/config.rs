//! Settings a server is built with.

use vstd::prelude::*;

verus! {

/// Settings of a server: port, clients per team, team names, time
/// frequency and board size.
pub struct Config {
    pub _port: u16,
    pub _max_clients: usize,
    pub _teams_names: Vec<String>,
    pub _frequency: u32,
    pub _world_size: (usize, usize),
}

impl Config {
    /// Settings made of the given values.
    pub fn new(
        port: u16,
        max_clients: usize,
        teams_names: Vec<String>,
        frequency: u32,
        world_size: (usize, usize),
    ) -> (c: Config)
        ensures
            c._port == port,
            c._max_clients == max_clients,
            c._teams_names == teams_names,
            c._frequency == frequency,
            c._world_size == world_size,
    {
        Config {
            _port: port,
            _max_clients: max_clients,
            _teams_names: teams_names,
            _frequency: frequency,
            _world_size: world_size,
        }
    }
}

} // verus!
