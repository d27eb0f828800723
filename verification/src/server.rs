//! The server's settings and board size.

use vstd::prelude::*;

use crate::config::config::Config;
use crate::map::MapShape;

verus! {

/// A server: its settings and its board.
pub struct Server {
    pub _config: Config,
    pub _map: MapShape,
}

impl Server {
    /// A server on port 4242, 10 clients per team, one team `GRAPHICAL`,
    /// frequency 100 and a 10 x 10 board.
    pub fn new() -> (s: Server)
        ensures
            s._config._port == 4242,
            s._config._max_clients == 10,
            s._config._teams_names@.len() == 1,
            s._config._teams_names@[0]@ == "GRAPHICAL"@,
            s._config._frequency == 100,
            s._config._world_size == (10usize, 10usize),
            s._map.width == 10,
            s._map.height == 10,
    {
        let mut names: Vec<String> = Vec::new();
        names.push(String::from_str("GRAPHICAL"));
        let mut serv = Server {
            _config: Config::new(4242, 10, names, 100, (10, 10)),
            _map: MapShape::new(10, 10),
        };
        serv._map.define_size(serv._config._world_size);
        serv
    }
}

} // verus!
