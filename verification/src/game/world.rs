//! The world: board, teams and drones, and the rules for joining, queueing
//! and running AI commands.

use std::collections::HashMap;

use vstd::prelude::*;

use super::command::{command_cost, parsed_command, Command, EnqueueError, MAX_QUEUED};
use super::map::TileMap;
use super::player::{Orientation, Player, StarveResult};
use super::team::{JoinError, Team};
use crate::text::{chars_of, same_chars};

verus! {

broadcast use vstd::std_specs::hash::group_hash_axioms;

/// Bytes taken by one tile in the tile store (seven `u32` counters).
pub const TILE_BYTES: usize = 28;

/// Seed used when the system clock cannot be read.
pub const FALLBACK_SEED: u64 = 0x9e37_79b9_7f4a_7c15;

/// Recipient of a line produced while running a command.
#[derive(Debug, Clone, Copy, PartialEq, Eq, Structural)]
pub enum Target {
    Player(u32),
    AllGui,
}

/// One step of the xorshift64 generator.
pub open spec fn xorshift(s: u64) -> u64 {
    let a = s ^ (s << 13u64);
    let b = a ^ (a >> 7u64);
    b ^ (b << 17u64)
}

/// Position of the first team named `name`, or the number of teams when
/// none is.
pub open spec fn team_position(teams: Seq<Team>, name: Seq<char>) -> nat
    decreases teams.len(),
{
    if teams.len() == 0 {
        0
    } else if teams[0].name@ == name {
        0
    } else {
        1 + team_position(teams.drop_first(), name)
    }
}

/// Ids of the drones standing on square `(x, y)`.
pub open spec fn ids_at(players: Map<u32, Player>, x: int, y: int) -> Set<u32> {
    players.dom().filter(|k: u32| players[k].x == x && players[k].y == y)
}

/// The game state.
pub struct World {
    pub map: TileMap,
    pub teams: Vec<Team>,
    pub players: HashMap<u32, Player>,
    /// Lines produced for other connections while running commands.
    pub outbox: Vec<(Target, String)>,
    /// Id of the next drone to hatch.
    pub next_id: u32,
    /// State of the placement generator.
    pub rng: u64,
}

impl World {
    /// The drone stored under `k` is a consistent drone of this world.
    pub open spec fn player_ok(&self, k: u32) -> bool {
        let p = self.players@[k];
        &&& p.id == k
        &&& k < self.next_id
        &&& p.x < self.map.width
        &&& p.y < self.map.height
        &&& p.team < self.teams@.len()
        &&& p.queue@.len() <= MAX_QUEUED
    }

    /// The board holds one tile per square, its tiles fit in memory, and
    /// every drone stands on it: what running a command needs.
    pub open spec fn board_ok(&self) -> bool {
        &&& self.map.wf()
        &&& self.map.width * self.map.height * TILE_BYTES <= isize::MAX
        &&& forall|k: u32| #[trigger] self.players@.contains_key(k) ==> self.players@[k].x < self.map.width
            && self.players@[k].y < self.map.height
    }

    /// Consistency of the world.
    pub open spec fn wf(&self) -> bool {
        &&& self.board_ok()
        &&& 1 <= self.next_id
        &&& forall|k: u32| #[trigger] self.players@.contains_key(k) ==> self.player_ok(k)
    }

    /// The drones, by id.
    pub open spec fn drones(&self) -> Map<u32, Player> {
        self.players@
    }

    /// A board of `width * height` empty tiles, one team per name with
    /// `clients` slots each, no drone yet; drone placement is seeded from
    /// the system clock.
    pub fn new(width: usize, height: usize, names: &[String], clients: usize) -> (w: World)
        requires
            width * height * TILE_BYTES <= isize::MAX,
        ensures
            w.wf(),
            fresh_world(w, width, height, names@, clients),
    {
        let clock = clock_nanos();
        World::with_clock(width, height, names, clients, clock)
    }

    /// As `new`, with the system clock reading `clock` (nanoseconds since
    /// the Unix epoch, or `None` when the clock is before it).
    pub fn with_clock(
        width: usize,
        height: usize,
        names: &[String],
        clients: usize,
        clock: Option<u128>,
    ) -> (w: World)
        requires
            width * height * TILE_BYTES <= isize::MAX,
        ensures
            w.wf(),
            fresh_world(w, width, height, names@, clients),
            w.rng == (match clock {
                Some(n) => n as u64,
                None => FALLBACK_SEED,
            }) | 1u64,
    {
        let seed = match clock {
            Some(n) => n as u64,
            None => FALLBACK_SEED,
        } | 1;
        let mut teams: Vec<Team> = Vec::new();
        let mut i: usize = 0;
        while i < names.len()
            invariant
                i <= names@.len(),
                teams@.len() == i,
                forall|j: int|
                    0 <= j < i ==> (#[trigger] teams@[j]).name == names@[j] && teams@[j].slots
                        == clients && teams@[j].players@.len() == 0,
            decreases names@.len() - i,
        {
            let ghost before = teams@;
            teams.push(Team::new(names[i].clone(), clients));
            i += 1;
        }
        let w = World {
            map: TileMap::new(width, height),
            teams,
            players: HashMap::new(),
            outbox: Vec::new(),
            next_id: 1,
            rng: seed,
        };
        w
    }

    /// Next value of the placement generator (xorshift64).
    fn next_rand(&mut self) -> (r: u64)
        ensures
            r == xorshift(old(self).rng),
            final(self).rng == r,
            final(self).map == old(self).map,
            final(self).teams == old(self).teams,
            final(self).players == old(self).players,
            final(self).outbox == old(self).outbox,
            final(self).next_id == old(self).next_id,
    {
        self.rng = self.rng ^ (self.rng << 13);
        self.rng = self.rng ^ (self.rng >> 7);
        self.rng = self.rng ^ (self.rng << 17);
        self.rng
    }

    /// Position of the first team named `name` (the number of teams when
    /// there is none).
    pub fn find_team(&self, name: &str) -> (r: usize)
        ensures
            r == team_position(self.teams@, name@),
            r <= self.teams@.len(),
    {
        let wanted = chars_of(name);
        let mut i: usize = 0;
        assert(self.teams@.skip(0) =~= self.teams@);
        while i < self.teams.len()
            invariant
                i <= self.teams@.len(),
                wanted@ == name@,
                team_position(self.teams@, name@) == i + team_position(
                    self.teams@.skip(i as int),
                    name@,
                ),
            decreases self.teams@.len() - i,
        {
            let have = chars_of(self.teams[i].name.as_str());
            if same_chars(&have, &wanted) {
                return i;
            }
            assert(self.teams@.skip(i as int).drop_first() =~= self.teams@.skip(i + 1));
            i += 1;
        }
        i
    }

    /// Hatches a drone for the team named `team_name`: gives it the next id,
    /// a tile and a facing drawn from the generator, and takes one slot of
    /// the team. Returns `(id, slots left)`.
    pub fn add_player(&mut self, team_name: &str) -> (r: Result<(u32, usize), JoinError>)
        requires
            old(self).wf(),
            joinable(old(self).teams@, team_name@) ==> old(self).map.width > 0 && old(self).map.height > 0
                && old(self).next_id < u32::MAX,
        ensures
            final(self).wf(),
            joined(*old(self), *final(self), team_name@, r),
    {
        let idx = self.find_team(team_name);
        if idx == self.teams.len() {
            return Err(JoinError::UnknownTeam);
        }
        if !self.teams[idx].has_free_slot() {
            return Err(JoinError::TeamFull);
        }
        proof {
            lemma_side_bound(self.map.width as int, self.map.height as int);
        }
        let rx = self.next_rand() as isize;
        let ry = self.next_rand() as isize;
        let (x, y) = self.map.wrap(rx, ry);
        let orientation = match self.next_rand() % 4 {
            0 => Orientation::North,
            1 => Orientation::East,
            2 => Orientation::South,
            _ => Orientation::West,
        };
        let id = self.next_id;
        self.next_id = self.next_id + 1;
        self.players.insert(id, Player::new(id, idx, x, y, orientation));
        let ghost old_teams = self.teams@;
        let mut team = self.teams.remove(idx);
        team.slots = team.slots - 1;
        team.players.push(id);
        let left = team.remaining();
        self.teams.insert(idx, team);
        proof {
            assert(self.teams@ =~= old_teams.update(idx as int, self.teams@[idx as int]));
            assert forall|k: u32| #[trigger] self.players@.contains_key(k) implies self.player_ok(
                k,
            ) by {
                if k != id {
                    assert(old(self).players@.contains_key(k));
                    assert(old(self).player_ok(k));
                }
            }
        }
        Ok((id, left))
    }

    /// Parses `line` and queues it for drone `player`.
    pub fn enqueue_command(&mut self, player: u32, line: &str) -> (r: Result<(), EnqueueError>)
        requires
            old(self).wf(),
        ensures
            final(self).wf(),
            enqueued(*old(self), *final(self), player, line@, r),
    {
        let cmd = match Command::parse(line) {
            Some(c) => c,
            None => return Err(EnqueueError::BadCommand),
        };
        let mut p = match self.players.remove(&player) {
            Some(p) => p,
            None => {
                assert(self.players@ =~= old(self).players@);
                return Err(EnqueueError::BadCommand);
            },
        };
        if p.queue.len() >= MAX_QUEUED {
            self.players.insert(player, p);
            proof {
                assert(self.players@ =~= old(self).players@);
            }
            return Err(EnqueueError::QueueFull);
        }
        let ghost q0 = p.queue@;
        p.queue.push_back(cmd);
        assert(p.queue@.drop_last() =~= q0);
        let ghost q = p;
        self.players.insert(player, p);
        proof {
            assert(self.players@ =~= old(self).players@.insert(player, q));
            assert forall|k: u32| #[trigger] self.players@.contains_key(k) implies self.player_ok(
                k,
            ) by {
                assert(old(self).players@.contains_key(k));
                assert(old(self).player_ok(k));
            }
        }
        Ok(())
    }

    /// If drone `player` is idle with a command queued, marks the front
    /// command in flight under a new command id and returns
    /// `(command id, cost)`.
    pub fn start_next(&mut self, player: u32) -> (r: Option<(u64, u32)>)
        requires
            old(self).wf(),
            old(self).players@.contains_key(player) ==> old(self).players@[player].cmd_seq
                < u64::MAX,
        ensures
            final(self).wf(),
            started(*old(self), *final(self), player, r),
    {
        let mut p = match self.players.remove(&player) {
            Some(p) => p,
            None => {
                assert(self.players@ =~= old(self).players@);
                return None;
            },
        };
        if p.busy || p.queue.len() == 0 {
            self.players.insert(player, p);
            proof {
                assert(self.players@ =~= old(self).players@);
            }
            return None;
        }
        let cost = p.queue[0].cost();
        p.cmd_seq = p.cmd_seq + 1;
        p.current_cmd = p.cmd_seq;
        p.busy = true;
        let id = p.current_cmd;
        let ghost q = p;
        self.players.insert(player, p);
        proof {
            assert(self.players@ =~= old(self).players@.insert(player, q));
            assert forall|k: u32| #[trigger] self.players@.contains_key(k) implies self.player_ok(
                k,
            ) by {
                assert(old(self).players@.contains_key(k));
                assert(old(self).player_ok(k));
            }
        }
        Some((id, cost))
    }

    /// The in-flight command of drone `player` completed: when `command_id`
    /// is the one in flight, frees the drone, takes the command off the
    /// queue, runs it and returns the drone's reply.
    pub fn finish_command(&mut self, player: u32, command_id: u64) -> (r: Option<String>)
        requires
            old(self).wf(),
            finish_defined(*old(self), player, command_id),
        ensures
            final(self).wf(),
            finished(*old(self), *final(self), player, command_id, r),
    {
        let mut p = match self.players.remove(&player) {
            Some(p) => p,
            None => {
                assert(self.players@ =~= old(self).players@);
                return None;
            },
        };
        if !p.busy || p.current_cmd != command_id {
            self.players.insert(player, p);
            proof {
                assert(self.players@ =~= old(self).players@);
            }
            return None;
        }
        p.busy = false;
        p.current_cmd = 0;
        let ghost q = p.queue@;
        let front = p.queue.pop_front();
        let ghost q1 = p;
        self.players.insert(player, p);
        let ghost mid = *self;
        proof {
            assert(self.players@ =~= old(self).players@.insert(player, q1));
            if q.len() > 0 {
                assert(q1.queue@ =~= q.drop_first());
            }
            assert forall|k: u32| #[trigger] self.players@.contains_key(k) implies self.player_ok(
                k,
            ) by {
                assert(old(self).players@.contains_key(k));
                assert(old(self).player_ok(k));
            }
        }
        match front {
            Some(cmd) => {
                assert(cmd == q[0]);
                assert(before_run(*old(self), mid, player));
                let reply = cmd.execute(self, player);
                assert(before_run(*old(self), mid, player) && mid.wf() && super::command::executed(
                    q[0],
                    mid,
                    *self,
                    player,
                    reply,
                ));
                Some(reply)
            },
            None => None,
        }
    }

    /// Removes drone `player` from the world and from its team's roster;
    /// the team's slot is not given back.
    pub fn remove_player(&mut self, player: u32)
        requires
            old(self).wf(),
        ensures
            final(self).wf(),
            removed(*old(self), *final(self), player),
    {
        match self.players.remove(&player) {
            Some(p) => {
                if p.team < self.teams.len() {
                    let ghost old_teams = self.teams@;
                    let mut team = self.teams.remove(p.team);
                    let mut kept: Vec<u32> = Vec::new();
                    let mut i: usize = 0;
                    while i < team.players.len()
                        invariant
                            i <= team.players@.len(),
                            kept@ == drop_id(team.players@.take(i as int), player),
                        decreases team.players@.len() - i,
                    {
                        let other = team.players[i];
                        proof {
                            assert(team.players@.take(i + 1).drop_last() =~= team.players@.take(
                                i as int,
                            ));
                        }
                        if other != player {
                            kept.push(other);
                        }
                        i += 1;
                    }
                    assert(team.players@.take(team.players@.len() as int) =~= team.players@);
                    team.players = kept;
                    self.teams.insert(p.team, team);
                    proof {
                        assert(self.teams@ =~= old_teams.update(
                            p.team as int,
                            self.teams@[p.team as int],
                        ));
                    }
                }
                proof {
                    assert forall|k: u32| #[trigger] self.players@.contains_key(k) implies self.player_ok(
                        k,
                    ) by {
                        assert(old(self).players@.contains_key(k));
                        assert(old(self).player_ok(k));
                    }
                }
            },
            None => {},
        }
    }

    /// One hunger tick for drone `player`: a unit of food is eaten; the drone
    /// dies when it has none left. `Gone` when there is no such drone.
    pub fn consume_food(&mut self, player: u32) -> (r: StarveResult)
        requires
            old(self).wf(),
        ensures
            final(self).wf(),
            starved(*old(self), *final(self), player, r),
    {
        let food = match self.players.get(&player) {
            Some(p) => p.inventory[0],
            None => return StarveResult::Gone,
        };
        if food == 0 {
            self.tell_death(player);
            return StarveResult::Died;
        }
        let mut p = self.players.remove(&player).unwrap();
        p.inventory[0] = food - 1;
        let ghost q = p;
        self.players.insert(player, p);
        proof {
            assert(self.players@ =~= old(self).players@.insert(player, q));
            assert forall|k: u32| #[trigger] self.players@.contains_key(k) implies self.player_ok(
                k,
            ) by {
                assert(old(self).players@.contains_key(k));
                assert(old(self).player_ok(k));
            }
        }
        if food - 1 == 0 {
            self.tell_death(player);
            StarveResult::Died
        } else {
            StarveResult::Survived
        }
    }

    /// Drops `k` units of the resource at counter `i` on squares drawn from
    /// the generator, telling the graphical clients each square it changes.
    fn scatter_units(&mut self, i: usize, k: u128)
        requires
            old(self).wf(),
            old(self).map.width > 0,
            old(self).map.height > 0,
            i < super::map::RESOURCE_COUNT,
        ensures
            final(self).wf(),
            ({
                let (c, r, lines) = scatter(
                    old(self).map.cells(),
                    old(self).map.width as int,
                    old(self).map.height as int,
                    old(self).rng,
                    i as int,
                    k as nat,
                );
                &&& final(self).map.width == old(self).map.width
                &&& final(self).map.height == old(self).map.height
                &&& final(self).map.cells() == c
                &&& final(self).rng == r
                &&& final(self).players == old(self).players
                &&& final(self).teams == old(self).teams
                &&& final(self).next_id == old(self).next_id
                &&& final(self).outbox@.len() == old(self).outbox@.len() + lines.len()
                &&& forall|j: int| 0 <= j < old(self).outbox@.len() ==> #[trigger] final(self).outbox@[j] == old(self).outbox@[j]
                &&& forall|j: int|
                    0 <= j < lines.len() ==> (#[trigger] final(self).outbox@[old(self).outbox@.len() + j]).0
                        == Target::AllGui && final(self).outbox@[old(self).outbox@.len() + j].1@ == lines[j]
            }),
    {
        broadcast use vstd::array::group_array_axioms;

        let ghost pre = *self;
        let ghost w = self.map.width as int;
        let ghost h = self.map.height as int;
        proof {
            lemma_side_bound(w, h);
        }
        let res = super::map::Resource::from_index(i);
        let mut j: u128 = 0;
        while j < k
            invariant
                j <= k,
                self.wf(),
                w == self.map.width,
                h == self.map.height,
                0 < w <= isize::MAX / 28,
                0 < h <= isize::MAX / 28,
                i < super::map::RESOURCE_COUNT,
                super::map::res_index(res) == i,
                self.players == pre.players,
                self.teams == pre.teams,
                self.next_id == pre.next_id,
                ({
                    let (c, r, lines) = scatter(pre.map.cells(), w, h, pre.rng, i as int, j as nat);
                    &&& self.map.cells() == c
                    &&& self.rng == r
                    &&& self.outbox@.len() == pre.outbox@.len() + lines.len()
                    &&& forall|q: int| 0 <= q < pre.outbox@.len() ==> #[trigger] self.outbox@[q] == pre.outbox@[q]
                    &&& forall|q: int|
                        0 <= q < lines.len() ==> (#[trigger] self.outbox@[pre.outbox@.len() + q]).0 == Target::AllGui
                            && self.outbox@[pre.outbox@.len() + q].1@ == lines[q]
                }),
            decreases k - j,
        {
            let ghost before = *self;
            let rx = self.next_rand() as isize;
            let ry = self.next_rand() as isize;
            let (x, y) = self.map.wrap(rx, ry);
            proof {
                super::command::lemma_cell_in_range(x as int, y as int, w, h);
            }
            let ghost idx = y * w + x;
            let ghost t0 = self.map.tile_at(x as int, y as int);
            if self.map.tile(x, y).count(res) < u32::MAX {
                self.map.tile_mut(x, y).add(res, 1);
                proof {
                    assert(self.map.cells()[idx].resources =~= add_unit(t0, i as int).resources);
                }
            }
            proof {
                assert(self.map.cells() =~= before.map.cells().update(idx, add_unit(t0, i as int)));
                assert forall|kk: u32| #[trigger] self.players@.contains_key(kk) implies self.player_ok(kk) by {
                    assert(before.player_ok(kk));
                }
            }
            let line = match super::gui::GuiEvent::Tile(x, y).encode(self) {
                Some(line) => line,
                None => {
                    assert(false);
                    String::new()
                },
            };
            let ghost ob = self.outbox@;
            self.outbox.push((Target::AllGui, line));
            proof {
                let (c, r, lines) = scatter(pre.map.cells(), w, h, pre.rng, i as int, j as nat);
                let (c2, r2, lines2) = scatter(pre.map.cells(), w, h, pre.rng, i as int, (j + 1) as nat);
                assert(lines2 == lines.push(cell_line(c2, w, x as int, y as int)));
                assert(c2 == self.map.cells());
                assert(line@ == cell_line(c2, w, x as int, y as int));
                assert forall|q: int|
                    0 <= q < lines2.len() implies (#[trigger] self.outbox@[pre.outbox@.len() + q]).0 == Target::AllGui
                        && self.outbox@[pre.outbox@.len() + q].1@ == lines2[q] by {
                    if q < lines.len() {
                        assert(self.outbox@[pre.outbox@.len() + q] == ob[pre.outbox@.len() + q]);
                    }
                }
                assert forall|q: int| 0 <= q < pre.outbox@.len() implies #[trigger] self.outbox@[q] == pre.outbox@[q] by {
                    assert(self.outbox@[q] == ob[q]);
                }
            }
            j = j + 1;
        }
    }

    /// Tops up every resource, in counter order, to its target
    /// (`floor(width * height * density)`, at least one), dropping each
    /// missing unit on a square drawn from the generator and telling the
    /// graphical clients every square it changes.
    pub fn respawn(&mut self)
        requires
            old(self).wf(),
            old(self).map.width > 0,
            old(self).map.height > 0,
        ensures
            final(self).wf(),
            respawned(*old(self), *final(self)),
    {
        let ghost pre = *self;
        let ghost w = self.map.width as int;
        let ghost h = self.map.height as int;
        let ghost all = respawn_from(pre.map.cells(), w, h, pre.rng, 0);
        let mut i: usize = 0;
        let ghost mut emitted: Seq<Seq<char>> = seq![];
        assert(pre.outbox@.len() + emitted.len() == pre.outbox@.len());
        while i < super::map::RESOURCE_COUNT
            invariant
                i <= super::map::RESOURCE_COUNT,
                self.wf(),
                w == self.map.width,
                h == self.map.height,
                w > 0,
                h > 0,
                self.players == pre.players,
                self.teams == pre.teams,
                self.next_id == pre.next_id,
                all == respawn_from(pre.map.cells(), w, h, pre.rng, 0),
                ({
                    let (c, r, l) = respawn_from(self.map.cells(), w, h, self.rng, i as nat);
                    &&& all.0 == c
                    &&& all.1 == r
                    &&& all.2 == emitted + l
                }),
                self.outbox@.len() == pre.outbox@.len() + emitted.len(),
                forall|q: int| 0 <= q < pre.outbox@.len() ==> #[trigger] self.outbox@[q] == pre.outbox@[q],
                forall|q: int|
                    0 <= q < emitted.len() ==> (#[trigger] self.outbox@[pre.outbox@.len() + q]).0 == Target::AllGui
                        && self.outbox@[pre.outbox@.len() + q].1@ == emitted[q],
            decreases super::map::RESOURCE_COUNT - i,
        {
            let ghost before = *self;
            let res = super::map::Resource::from_index(i);
            proof {
                assert(self.map.cells().len() == w * h);
                lemma_side_bound(w, h);
                assert(w * h <= usize::MAX) by (nonlinear_arith)
                    requires
                        w * h * 28 <= isize::MAX,
                        w > 0,
                        h > 0;
            }
            let total = self.map.total_wide(res);
            let target = target_units(i, self.map.width, self.map.height);
            if total < target {
                self.scatter_units(i, target - total);
            }
            proof {
                let cells0 = before.map.cells();
                let k: nat = if total < target {
                    (target - total) as nat
                } else {
                    0
                };
                let (c, r, l) = scatter(cells0, w, h, before.rng, i as int, k);
                assert(super::map::res_at(i as nat) == res);
                assert(respawn_from(cells0, w, h, before.rng, i as nat) == ({
                    let (c2, r2, l2) = respawn_from(c, w, h, r, (i + 1) as nat);
                    (c2, r2, l + l2)
                }));
                if total >= target {
                    assert(c == cells0 && r == before.rng && l == Seq::<Seq<char>>::empty());
                }
                assert(self.map.cells() == c);
                assert(self.rng == r);
                let old_emitted = emitted;
                emitted = emitted + l;
                let (c2, r2, l2) = respawn_from(c, w, h, r, (i + 1) as nat);
                assert(all.2 == old_emitted + (l + l2));
                assert(all.2 =~= emitted + l2);
                assert forall|q: int|
                    0 <= q < emitted.len() implies (#[trigger] self.outbox@[pre.outbox@.len() + q]).0 == Target::AllGui
                        && self.outbox@[pre.outbox@.len() + q].1@ == emitted[q] by {
                    if q < old_emitted.len() {
                        assert(self.outbox@[pre.outbox@.len() + q] == before.outbox@[pre.outbox@.len() + q]);
                    } else {
                        assert(self.outbox@[before.outbox@.len() + (q - old_emitted.len())] == self.outbox@[pre.outbox@.len() + q]);
                    }
                }
                assert forall|q: int| 0 <= q < pre.outbox@.len() implies #[trigger] self.outbox@[q] == pre.outbox@[q] by {
                    assert(self.outbox@[q] == before.outbox@[q]);
                }
            }
            i += 1;
        }
        proof {
            let (c, r, l) = respawn_from(self.map.cells(), w, h, self.rng, 7);
            assert(l == Seq::<Seq<char>>::empty());
            assert(emitted + l =~= emitted);
        }
    }

    /// Queues `pdi #player` for the graphical clients.
    fn tell_death(&mut self, player: u32)
        requires
            old(self).wf(),
        ensures
            final(self).wf(),
            death_told(*old(self), *final(self), player),
            final(self).players == old(self).players,
            final(self).map == old(self).map,
            final(self).teams == old(self).teams,
            final(self).next_id == old(self).next_id,
            final(self).rng == old(self).rng,
    {
        match super::gui::GuiEvent::PlayerDied(player).encode(self) {
            Some(line) => {
                self.outbox.push((Target::AllGui, line));
                assert(self.outbox@.drop_last() =~= old(self).outbox@);
            },
            None => {
                assert(false);
            },
        }
    }

    /// Whether `start_next(player)` can number a new command.
    pub fn can_start(&self, player: u32) -> (r: bool)
        ensures
            r == (self.players@.contains_key(player) ==> self.players@[player].cmd_seq < u64::MAX),
    {
        match self.players.get(&player) {
            Some(p) => p.cmd_seq < u64::MAX,
            None => true,
        }
    }

    /// Whether `finish_command(player, command_id)` runs without
    /// overflowing a counter.
    pub fn can_finish(&self, player: u32, command_id: u64) -> (r: bool)
        requires
            self.wf(),
        ensures
            r == finish_defined(*self, player, command_id),
    {
        let p = match self.players.get(&player) {
            Some(p) => p,
            None => return true,
        };
        if !p.busy || p.current_cmd != command_id || p.queue.len() == 0 {
            return true;
        }
        proof {
            super::command::lemma_world_sides(*self, player);
        }
        match &p.queue[0] {
            Command::Take(item) => match super::map::Resource::from_name(item.as_str()) {
                Some(res) => {
                    let i = res.index();
                    self.map.tile(p.x, p.y).count(res) == 0 || p.inventory[i] < u32::MAX
                },
                None => true,
            },
            Command::Put(item) => match super::map::Resource::from_name(item.as_str()) {
                Some(res) => {
                    let i = res.index();
                    p.inventory[i] == 0 || self.map.tile(p.x, p.y).count(res) < u32::MAX
                },
                None => true,
            },
            Command::Fork => p.team >= self.teams.len() || self.teams[p.team].slots < usize::MAX,
            _ => true,
        }
    }

    /// Hands out the lines produced so far, leaving the outbox empty.
    pub fn take_outbox(&mut self) -> (r: Vec<(Target, String)>)
        ensures
            r@ == old(self).outbox@,
            final(self).outbox@.len() == 0,
            final(self).map == old(self).map,
            final(self).teams == old(self).teams,
            final(self).players == old(self).players,
            final(self).next_id == old(self).next_id,
            final(self).rng == old(self).rng,
    {
        let mut out: Vec<(Target, String)> = Vec::new();
        std::mem::swap(&mut out, &mut self.outbox);
        out
    }

    /// The ids of all drones, each once, in the map's iteration order.
    pub fn player_ids(&self) -> (ids: Vec<u32>)
        ensures
            ids@.no_duplicates(),
            ids@.to_set() == self.players@.dom(),
            ids@.len() == self.players@.dom().len(),
    {
        let mut ids: Vec<u32> = Vec::new();
        let keys = self.players.keys();
        let ghost all: Seq<u32> = vstd::std_specs::iter::IteratorSpec::remaining(&keys).unref();
        for k in it: keys
            invariant
                all == it.seq().unref(),
                ids@ == all.take(it.index() as int),
        {
            proof {
                assert(all.take(it.index() + 1) =~= all.take(it.index() as int).push(*k));
            }
            ids.push(*k);
        }
        proof {
            assert(ids@ =~= all);
        }
        ids
    }
}

/// Drop every occurrence of `id` from `s`.
pub open spec fn drop_id(s: Seq<u32>, id: u32) -> Seq<u32>
    decreases s.len(),
{
    if s.len() == 0 {
        s
    } else if s.last() == id {
        drop_id(s.drop_last(), id)
    } else {
        drop_id(s.drop_last(), id).push(s.last())
    }
}

/// A team named `name` exists and has a free slot.
pub open spec fn joinable(teams: Seq<Team>, name: Seq<char>) -> bool {
    let i = team_position(teams, name);
    i < teams.len() && teams[i as int].slots > 0
}

/// `w` is the world `new` builds from these arguments, apart from the
/// generator state.
pub open spec fn fresh_world(w: World, width: usize, height: usize, names: Seq<String>, clients: usize) -> bool {
    &&& w.map.width == width
    &&& w.map.height == height
    &&& forall|i: int| 0 <= i < width * height ==> super::map::is_empty_tile(#[trigger] w.map.cells()[i])
    &&& w.teams@.len() == names.len()
    &&& forall|j: int|
        0 <= j < names.len() ==> (#[trigger] w.teams@[j]).name == names[j] && w.teams@[j].slots
            == clients && w.teams@[j].players@.len() == 0
    &&& w.players@.len() == 0
    &&& w.outbox@.len() == 0
    &&& w.next_id == 1
}

/// Outcome of `add_player` on `pre` for `name`, leading to `post`.
pub open spec fn joined(pre: World, post: World, name: Seq<char>, r: Result<(u32, usize), JoinError>) -> bool {
    let i = team_position(pre.teams@, name) as int;
    if i >= pre.teams@.len() {
        r == Err::<(u32, usize), JoinError>(JoinError::UnknownTeam) && post == pre
    } else if pre.teams@[i].slots == 0 {
        r == Err::<(u32, usize), JoinError>(JoinError::TeamFull) && post == pre
    } else {
        let id = pre.next_id;
        let r1 = xorshift(pre.rng);
        let r2 = xorshift(r1);
        let r3 = xorshift(r2);
        let p = post.players@[id];
        &&& r == Ok::<(u32, usize), JoinError>((id, (pre.teams@[i].slots - 1) as usize))
        &&& post.next_id == pre.next_id + 1
        &&& post.rng == r3
        &&& post.map == pre.map
        &&& post.outbox == pre.outbox
        &&& post.teams@.len() == pre.teams@.len()
        &&& forall|j: int| 0 <= j < pre.teams@.len() && j != i ==> #[trigger] post.teams@[j] == pre.teams@[j]
        &&& post.teams@[i].name == pre.teams@[i].name
        &&& post.teams@[i].slots == pre.teams@[i].slots - 1
        &&& post.teams@[i].players@ == pre.teams@[i].players@.push(id)
        &&& !pre.players@.contains_key(id)
        &&& post.players@.dom() == pre.players@.dom().insert(id)
        &&& forall|k: u32| k != id && #[trigger] pre.players@.contains_key(k) ==> post.players@[k] == pre.players@[k]
        &&& p.id == id
        &&& p.team == i
        &&& p.x == (r1 as isize) as int % pre.map.width as int
        &&& p.y == (r2 as isize) as int % pre.map.height as int
        &&& p.orientation == match r3 % 4 {
            0 => Orientation::North,
            1 => Orientation::East,
            2 => Orientation::South,
            _ => Orientation::West,
        }
        &&& p.level == 1
        &&& p.inventory@ == seq![10u32, 0, 0, 0, 0, 0, 0]
        &&& p.queue@.len() == 0
        &&& !p.busy
        &&& p.current_cmd == 0
        &&& p.cmd_seq == 0
    }
}

/// `post` is `pre` with drone `id` replaced by `p` (which must exist).
pub open spec fn only_player_changed(pre: World, post: World, id: u32, p: Player) -> bool {
    &&& pre.players@.contains_key(id)
    &&& post.players@ == pre.players@.insert(id, p)
    &&& post.map == pre.map
    &&& post.teams == pre.teams
    &&& post.outbox == pre.outbox
    &&& post.next_id == pre.next_id
    &&& post.rng == pre.rng
}

/// Outcome of `enqueue_command(player, line)`.
pub open spec fn enqueued(pre: World, post: World, player: u32, line: Seq<char>, r: Result<(), EnqueueError>) -> bool {
    if !(exists|c: Command| parsed_command(line, Some(c))) || !pre.players@.contains_key(player) {
        r == Err::<(), EnqueueError>(EnqueueError::BadCommand) && post.players@ == pre.players@
            && post.map == pre.map && post.teams == pre.teams && post.outbox == pre.outbox
            && post.next_id == pre.next_id && post.rng == pre.rng
    } else if pre.players@[player].queue@.len() >= MAX_QUEUED {
        r == Err::<(), EnqueueError>(EnqueueError::QueueFull) && post.players@ == pre.players@
            && post.map == pre.map && post.teams == pre.teams && post.outbox == pre.outbox
            && post.next_id == pre.next_id && post.rng == pre.rng
    } else {
        let p = pre.players@[player];
        let q = post.players@[player];
        &&& r == Ok::<(), EnqueueError>(())
        &&& only_player_changed(pre, post, player, q)
        &&& q.queue@.len() == p.queue@.len() + 1
        &&& q.queue@.drop_last() == p.queue@
        &&& parsed_command(line, Some(q.queue@.last()))
        &&& q.id == p.id && q.team == p.team && q.x == p.x && q.y == p.y
        &&& q.orientation == p.orientation && q.level == p.level && q.inventory == p.inventory
        &&& q.busy == p.busy && q.current_cmd == p.current_cmd && q.cmd_seq == p.cmd_seq
    }
}

/// Outcome of `start_next(player)`.
pub open spec fn started(pre: World, post: World, player: u32, r: Option<(u64, u32)>) -> bool {
    if !pre.players@.contains_key(player) || pre.players@[player].busy
        || pre.players@[player].queue@.len() == 0 {
        r is None && post.players@ == pre.players@ && post.map == pre.map && post.teams
            == pre.teams && post.outbox == pre.outbox && post.next_id == pre.next_id
            && post.rng == pre.rng
    } else {
        let p = pre.players@[player];
        let q = post.players@[player];
        &&& r == Some(((p.cmd_seq + 1) as u64, command_cost(p.queue@[0])))
        &&& only_player_changed(pre, post, player, q)
        &&& q.busy
        &&& q.cmd_seq == p.cmd_seq + 1
        &&& q.current_cmd == q.cmd_seq
        &&& q.queue == p.queue
        &&& q.id == p.id && q.team == p.team && q.x == p.x && q.y == p.y
        &&& q.orientation == p.orientation && q.level == p.level && q.inventory == p.inventory
    }
}

/// `finish_command(player, command_id)` runs a command.
pub open spec fn finish_runs(pre: World, player: u32, command_id: u64) -> bool {
    &&& pre.players@.contains_key(player)
    &&& pre.players@[player].busy
    &&& pre.players@[player].current_cmd == command_id
    &&& pre.players@[player].queue@.len() > 0
}

/// The drone state right before the finished command runs: idle, with the
/// command taken off its queue.
pub open spec fn before_run(pre: World, mid: World, player: u32) -> bool {
    let p = pre.players@[player];
    let q = mid.players@[player];
    &&& only_player_changed(pre, mid, player, q)
    &&& !q.busy
    &&& q.current_cmd == 0
    &&& q.queue@ == p.queue@.drop_first()
    &&& q.id == p.id && q.team == p.team && q.x == p.x && q.y == p.y
    &&& q.orientation == p.orientation && q.level == p.level && q.inventory == p.inventory
    &&& q.cmd_seq == p.cmd_seq
}

/// `finish_command(player, command_id)` cannot overflow a counter.
pub open spec fn finish_defined(pre: World, player: u32, command_id: u64) -> bool {
    finish_runs(pre, player, command_id) ==> super::command::execute_defined(
        pre.players@[player].queue@[0],
        pre,
        player,
    )
}

/// Outcome of `finish_command(player, command_id)`.
pub open spec fn finished(pre: World, post: World, player: u32, command_id: u64, r: Option<String>) -> bool {
    if !pre.players@.contains_key(player) || !pre.players@[player].busy
        || pre.players@[player].current_cmd != command_id {
        r is None && post.players@ == pre.players@ && post.map == pre.map && post.teams
            == pre.teams && post.outbox == pre.outbox && post.next_id == pre.next_id
            && post.rng == pre.rng
    } else if pre.players@[player].queue@.len() == 0 {
        let q = post.players@[player];
        &&& r is None
        &&& only_player_changed(pre, post, player, q)
        &&& !q.busy && q.current_cmd == 0
        &&& q.queue@ == pre.players@[player].queue@
    } else {
        exists|mid: World|
            #![trigger before_run(pre, mid, player)]
            before_run(pre, mid, player) && mid.wf() && (r matches Some(reply)
                && super::command::executed(pre.players@[player].queue@[0], mid, post, player, reply))
    }
}

/// Outcome of a hunger tick for drone `player`.
pub open spec fn starved(pre: World, post: World, player: u32, r: StarveResult) -> bool {
    if !pre.players@.contains_key(player) {
        r == StarveResult::Gone && post == pre
    } else {
        let p = pre.players@[player];
        let food = p.inventory@[0];
        if food == 0 {
            &&& r == StarveResult::Died
            &&& post.players == pre.players
            &&& post.map == pre.map
            &&& post.teams == pre.teams
            &&& death_told(pre, post, player)
            &&& post.next_id == pre.next_id
            &&& post.rng == pre.rng
        } else {
            &&& r == if food == 1 {
                StarveResult::Died
            } else {
                StarveResult::Survived
            }
            &&& post.players@ == pre.players@.insert(player, super::command::with_stock(p, 0, food - 1))
            &&& post.map == pre.map
            &&& post.teams == pre.teams
            &&& if food == 1 {
                death_told(pre, post, player)
            } else {
                post.outbox == pre.outbox
            }
            &&& post.next_id == pre.next_id
            &&& post.rng == pre.rng
        }
    }
}

/// The outbox of `post` is that of `pre` followed by `pdi #player` for
/// every graphical client.
pub open spec fn death_told(pre: World, post: World, player: u32) -> bool {
    &&& post.outbox@.len() == pre.outbox@.len() + 1
    &&& post.outbox@.drop_last() == pre.outbox@
    &&& post.outbox@.last().0 == Target::AllGui
    &&& post.outbox@.last().1@ == "pdi "@ + super::gui::hash_id(player as nat)
}

/// Share of the squares that should hold a unit of the resource at counter
/// `i`, as a fraction: food 1/2, linemate 3/10, deraumere 3/20, sibur
/// 1/10, mendiane 1/10, phiras 2/25, thystame 1/20.
pub open spec fn density_share(i: nat) -> (nat, nat) {
    if i == 0 {
        (1, 2)
    } else if i == 1 {
        (3, 10)
    } else if i == 2 {
        (3, 20)
    } else if i == 3 {
        (1, 10)
    } else if i == 4 {
        (1, 10)
    } else if i == 5 {
        (2, 25)
    } else {
        (1, 20)
    }
}

/// Units of the resource at counter `i` a `w * h` board should hold:
/// `floor(w * h * density)`, and at least one.
pub open spec fn resource_target(i: nat, w: nat, h: nat) -> nat {
    let t = w * h * density_share(i).0 / density_share(i).1;
    if t == 0 {
        1
    } else {
        t
    }
}

/// `t` with one more unit at counter `i`, unless that counter is full.
pub open spec fn add_unit(t: super::map::Tile, i: int) -> super::map::Tile {
    if t.resources@[i] < u32::MAX {
        super::map::Tile { resources: vstd::array::spec_array_update(t.resources, i, (t.resources@[i] + 1) as u32) }
    } else {
        t
    }
}

/// `bct X Y q0..q6` for square `(x, y)` of the row-by-row tiles `cells`
/// of a board `w` squares wide.
pub open spec fn cell_line(cells: Seq<super::map::Tile>, w: int, x: int, y: int) -> Seq<char> {
    "bct "@ + crate::text::dec(x as nat) + " "@ + crate::text::dec(y as nat) + " "@
        + super::gui::quantities_text(cells[y * w + x].resources@)
}

/// Drops `k` units of the resource at counter `i` on squares drawn from the
/// generator (two draws a unit: column, then row), starting from tiles
/// `cells` and generator state `rng`: the tiles, the generator state, and
/// the `bct` line of each square as it stands after its unit.
pub open spec fn scatter(cells: Seq<super::map::Tile>, w: int, h: int, rng: u64, i: int, k: nat) -> (
    Seq<super::map::Tile>,
    u64,
    Seq<Seq<char>>,
)
    decreases k,
{
    if k == 0 {
        (cells, rng, seq![])
    } else {
        let (c, r, lines) = scatter(cells, w, h, rng, i, (k - 1) as nat);
        let r1 = xorshift(r);
        let r2 = xorshift(r1);
        let x = (r1 as isize) as int % w;
        let y = (r2 as isize) as int % h;
        let c2 = c.update(y * w + x, add_unit(c[y * w + x], i));
        (c2, r2, lines.push(cell_line(c2, w, x, y)))
    }
}

/// Tops up every resource from counter `i` on, in counter order, to its
/// target on a `w * h` board.
pub open spec fn respawn_from(cells: Seq<super::map::Tile>, w: int, h: int, rng: u64, i: nat) -> (
    Seq<super::map::Tile>,
    u64,
    Seq<Seq<char>>,
)
    decreases 7 - i,
{
    if i >= 7 {
        (cells, rng, seq![])
    } else {
        let total = super::map::sum_counts(cells, super::map::res_at(i), cells.len() as int);
        let target = resource_target(i, w as nat, h as nat);
        let k: nat = if total < target {
            (target - total) as nat
        } else {
            0
        };
        let (c, r, l) = scatter(cells, w, h, rng, i as int, k);
        let (c2, r2, l2) = respawn_from(c, w, h, r, i + 1);
        (c2, r2, l + l2)
    }
}

/// Units of the resource at counter `i` a `w * h` board should hold, as
/// `resource_target` says.
fn target_units(i: usize, w: usize, h: usize) -> (r: u128)
    requires
        i < super::map::RESOURCE_COUNT,
        w * h <= usize::MAX,
    ensures
        r == resource_target(i as nat, w as nat, h as nat),
{
    let (a, b): (u128, u128) = if i == 0 {
        (1, 2)
    } else if i == 1 {
        (3, 10)
    } else if i == 2 {
        (3, 20)
    } else if i == 3 {
        (1, 10)
    } else if i == 4 {
        (1, 10)
    } else if i == 5 {
        (2, 25)
    } else {
        (1, 20)
    };
    let n = (w * h) as u128;
    assert(n * a <= 0x1_0000_0000_0000_0000 * 3) by (nonlinear_arith)
        requires
            n <= 0x1_0000_0000_0000_0000,
            a <= 3;
    assert(n == w as nat * h as nat);
    let t = n * a / b;
    if t == 0 {
        1
    } else {
        t
    }
}

/// Outcome of `respawn` on `pre`.
pub open spec fn respawned(pre: World, post: World) -> bool {
    let (c, r, lines) = respawn_from(pre.map.cells(), pre.map.width as int, pre.map.height as int, pre.rng, 0);
    &&& post.map.width == pre.map.width
    &&& post.map.height == pre.map.height
    &&& post.map.cells() == c
    &&& post.rng == r
    &&& post.players == pre.players
    &&& post.teams == pre.teams
    &&& post.next_id == pre.next_id
    &&& post.outbox@.len() == pre.outbox@.len() + lines.len()
    &&& forall|j: int| 0 <= j < pre.outbox@.len() ==> #[trigger] post.outbox@[j] == pre.outbox@[j]
    &&& forall|j: int|
        0 <= j < lines.len() ==> (#[trigger] post.outbox@[pre.outbox@.len() + j]).0 == Target::AllGui
            && post.outbox@[pre.outbox@.len() + j].1@ == lines[j]
}

/// Outcome of `remove_player(player)`.
pub open spec fn removed(pre: World, post: World, player: u32) -> bool {
    &&& post.players@ == pre.players@.remove(player)
    &&& post.map == pre.map
    &&& post.outbox == pre.outbox
    &&& post.next_id == pre.next_id
    &&& post.rng == pre.rng
    &&& post.teams@.len() == pre.teams@.len()
    &&& forall|j: int|
        0 <= j < pre.teams@.len() ==> {
            let t = #[trigger] post.teams@[j];
            let u = pre.teams@[j];
            &&& t.name == u.name
            &&& t.slots == u.slots
            &&& t.players@ == if pre.players@.contains_key(player) && pre.players@[player].team == j {
                drop_id(u.players@, player)
            } else {
                u.players@
            }
        }
}

/// Reads the system clock: nanoseconds since the Unix epoch, or `None`
/// when the clock stands before it.
#[verifier::external_body]
fn clock_nanos() -> (r: Option<u128>) {
    std::time::SystemTime::now().duration_since(std::time::UNIX_EPOCH).ok().map(|d| d.as_nanos())
}

/// A non-empty board whose tiles fit in memory has sides within `isize`.
proof fn lemma_side_bound(w: int, h: int)
    requires
        w > 0,
        h > 0,
        w * h * 28 <= isize::MAX,
    ensures
        w <= isize::MAX / 28,
        h <= isize::MAX / 28,
{
    assert(w * h >= w && w * h >= h) by (nonlinear_arith)
        requires
            w > 0,
            h > 0,
    ;
}

/// Requests run in the order received: a command queued while the drone
/// works goes behind those already waiting, and the command a finishing
/// action runs is the first of the queue.
pub proof fn law_requests_run_in_order(
    w0: World,
    w1: World,
    w2: World,
    player: u32,
    line: Seq<char>,
    command_id: u64,
    r: Option<String>,
)
    requires
        enqueued(w0, w1, player, line, Ok(())),
        finish_runs(w1, player, command_id),
        finished(w1, w2, player, command_id, r),
    ensures
        exists|c: Command, mid: World|
            #![trigger parsed_command(line, Some(c)), before_run(w1, mid, player)]
            {
                let queue = w0.players@[player].queue@.push(c);
                &&& parsed_command(line, Some(c))
                &&& before_run(w1, mid, player)
                &&& mid.players@[player].queue@ == queue.drop_first()
                &&& r matches Some(reply) && super::command::executed(queue[0], mid, w2, player, reply)
            },
{
    let p = w0.players@[player];
    let q = w1.players@[player];
    let c = q.queue@.last();
    assert(q.queue@ =~= p.queue@.push(c));
    let mid = choose|mid: World| #[trigger] before_run(w1, mid, player) && mid.wf() && (r matches Some(reply)
        && super::command::executed(w1.players@[player].queue@[0], mid, w2, player, reply));
    assert(parsed_command(line, Some(c)));
    assert(before_run(w1, mid, player));
}

/// Running a command leaves the drone that runs it present and its
/// `busy` flag as it was.
proof fn lemma_executed_keeps_drone(c: Command, pre: World, post: World, player: u32, reply: String)
    requires
        pre.players@.contains_key(player),
        super::command::executed(c, pre, post, player, reply),
    ensures
        post.players@.contains_key(player),
        post.players@[player].busy == pre.players@[player].busy,
        post.players@[player].current_cmd == pre.players@[player].current_cmd,
{
    match c {
        Command::Eject => {
            if super::command::eject_targets(pre, player) != Set::<u32>::empty() {
                assert(!super::command::eject_targets(pre, player).contains(player));
            }
        },
        _ => {},
    }
}

/// An action finishes once: after the command numbered `command_id` has
/// run, a second completion with that number is ignored.
pub proof fn law_finish_once(
    w1: World,
    w2: World,
    w3: World,
    player: u32,
    command_id: u64,
    r2: Option<String>,
    r3: Option<String>,
)
    requires
        finish_runs(w1, player, command_id),
        finished(w1, w2, player, command_id, r2),
        finished(w2, w3, player, command_id, r3),
    ensures
        r2 is Some,
        r3 is None,
        w3.players@ == w2.players@,
        w3.map == w2.map,
        w3.teams == w2.teams,
        w3.outbox == w2.outbox,
        w3.next_id == w2.next_id,
        w3.rng == w2.rng,
{
    let mid = choose|mid: World| #[trigger] before_run(w1, mid, player) && mid.wf() && (r2 matches Some(reply)
        && super::command::executed(w1.players@[player].queue@[0], mid, w2, player, reply));
    assert(before_run(w1, mid, player));
    assert(mid.players@.contains_key(player));
    let reply = r2->Some_0;
    lemma_executed_keeps_drone(w1.players@[player].queue@[0], mid, w2, player, reply);
}

/// The target of every resource is `floor(width * height * density)`, with
/// the densities food 0.5, linemate 0.3, deraumere 0.15, sibur 0.1,
/// mendiane 0.1, phiras 0.08, thystame 0.05, and never less than one, so
/// that at least one unit of each exists on the board.
pub proof fn law_resource_targets(i: nat, w: nat, h: nat)
    requires
        i < 7,
    ensures
        resource_target(i, w, h) >= 1,
        ({
            let hundredths: nat = if i == 0 {
                50
            } else if i == 1 {
                30
            } else if i == 2 {
                15
            } else if i == 3 || i == 4 {
                10
            } else if i == 5 {
                8
            } else {
                5
            };
            let exact = w * h * hundredths / 100;
            resource_target(i, w, h) == if exact == 0 {
                1
            } else {
                exact
            }
        }),
{
    let n = w * h;
    let (a, b) = density_share(i);
    let hundredths: nat = if i == 0 {
        50
    } else if i == 1 {
        30
    } else if i == 2 {
        15
    } else if i == 3 || i == 4 {
        10
    } else if i == 5 {
        8
    } else {
        5
    };
    assert(hundredths * b == 100 * a);
    assert(n * a / b == n * hundredths / 100) by (nonlinear_arith)
        requires
            hundredths * b == 100 * a,
            b > 0,
            n >= 0;
}

} // verus!
