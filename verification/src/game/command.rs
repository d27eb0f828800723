//! AI commands: parsing a request line, its time cost, and its effect on
//! the world.

use vstd::prelude::*;

use super::map::{res_at, res_from_name, res_index, res_name, ring_delta_spec, Resource, Tile, RESOURCE_COUNT};
use super::player::{
    orientation_vec, sound_dir_spec, turn_left, turn_right, Orientation, Player,
};
use super::world::{ids_at, Target, World, TILE_BYTES};
use super::team::Team;
use vstd::array::spec_array_update;
use crate::text::{chars_are, copies, dec, join, push_dec, string_of, trim, trim_bounds};

verus! {

/// Most commands a drone may have waiting.
pub const MAX_QUEUED: usize = 10;

/// One AI request.
#[derive(Debug, Clone, PartialEq, Eq)]
pub enum Command {
    Forward,
    Right,
    Left,
    Look,
    Inventory,
    Broadcast(String),
    ConnectNbr,
    Fork,
    Eject,
    Take(String),
    Put(String),
    Incantation,
}

/// Why a request line was not queued.
#[derive(Debug, Clone, Copy, PartialEq, Eq, Structural)]
pub enum EnqueueError {
    /// Unknown verb or a missing argument: reply `ko` to the AI.
    BadCommand,
    /// Queue already holds `MAX_QUEUED`: silently dropped.
    QueueFull,
}

/// Position of the first space of `s`, or its length when it has none.
pub open spec fn space_pos(s: Seq<char>) -> nat
    decreases s.len(),
{
    if s.len() == 0 {
        0
    } else if s[0] == ' ' {
        0
    } else {
        1 + space_pos(s.drop_first())
    }
}

/// The verb of a request line: the trimmed line up to its first space.
pub open spec fn line_verb(line: Seq<char>) -> Seq<char> {
    let t = trim(line);
    t.take(space_pos(t) as int)
}

/// The argument of a request line: what follows the first space of the
/// trimmed line, trimmed; empty without a space.
pub open spec fn line_arg(line: Seq<char>) -> Seq<char> {
    let t = trim(line);
    let p = space_pos(t) as int;
    if p < t.len() {
        trim(t.skip(p + 1))
    } else {
        seq![]
    }
}

/// A verb that takes no argument, with the command it names.
pub open spec fn plain_command(verb: Seq<char>) -> Option<Command> {
    if verb == "Forward"@ {
        Some(Command::Forward)
    } else if verb == "Right"@ {
        Some(Command::Right)
    } else if verb == "Left"@ {
        Some(Command::Left)
    } else if verb == "Look"@ {
        Some(Command::Look)
    } else if verb == "Inventory"@ {
        Some(Command::Inventory)
    } else if verb == "Connect_nbr"@ {
        Some(Command::ConnectNbr)
    } else if verb == "Fork"@ {
        Some(Command::Fork)
    } else if verb == "Eject"@ {
        Some(Command::Eject)
    } else if verb == "Incantation"@ {
        Some(Command::Incantation)
    } else {
        None
    }
}

/// Whether `r` is the reading of the request line `line`: a verb without
/// argument gives its command (any argument is ignored); `Broadcast`,
/// `Take` and `Set` need a non-empty argument, which they carry; anything
/// else reads as nothing.
pub open spec fn parsed_command(line: Seq<char>, r: Option<Command>) -> bool {
    let verb = line_verb(line);
    let arg = line_arg(line);
    if plain_command(verb) is Some {
        r == plain_command(verb)
    } else if verb == "Broadcast"@ {
        if arg.len() == 0 {
            r is None
        } else {
            r matches Some(Command::Broadcast(m)) && m@ == arg
        }
    } else if verb == "Take"@ {
        if arg.len() == 0 {
            r is None
        } else {
            r matches Some(Command::Take(m)) && m@ == arg
        }
    } else if verb == "Set"@ {
        if arg.len() == 0 {
            r is None
        } else {
            r matches Some(Command::Put(m)) && m@ == arg
        }
    } else {
        r is None
    }
}

/// Time units a command takes.
pub open spec fn command_cost(c: Command) -> u32 {
    match c {
        Command::ConnectNbr => 0,
        Command::Inventory => 1,
        Command::Fork => 42,
        Command::Incantation => 300,
        _ => 7,
    }
}

/// First space of `v[lo..hi]`, or `hi` when there is none.
fn find_space(v: &Vec<char>, lo: usize, hi: usize) -> (p: usize)
    requires
        lo <= hi <= v.len(),
    ensures
        lo <= p <= hi,
        p - lo == space_pos(v@.subrange(lo as int, hi as int)),
{
    let mut p = lo;
    while p < hi && v[p] != ' '
        invariant
            lo <= p <= hi <= v.len(),
            space_pos(v@.subrange(lo as int, hi as int)) == (p - lo) + space_pos(
                v@.subrange(p as int, hi as int),
            ),
        decreases hi - p,
    {
        assert(v@.subrange(p as int, hi as int).drop_first() =~= v@.subrange(p + 1, hi as int));
        p += 1;
    }
    p
}

impl Command {
    /// Reads an AI request line.
    pub fn parse(line: &str) -> (r: Option<Command>)
        ensures
            parsed_command(line@, r),
    {
        let v = crate::text::chars_of(line);
        let (lo, hi) = trim_bounds(&v, 0, v.len());
        assert(v@.subrange(0, v@.len() as int) =~= line@);
        let ghost t = v@.subrange(lo as int, hi as int);
        let p = find_space(&v, lo, hi);
        let verb = string_of(&v, lo, p);
        let (alo, ahi) = if p < hi {
            trim_bounds(&v, p + 1, hi)
        } else {
            (hi, hi)
        };
        proof {
            assert(verb@ =~= t.take(p - lo));
            if p < hi {
                assert(t.skip(p - lo + 1) =~= v@.subrange(p + 1, hi as int));
            } else {
                assert(v@.subrange(alo as int, ahi as int) =~= Seq::<char>::empty());
            }
        }
        let verb_chars = crate::text::chars_of(verb.as_str());
        let has_arg = alo < ahi;
        if chars_are(&verb_chars, "Forward") {
            Some(Command::Forward)
        } else if chars_are(&verb_chars, "Right") {
            Some(Command::Right)
        } else if chars_are(&verb_chars, "Left") {
            Some(Command::Left)
        } else if chars_are(&verb_chars, "Look") {
            Some(Command::Look)
        } else if chars_are(&verb_chars, "Inventory") {
            Some(Command::Inventory)
        } else if chars_are(&verb_chars, "Connect_nbr") {
            Some(Command::ConnectNbr)
        } else if chars_are(&verb_chars, "Fork") {
            Some(Command::Fork)
        } else if chars_are(&verb_chars, "Eject") {
            Some(Command::Eject)
        } else if chars_are(&verb_chars, "Incantation") {
            Some(Command::Incantation)
        } else if chars_are(&verb_chars, "Broadcast") {
            if has_arg {
                Some(Command::Broadcast(string_of(&v, alo, ahi)))
            } else {
                None
            }
        } else if chars_are(&verb_chars, "Take") {
            if has_arg {
                Some(Command::Take(string_of(&v, alo, ahi)))
            } else {
                None
            }
        } else if chars_are(&verb_chars, "Set") {
            if has_arg {
                Some(Command::Put(string_of(&v, alo, ahi)))
            } else {
                None
            }
        } else {
            None
        }
    }

    /// Time units this command takes.
    pub fn cost(&self) -> (r: u32)
        ensures
            r == command_cost(*self),
    {
        match self {
            Command::ConnectNbr => 0,
            Command::Inventory => 1,
            Command::Fork => 42,
            Command::Incantation => 300,
            Command::Forward
            | Command::Right
            | Command::Left
            | Command::Look
            | Command::Broadcast(_)
            | Command::Eject
            | Command::Take(_)
            | Command::Put(_) => 7,
        }
    }
}


// ---------------------------------------------------------------------------
// Effect of a command on the world
// ---------------------------------------------------------------------------

/// `p` standing on square `(x, y)`.
pub open spec fn moved_to(p: Player, x: int, y: int) -> Player {
    Player { x: x as usize, y: y as usize, ..p }
}

/// `p` facing `o`.
pub open spec fn facing(p: Player, o: Orientation) -> Player {
    Player { orientation: o, ..p }
}

/// `p` with the counter of resource `i` set to `n`.
pub open spec fn with_stock(p: Player, i: int, n: int) -> Player {
    Player { inventory: spec_array_update(p.inventory, i, n as u32), ..p }
}

/// The square one step ahead of drone `p`, the board wrapping around.
pub open spec fn ahead(w: World, p: Player) -> (int, int) {
    let (dx, dy) = orientation_vec(p.orientation);
    ((p.x + dx) % (w.map.width as int), (p.y + dy) % (w.map.height as int))
}

/// `post` is `pre` apart from drone `id`, which is now `p`.
pub open spec fn drone_became(pre: World, post: World, id: u32, p: Player) -> bool {
    &&& post.players@ == pre.players@.insert(id, p)
    &&& post.map == pre.map
    &&& post.teams == pre.teams
    &&& post.outbox == pre.outbox
    &&& post.next_id == pre.next_id
    &&& post.rng == pre.rng
}

/// Rows `0..rows` of the vision cone, as `(distance, lateral)` pairs, each
/// row from left to right.
pub open spec fn cone(rows: nat) -> Seq<(int, int)>
    decreases rows,
{
    if rows == 0 {
        seq![]
    } else {
        let d = rows - 1;
        cone((rows - 1) as nat) + Seq::new((2 * d + 1) as nat, |j: int| (d as int, j - d))
    }
}

/// The square `d` rows ahead and `lat` columns to the right of drone `p`.
pub open spec fn seen_square(w: World, p: Player, d: int, lat: int) -> (int, int) {
    let (fx, fy) = orientation_vec(p.orientation);
    let (rx, ry) = (-fy, fx);
    (
        (p.x + fx * d + rx * lat) % (w.map.width as int),
        (p.y + fy * d + ry * lat) % (w.map.height as int),
    )
}

/// Words naming the resources of a tile: each resource name repeated by
/// its count, for the first `k` resources in counter order.
pub open spec fn resource_words(t: Tile, k: nat) -> Seq<Seq<char>>
    decreases k,
{
    if k == 0 {
        seq![]
    } else {
        resource_words(t, (k - 1) as nat) + copies(
            res_name(res_at((k - 1) as nat)),
            t.resources@[k - 1] as nat,
        )
    }
}

/// Contents of square `(x, y)` as `Look` shows it: `player` per drone on
/// it, then the resources, separated by spaces.
pub open spec fn square_text(w: World, x: int, y: int) -> Seq<char> {
    join(
        copies("player"@, ids_at(w.players@, x, y).len()) + resource_words(
            w.map.tile_at(x, y),
            RESOURCE_COUNT as nat,
        ),
        " "@,
    )
}

/// Contents of the cone cell `c = (distance, lateral)` seen by drone `p`.
pub open spec fn cell_text(w: World, p: Player, c: (int, int)) -> Seq<char> {
    let sq = seen_square(w, p, c.0, c.1);
    square_text(w, sq.0, sq.1)
}

/// Reply to `Look` for drone `player`: its vision cone, tile by tile.
pub open spec fn look_text(w: World, player: u32) -> Seq<char> {
    let p = w.players@[player];
    let cells = cone((p.level + 1) as nat);
    "["@ + join(Seq::new(cells.len(), |i: int| cell_text(w, p, cells[i])), ", "@) + "]"@
}

/// Direction number under which drone `o` hears a sound from square
/// `(ex, ey)`.
pub open spec fn heard_from(w: World, o: Player, ex: int, ey: int) -> u8 {
    sound_dir_spec(
        o.orientation,
        (
            ring_delta_spec(o.x as int, ex, w.map.width as int),
            ring_delta_spec(o.y as int, ey, w.map.height as int),
        ),
    )
}

/// `message K, <text>`.
pub open spec fn message_line(k: u8, msg: Seq<char>) -> Seq<char> {
    "message "@ + dec(k as nat) + ", "@ + msg
}

/// `eject: K`.
pub open spec fn eject_line(k: u8) -> Seq<char> {
    "eject: "@ + dec(k as nat)
}

/// `post.outbox` is `pre.outbox` followed by one line per id of `order`,
/// addressed to that drone and reading `line(id)`.
pub open spec fn outbox_extended(
    pre: World,
    post: World,
    order: Seq<u32>,
    line: spec_fn(u32) -> Seq<char>,
) -> bool {
    &&& post.outbox@.len() == pre.outbox@.len() + order.len()
    &&& forall|i: int| 0 <= i < pre.outbox@.len() ==> #[trigger] post.outbox@[i] == pre.outbox@[i]
    &&& forall|i: int|
        0 <= i < order.len() ==> {
            let e = #[trigger] post.outbox@[pre.outbox@.len() + i];
            &&& e.0 == Target::Player(order[i])
            &&& e.1@ == line(order[i])
        }
}

/// The outbox of `post` adds to that of `pre` the broadcast of `msg` from
/// square `(ex, ey)` to the drones `order`, in that order.
pub open spec fn broadcast_sent(pre: World, post: World, order: Seq<u32>, ex: int, ey: int, msg: Seq<char>) -> bool {
    outbox_extended(pre, post, order, |id: u32| message_line(heard_from(pre, pre.players@[id], ex, ey), msg))
}

/// The outbox of `post` adds to that of `pre` the ejection notices, for a
/// push along `(dx, dy)`, to the drones `order`, in that order.
pub open spec fn eject_sent(pre: World, post: World, order: Seq<u32>, dx: int, dy: int) -> bool {
    outbox_extended(pre, post, order, |id: u32| eject_line(sound_dir_spec(pre.players@[id].orientation, (-dx, -dy))))
}

/// A command runs without overflowing a counter.
pub open spec fn execute_defined(c: Command, w: World, player: u32) -> bool {
    let p = w.players@[player];
    match c {
        Command::Take(item) => match res_from_name(item@) {
            Some(r) => w.players@.contains_key(player) && w.map.tile_at(p.x as int, p.y as int).resources@[res_index(r) as int] > 0
                ==> p.inventory@[res_index(r) as int] < u32::MAX,
            None => true,
        },
        Command::Put(item) => match res_from_name(item@) {
            Some(r) => w.players@.contains_key(player) && p.inventory@[res_index(r) as int] > 0
                ==> w.map.tile_at(p.x as int, p.y as int).resources@[res_index(r) as int] < u32::MAX,
            None => true,
        },
        Command::Fork => w.players@.contains_key(player) && p.team < w.teams@.len() ==> w.teams@[p.team as int].slots
            < usize::MAX,
        _ => true,
    }
}

/// What an elevation from `level` needs: how many drones of that level on
/// the square, and the stones, counter by counter (food first, never
/// needed). `None` past level 7.
pub open spec fn elevation_need(level: u8) -> Option<(nat, Seq<u32>)> {
    if level == 1 {
        Some((1, seq![0u32, 1, 0, 0, 0, 0, 0]))
    } else if level == 2 {
        Some((2, seq![0u32, 1, 1, 1, 0, 0, 0]))
    } else if level == 3 {
        Some((2, seq![0u32, 2, 0, 1, 0, 2, 0]))
    } else if level == 4 {
        Some((4, seq![0u32, 1, 1, 2, 0, 1, 0]))
    } else if level == 5 {
        Some((4, seq![0u32, 1, 2, 1, 3, 0, 0]))
    } else if level == 6 {
        Some((6, seq![0u32, 1, 2, 3, 0, 1, 0]))
    } else if level == 7 {
        Some((6, seq![0u32, 2, 2, 2, 2, 2, 1]))
    } else {
        None
    }
}

/// The stones an elevation from `level` takes.
pub open spec fn elevation_stones(level: u8) -> Seq<u32> {
    match elevation_need(level) {
        Some((_, stones)) => stones,
        None => seq![],
    }
}

/// The drones of level `level` standing on square `(x, y)`.
pub open spec fn peers(players: Map<u32, Player>, x: int, y: int, level: u8) -> Set<u32> {
    players.dom().filter(|k: u32| players[k].x == x && players[k].y == y && players[k].level == level)
}

/// Drone `player` can rise a level: enough drones of its level share its
/// square and the square holds the stones.
pub open spec fn can_elevate(w: World, player: u32) -> bool {
    let p = w.players@[player];
    let t = w.map.tile_at(p.x as int, p.y as int);
    match elevation_need(p.level) {
        Some((n, stones)) => peers(w.players@, p.x as int, p.y as int, p.level).len() >= n && forall|i: int|
            0 <= i < RESOURCE_COUNT ==> t.resources@[i] >= #[trigger] stones[i],
        None => false,
    }
}

/// `p` one level up.
pub open spec fn raised(p: Player) -> Player {
    Player { level: (p.level + 1) as u8, ..p }
}

/// Drones of team `t` at the top level, 8.
pub open spec fn elite(players: Map<u32, Player>, t: int) -> nat {
    players.dom().filter(|k: u32| players[k].team == t && players[k].level == 8).len()
}

/// `seg N` for each of the first `j` teams, in order, that has at least six
/// drones at level 8 with `after` but not with `before`.
pub open spec fn winner_lines(teams: Seq<Team>, before: Map<u32, Player>, after: Map<u32, Player>, j: nat) -> Seq<
    Seq<char>,
>
    decreases j,
{
    if j == 0 {
        seq![]
    } else {
        let prev = winner_lines(teams, before, after, (j - 1) as nat);
        let t = j - 1;
        if elite(after, t) >= 6 && elite(before, t) < 6 {
            prev.push("seg "@ + teams[t].name@)
        } else {
            prev
        }
    }
}

/// The outbox of `post` is that of `pre` followed by `lines`, each for
/// every graphical client.
pub open spec fn told_all_gui(pre: World, post: World, lines: Seq<Seq<char>>) -> bool {
    &&& post.outbox@.len() == pre.outbox@.len() + lines.len()
    &&& forall|q: int| 0 <= q < pre.outbox@.len() ==> #[trigger] post.outbox@[q] == pre.outbox@[q]
    &&& forall|q: int|
        0 <= q < lines.len() ==> (#[trigger] post.outbox@[pre.outbox@.len() + q]).0 == Target::AllGui
            && post.outbox@[pre.outbox@.len() + q].1@ == lines[q]
}

/// Outcome of a successful elevation of drone `player` (present) on `pre`:
/// every drone of its level on its square rises a level, the stones are
/// taken off the square, and graphical clients hear `seg N` for each team
/// that now has six drones at level 8.
pub open spec fn elevated(pre: World, post: World, player: u32) -> bool {
    let p = pre.players@[player];
    let group = peers(pre.players@, p.x as int, p.y as int, p.level);
    let stones = elevation_stones(p.level);
    let idx = pre.map.cell_index(p.x as int, p.y as int);
    let t = pre.map.tile_at(p.x as int, p.y as int);
    &&& post.players@.dom() == pre.players@.dom()
    &&& forall|k: u32|
        #[trigger] pre.players@.contains_key(k) ==> post.players@[k] == if group.contains(k) {
            raised(pre.players@[k])
        } else {
            pre.players@[k]
        }
    &&& post.map.width == pre.map.width
    &&& post.map.height == pre.map.height
    &&& post.map.cells().len() == pre.map.cells().len()
    &&& forall|j: int| 0 <= j < pre.map.cells().len() && j != idx ==> #[trigger] post.map.cells()[j] == pre.map.cells()[j]
    &&& forall|i: int| 0 <= i < RESOURCE_COUNT ==> #[trigger] post.map.cells()[idx].resources@[i] == t.resources@[i] - stones[i]
    &&& post.teams == pre.teams
    &&& told_all_gui(pre, post, winner_lines(pre.teams@, pre.players@, post.players@, pre.teams@.len()))
    &&& post.next_id == pre.next_id
    &&& post.rng == pre.rng
}

/// The drones other than `player` standing on its square: those an
/// `Eject` by `player` pushes.
pub open spec fn eject_targets(w: World, player: u32) -> Set<u32> {
    let p = w.players@[player];
    ids_at(w.players@, p.x as int, p.y as int).remove(player)
}

/// Outcome of running command `c` for drone `player` on `pre`: the world
/// becomes `post` and the drone is answered `reply`.
pub open spec fn executed(c: Command, pre: World, post: World, player: u32, reply: String) -> bool {
    let present = pre.players@.contains_key(player);
    let p = pre.players@[player];
    match c {
        Command::Forward => reply@ == "ok"@ && if present {
            let sq = ahead(pre, p);
            drone_became(pre, post, player, moved_to(p, sq.0, sq.1))
        } else {
            post == pre
        },
        Command::Right => reply@ == "ok"@ && if present {
            drone_became(pre, post, player, facing(p, turn_right(p.orientation)))
        } else {
            post == pre
        },
        Command::Left => reply@ == "ok"@ && if present {
            drone_became(pre, post, player, facing(p, turn_left(p.orientation)))
        } else {
            post == pre
        },
        Command::Look => post == pre && reply@ == if present {
            look_text(pre, player)
        } else {
            "ko"@
        },
        Command::Inventory => post == pre && reply@ == if present {
            super::player::inventory_text(p.inventory@)
        } else {
            "ko"@
        },
        Command::Take(item) => match res_from_name(item@) {
            Some(r) => {
                let i = res_index(r) as int;
                let t = pre.map.tile_at(p.x as int, p.y as int);
                if present && t.resources@[i] > 0 {
                    &&& reply@ == "ok"@
                    &&& post.players@ == pre.players@.insert(player, with_stock(p, i, p.inventory@[i] + 1))
                    &&& post.map.width == pre.map.width
                    &&& post.map.height == pre.map.height
                    &&& post.map.cells() == pre.map.cells().update(
                        pre.map.cell_index(p.x as int, p.y as int),
                        Tile { resources: spec_array_update(t.resources, i, (t.resources@[i] - 1) as u32) },
                    )
                    &&& post.teams == pre.teams
                    &&& post.outbox == pre.outbox
                    &&& post.next_id == pre.next_id
                    &&& post.rng == pre.rng
                } else {
                    reply@ == "ko"@ && post == pre
                }
            },
            None => reply@ == "ko"@ && post == pre,
        },
        Command::Put(item) => match res_from_name(item@) {
            Some(r) => {
                let i = res_index(r) as int;
                let t = pre.map.tile_at(p.x as int, p.y as int);
                if present && p.inventory@[i] > 0 {
                    &&& reply@ == "ok"@
                    &&& post.players@ == pre.players@.insert(player, with_stock(p, i, p.inventory@[i] - 1))
                    &&& post.map.width == pre.map.width
                    &&& post.map.height == pre.map.height
                    &&& post.map.cells() == pre.map.cells().update(
                        pre.map.cell_index(p.x as int, p.y as int),
                        Tile { resources: spec_array_update(t.resources, i, (t.resources@[i] + 1) as u32) },
                    )
                    &&& post.teams == pre.teams
                    &&& post.outbox == pre.outbox
                    &&& post.next_id == pre.next_id
                    &&& post.rng == pre.rng
                } else {
                    reply@ == "ko"@ && post == pre
                }
            },
            None => reply@ == "ko"@ && post == pre,
        },
        Command::Incantation => if present && can_elevate(pre, player) {
            &&& reply@ == "Elevation underway\nCurrent level: "@ + dec((p.level + 1) as nat)
            &&& elevated(pre, post, player)
        } else {
            reply@ == "ko"@ && post == pre
        },
        Command::ConnectNbr => post == pre && reply@ == dec(
            if present && p.team < pre.teams@.len() {
                pre.teams@[p.team as int].slots as nat
            } else {
                0
            },
        ),
        Command::Broadcast(msg) => reply@ == "ok"@ && if present {
            &&& post.players == pre.players
            &&& post.map == pre.map
            &&& post.teams == pre.teams
            &&& post.next_id == pre.next_id
            &&& post.rng == pre.rng
            &&& exists|order: Seq<u32>|
                #![trigger broadcast_sent(pre, post, order, p.x as int, p.y as int, msg@)]
                order.no_duplicates() && order.to_set() == pre.players@.dom().remove(player)
                    && broadcast_sent(pre, post, order, p.x as int, p.y as int, msg@)
        } else {
            post == pre
        },
        Command::Eject => if !present {
            reply@ == "ok"@ && post == pre
        } else if eject_targets(pre, player) == Set::<u32>::empty() {
            reply@ == "ko"@ && post == pre
        } else {
            reply@ == "ok"@ && ejected(pre, post, player)
        },
        Command::Fork => reply@ == "ok"@ && if present && p.team < pre.teams@.len() {
            let t = pre.teams@[p.team as int];
            &&& post.teams@ == pre.teams@.update(p.team as int, Team { slots: (t.slots + 1) as usize, ..t })
            &&& post.players == pre.players
            &&& post.map == pre.map
            &&& post.outbox == pre.outbox
            &&& post.next_id == pre.next_id
            &&& post.rng == pre.rng
        } else {
            post == pre
        },
    }
}

// ---------------------------------------------------------------------------
// Proof helpers
// ---------------------------------------------------------------------------

/// Square `(x, y)` of a `w * h` board lies in the tile store.
pub proof fn lemma_cell_in_range(x: int, y: int, w: int, h: int)
    requires
        0 <= x < w,
        0 <= y < h,
    ensures
        y * w + x < w * h,
        0 <= y * w + x,
{
    assert(y * w + x < w * h) by (nonlinear_arith)
        requires
            0 <= x < w,
            0 <= y < h,
    ;
    assert(0 <= y * w) by (nonlinear_arith)
        requires
            0 <= y,
            0 <= w,
    ;
}

/// Sides of a board that holds a drone fit comfortably in `isize`.
pub proof fn lemma_world_sides(w: World, k: u32)
    requires
        w.board_ok(),
        w.players@.contains_key(k),
    ensures
        0 < w.map.width <= isize::MAX / 28,
        0 < w.map.height <= isize::MAX / 28,
        w.players@[k].x < w.map.width,
        w.players@[k].y < w.map.height,
        w.map.cell_index(w.players@[k].x as int, w.players@[k].y as int) < w.map.width * w.map.height,
        0 <= w.map.cell_index(w.players@[k].x as int, w.players@[k].y as int),
{
    assert(w.players@.contains_key(k));
    let a = w.map.width as int;
    let b = w.map.height as int;
    assert(a * b >= a && a * b >= b) by (nonlinear_arith)
        requires
            a > 0,
            b > 0,
    ;
    lemma_cell_in_range(w.players@[k].x as int, w.players@[k].y as int, a, b);
}

/// Counting one more distinct element of a finite set.
proof fn lemma_filter_insert_len(s: Set<u32>, k: u32, f: spec_fn(u32) -> bool)
    requires
        s.finite(),
        !s.contains(k),
    ensures
        s.insert(k).filter(f).len() == s.filter(f).len() + if f(k) {
            1nat
        } else {
            0nat
        },
{
    let a = s.filter(f);
    vstd::set_lib::lemma_set_subset_finite(s, a);
    if f(k) {
        assert(s.insert(k).filter(f) =~= a.insert(k));
    } else {
        assert(s.insert(k).filter(f) =~= a);
    }
}

/// The set of the first `i + 1` items of `s` adds `s[i]` to that of the
/// first `i`.
proof fn lemma_take_to_set(s: Seq<u32>, i: int)
    requires
        0 <= i < s.len(),
    ensures
        s.take(i + 1).to_set() == s.take(i).to_set().insert(s[i]),
        s.no_duplicates() ==> !s.take(i).to_set().contains(s[i]),
        s.take(i).to_set().finite(),
{
    assert(s.take(i + 1) =~= s.take(i) + seq![s[i]]);
    Seq::<u32>::lemma_to_set_insert_commutes(s.take(i), s[i]);
    vstd::seq_lib::seq_to_set_is_finite(s.take(i));
    if s.no_duplicates() && s.take(i).to_set().contains(s[i]) {
        assert(s.take(i).contains(s[i]));
        let j = choose|j: int| 0 <= j < i && s.take(i)[j] == s[i];
        assert(s[j] == s[i]);
    }
}

// ---------------------------------------------------------------------------
// Executable pieces of the commands
// ---------------------------------------------------------------------------

/// Number of drones standing on square `(x, y)`.
fn count_at(world: &World, ids: &Vec<u32>, x: usize, y: usize) -> (n: u64)
    requires
        ids@.no_duplicates(),
        ids@.to_set() == world.players@.dom(),
    ensures
        n == ids_at(world.players@, x as int, y as int).len(),
{
    let ghost m = world.players@;
    let ghost f = |k: u32| m[k].x == x && m[k].y == y;
    let mut n: u64 = 0;
    let mut i: usize = 0;
    assert(ids@.take(0).to_set() =~= Set::<u32>::empty());
    assert(Set::<u32>::empty().filter(f) =~= Set::<u32>::empty());
    while i < ids.len()
        invariant
            i <= ids@.len(),
            m == world.players@,
            ids@.no_duplicates(),
            ids@.to_set() == m.dom(),
            f == (|k: u32| m[k].x == x && m[k].y == y),
            n == ids@.take(i as int).to_set().filter(f).len(),
            n <= i,
        decreases ids@.len() - i,
    {
        let id = ids[i];
        proof {
            lemma_take_to_set(ids@, i as int);
            lemma_filter_insert_len(ids@.take(i as int).to_set(), id, f);
        }
        match world.players.get(&id) {
            Some(p) => {
                if p.x == x && p.y == y {
                    n = n + 1;
                }
            },
            None => {
                assert(ids@.to_set().contains(id));
            },
        }
        i += 1;
    }
    assert(ids@.take(ids@.len() as int) =~= ids@);
    assert(m.dom().filter(f) =~= ids_at(m, x as int, y as int));
    n
}

/// Appends `word` to a space-separated list, after a space unless the list
/// (`words`, empty exactly when `first`) is empty.
fn push_word(
    out: &mut String,
    word: &str,
    first: bool,
    Ghost(words): Ghost<Seq<Seq<char>>>,
)
    requires
        old(out)@ == join(words, " "@),
        first == (words.len() == 0),
    ensures
        final(out)@ == join(words.push(word@), " "@),
{
    proof {
        crate::text::lemma_join_push(words, " "@, word@);
    }
    if !first {
        out.append(" ");
    }
    out.append(word);
}

/// Contents of square `(x, y)` as `Look` shows it.
fn square_text_exec(world: &World, ids: &Vec<u32>, x: usize, y: usize) -> (s: String)
    requires
        world.board_ok(),
        ids@.no_duplicates(),
        ids@.to_set() == world.players@.dom(),
        x < world.map.width,
        y < world.map.height,
    ensures
        s@ == square_text(*world, x as int, y as int),
{
    proof {
        lemma_cell_in_range(x as int, y as int, world.map.width as int, world.map.height as int);
    }
    let n = count_at(world, ids, x, y);
    let mut out = String::new();
    let mut first = true;
    let ghost mut words: Seq<Seq<char>> = seq![];
    let mut j: u64 = 0;
    while j < n
        invariant
            j <= n,
            out@ == join(words, " "@),
            first == (words.len() == 0),
            words == copies("player"@, j as nat),
        decreases n - j,
    {
        push_word(&mut out, "player", first, Ghost(words));
        proof {
            words = words.push("player"@);
        }
        first = false;
        j += 1;
    }
    let tile = world.map.tile(x, y);
    let ghost t = *tile;
    let mut r: usize = 0;
    assert(words == copies("player"@, n as nat) + resource_words(t, 0));
    while r < RESOURCE_COUNT
        invariant
            r <= RESOURCE_COUNT,
            out@ == join(words, " "@),
            first == (words.len() == 0),
            words == copies("player"@, n as nat) + resource_words(t, r as nat),
            t == *tile,
        decreases RESOURCE_COUNT - r,
    {
        let res = Resource::from_index(r);
        let name = res.name();
        let c = tile.count(res);
        let ghost base = words;
        let mut k: u32 = 0;
        while k < c
            invariant
                k <= c,
                out@ == join(words, " "@),
                first == (words.len() == 0),
                words == base + copies(name@, k as nat),
            decreases c - k,
        {
            push_word(&mut out, name, first, Ghost(words));
            proof {
                words = words.push(name@);
                assert(words =~= base + copies(name@, (k + 1) as nat));
            }
            first = false;
            k += 1;
        }
        proof {
            assert(words =~= copies("player"@, n as nat) + resource_words(t, (r + 1) as nat));
        }
        r += 1;
    }
    out
}

/// `a * b` for a unit factor `a`.
fn unit_times(a: isize, b: isize) -> (r: isize)
    requires
        -1 <= a <= 1,
        -1000 <= b <= 1000,
    ensures
        r == a * b,
        -1000 <= r <= 1000,
{
    if a == 0 {
        assert(a * b == 0) by (nonlinear_arith)
            requires
                a == 0,
        ;
        0
    } else if a == 1 {
        assert(a * b == b) by (nonlinear_arith)
            requires
                a == 1,
        ;
        b
    } else {
        assert(a * b == -b) by (nonlinear_arith)
            requires
                a == -1,
        ;
        -b
    }
}

/// Reply to `Look` for drone `player`, which stands in `world`.
fn look_exec(world: &World, player: u32, p: &Player) -> (s: String)
    requires
        world.board_ok(),
        world.players@.contains_key(player),
        *p == world.players@[player],
    ensures
        s@ == look_text(*world, player),
{
    proof {
        lemma_world_sides(*world, player);
    }
    let ids = world.player_ids();
    let (fx, fy) = p.orientation.to_vec();
    let (rx, ry) = (-fy, fx);
    let px = p.x as isize;
    let py = p.y as isize;
    let level = p.level as isize;
    let mut out = String::new();
    out.append("[");
    let ghost mut cells: Seq<(int, int)> = seq![];
    let ghost mut parts: Seq<Seq<char>> = seq![];
    let mut first = true;
    let mut d: isize = 0;
    while d <= level
        invariant
            0 <= d <= level + 1,
            level == p.level as isize,
            0 <= level <= 255,
            world.board_ok(),
            world.players@.contains_key(player),
            *p == world.players@[player],
            0 < world.map.width <= isize::MAX / 28,
            0 < world.map.height <= isize::MAX / 28,
            px == p.x as isize,
            py == p.y as isize,
            0 <= px < world.map.width,
            0 <= py < world.map.height,
            (fx as int, fy as int) == orientation_vec(p.orientation),
            rx == -fy,
            ry == fx,
            ids@.no_duplicates(),
            ids@.to_set() == world.players@.dom(),
            cells == cone(d as nat),
            parts == cells.map_values(|c: (int, int)| cell_text(*world, *p, c)),
            out@ == "["@ + join(parts, ", "@),
            first == (parts.len() == 0),
        decreases level + 1 - d,
    {
        let ghost row_start = cells;
        let mut lat: isize = -d;
        while lat <= d
            invariant
                0 <= d <= level,
                0 <= level <= 255,
                -d <= lat <= d + 1,
                world.board_ok(),
                world.players@.contains_key(player),
                *p == world.players@[player],
                0 < world.map.width <= isize::MAX / 28,
                0 < world.map.height <= isize::MAX / 28,
                px == p.x as isize,
                py == p.y as isize,
                0 <= px < world.map.width,
                0 <= py < world.map.height,
                (fx as int, fy as int) == orientation_vec(p.orientation),
                rx == -fy,
                ry == fx,
                ids@.no_duplicates(),
                ids@.to_set() == world.players@.dom(),
                row_start == cone(d as nat),
                cells == row_start + Seq::new((lat + d) as nat, |j: int| (d as int, j - d)),
                parts == cells.map_values(|c: (int, int)| cell_text(*world, *p, c)),
                out@ == "["@ + join(parts, ", "@),
                first == (parts.len() == 0),
            decreases d + 1 - lat,
        {
            let tx = px + unit_times(fx, d) + unit_times(rx, lat);
            let ty = py + unit_times(fy, d) + unit_times(ry, lat);
            let (x, y) = world.map.wrap(tx, ty);
            let cell = square_text_exec(world, &ids, x, y);
            proof {
                crate::text::lemma_join_push(parts, ", "@, cell@);
                let sq = seen_square(*world, *p, d as int, lat as int);
                assert(tx as int == p.x + orientation_vec(p.orientation).0 * d + (-orientation_vec(p.orientation).1) * lat);
                assert(x == sq.0);
                assert(y == sq.1);
                assert(cell@ == cell_text(*world, *p, (d as int, lat as int)));
            }
            if !first {
                out.append(", ");
            }
            out.append(cell.as_str());
            proof {
                let old_cells = cells;
                cells = cells.push((d as int, lat as int));
                assert(cells =~= row_start + Seq::new((lat + 1 + d) as nat, |j: int| (d as int, j - d)));
                assert(cells.map_values(|c: (int, int)| cell_text(*world, *p, c)) =~= old_cells.map_values(|c: (int, int)| cell_text(*world, *p, c)).push(cell_text(*world, *p, (d as int, lat as int))));
                parts = cells.map_values(|c: (int, int)| cell_text(*world, *p, c));
            }
            first = false;
            lat += 1;
        }
        proof {
            assert(cells =~= cone((d + 1) as nat));
        }
        d += 1;
    }
    out.append("]");
    proof {
        let c = cone((p.level + 1) as nat);
        assert(c == cells);
        assert(Seq::new(c.len(), |i: int| cell_text(*world, *p, c[i])) =~= parts);
    }
    out
}

/// Sends `message K, <msg>` to every drone but `player`, which stands on
/// `(ex, ey)`.
fn broadcast_exec(world: &mut World, player: u32, msg: &String, ex: usize, ey: usize)
    requires
        old(world).board_ok(),
        old(world).players@.contains_key(player),
        old(world).players@[player].x == ex,
        old(world).players@[player].y == ey,
    ensures
        final(world).players == old(world).players,
        final(world).map == old(world).map,
        final(world).teams == old(world).teams,
        final(world).next_id == old(world).next_id,
        final(world).rng == old(world).rng,
        exists|order: Seq<u32>|
            #![trigger broadcast_sent(*old(world), *final(world), order, ex as int, ey as int, msg@)]
            order.no_duplicates() && order.to_set() == old(world).players@.dom().remove(player)
                && broadcast_sent(*old(world), *final(world), order, ex as int, ey as int, msg@),
{
    proof {
        lemma_world_sides(*world, player);
    }
    let ghost pre = *world;
    let ghost line = |id: u32| message_line(heard_from(pre, pre.players@[id], ex as int, ey as int), msg@);
    let ids = world.player_ids();
    let ghost mut order: Seq<u32> = seq![];
    let mut i: usize = 0;
    while i < ids.len()
        invariant
            i <= ids@.len(),
            ids@.no_duplicates(),
            ids@.to_set() == pre.players@.dom(),
            world.players == pre.players,
            world.map == pre.map,
            world.teams == pre.teams,
            world.next_id == pre.next_id,
            world.rng == pre.rng,
            pre.board_ok(),
            pre.players@.contains_key(player),
            0 < pre.map.width <= isize::MAX / 28,
            0 < pre.map.height <= isize::MAX / 28,
            ex < pre.map.width,
            ey < pre.map.height,
            line == (|id: u32| message_line(heard_from(pre, pre.players@[id], ex as int, ey as int), msg@)),
            order.no_duplicates(),
            order.to_set() == ids@.take(i as int).to_set().remove(player),
            outbox_extended(pre, *world, order, line),
        decreases ids@.len() - i,
    {
        let id = ids[i];
        proof {
            lemma_take_to_set(ids@, i as int);
        }
        if id != player {
            let o = match world.players.get(&id) {
                Some(o) => o,
                None => {
                    assert(ids@.to_set().contains(id));
                    assert(false);
                    return;
                },
            };
            proof {
                assert(pre.players@.contains_key(id));
            }
            let offset = world.map.shortest_offset((o.x, o.y), (ex, ey));
            let k = o.orientation.sound_dir(offset);
            let mut text = String::new();
            text.append("message ");
            push_dec(&mut text, k as u64);
            text.append(", ");
            text.append(msg.as_str());
            let ghost before = world.outbox@;
            world.outbox.push((Target::Player(id), text));
            proof {
                let old_order = order;
                order = order.push(id);
                assert(!old_order.contains(id)) by {
                    if old_order.contains(id) {
                        assert(old_order.to_set().contains(id));
                    }
                }
                assert(order =~= old_order + seq![id]);
                Seq::<u32>::lemma_to_set_insert_commutes(old_order, id);
                assert(order.to_set() =~= ids@.take(i + 1).to_set().remove(player));
                assert(outbox_extended(pre, *world, order, line)) by {
                    assert forall|j: int| 0 <= j < order.len() implies {
                        let e = #[trigger] world.outbox@[pre.outbox@.len() + j];
                        &&& e.0 == Target::Player(order[j])
                        &&& e.1@ == line(order[j])
                    } by {
                        if j < old_order.len() {
                            assert(world.outbox@[pre.outbox@.len() + j] == before[pre.outbox@.len() + j]);
                        }
                    }
                }
            }
        } else {
            proof {
                assert(order.to_set() =~= ids@.take(i + 1).to_set().remove(player));
            }
        }
        i += 1;
    }
    proof {
        assert(ids@.take(ids@.len() as int) =~= ids@);
        assert(order.to_set() =~= pre.players@.dom().remove(player));
        assert(broadcast_sent(pre, *world, order, ex as int, ey as int, msg@));
    }
}

/// Pushes every other drone standing with `player` on `(px, py)` one step
/// along `player`'s facing and tells each `eject: K`.
fn eject_exec(world: &mut World, player: u32, px: usize, py: usize, o: Orientation)
    requires
        old(world).board_ok(),
        old(world).players@.contains_key(player),
        old(world).players@[player].x == px,
        old(world).players@[player].y == py,
        old(world).players@[player].orientation == o,
    ensures
        final(world).board_ok(),
        old(world).wf() ==> final(world).wf(),
        ejected(*old(world), *final(world), player),
{
    proof {
        lemma_world_sides(*world, player);
    }
    let ghost pre = *world;
    let ghost p = pre.players@[player];
    let (dx, dy) = o.to_vec();
    let (nx, ny) = world.map.wrap(px as isize + dx, py as isize + dy);
    let ghost dest = ahead(pre, p);
    let ghost pushed = ids_at(pre.players@, px as int, py as int).remove(player);
    let ghost line = |id: u32| eject_line(sound_dir_spec(pre.players@[id].orientation, (-(dx as int), -(dy as int))));
    let ids = world.player_ids();
    let ghost mut order: Seq<u32> = seq![];
    let mut i: usize = 0;
    while i < ids.len()
        invariant
            i <= ids@.len(),
            ids@.no_duplicates(),
            ids@.to_set() == pre.players@.dom(),
            world.map == pre.map,
            world.teams == pre.teams,
            world.next_id == pre.next_id,
            world.rng == pre.rng,
            world.board_ok(),
            pre.wf() ==> world.wf(),
            pre.board_ok(),
            pre.players@.contains_key(player),
            p == pre.players@[player],
            (dx as int, dy as int) == orientation_vec(p.orientation),
            dest == ahead(pre, p),
            nx == dest.0,
            ny == dest.1,
            pushed == ids_at(pre.players@, px as int, py as int).remove(player),
            px == p.x,
            py == p.y,
            line == (|id: u32| eject_line(sound_dir_spec(pre.players@[id].orientation, (-(dx as int), -(dy as int))))),
            world.players@.dom() == pre.players@.dom(),
            forall|k: u32|
                #[trigger] pre.players@.contains_key(k) ==> world.players@[k] == if pushed.contains(k)
                    && ids@.take(i as int).contains(k) {
                    moved_to(pre.players@[k], dest.0, dest.1)
                } else {
                    pre.players@[k]
                },
            order.no_duplicates(),
            order.to_set() == ids@.take(i as int).to_set().intersect(pushed),
            outbox_extended(pre, *world, order, line),
        decreases ids@.len() - i,
    {
        let id = ids[i];
        proof {
            lemma_take_to_set(ids@, i as int);
        }
        let hit = match world.players.get(&id) {
            Some(q) => id != player && q.x == px && q.y == py,
            None => false,
        };
        assert(ids@.to_set().contains(id));
        if hit {
            let mut q = world.players.remove(&id).unwrap();
            let k = q.orientation.sound_dir((-dx, -dy));
            q.x = nx;
            q.y = ny;
            world.players.insert(id, q);
            let mut text = String::new();
            text.append("eject: ");
            push_dec(&mut text, k as u64);
            let ghost before = world.outbox@;
            world.outbox.push((Target::Player(id), text));
            proof {
                let old_order = order;
                order = order.push(id);
                assert(!old_order.contains(id)) by {
                    if old_order.contains(id) {
                        assert(old_order.to_set().contains(id));
                    }
                }
                assert(pushed.contains(id));
                assert(order =~= old_order + seq![id]);
                Seq::<u32>::lemma_to_set_insert_commutes(old_order, id);
                assert(order.to_set() =~= ids@.take(i + 1).to_set().intersect(pushed));
                assert(outbox_extended(pre, *world, order, line)) by {
                    assert forall|j: int| 0 <= j < order.len() implies {
                        let e = #[trigger] world.outbox@[pre.outbox@.len() + j];
                        &&& e.0 == Target::Player(order[j])
                        &&& e.1@ == line(order[j])
                    } by {
                        if j < old_order.len() {
                            assert(world.outbox@[pre.outbox@.len() + j] == before[pre.outbox@.len() + j]);
                        }
                    }
                }
                assert forall|kk: u32| #[trigger] world.players@.contains_key(kk) implies world.players@[kk].x
                    < world.map.width && world.players@[kk].y < world.map.height by {
                    assert(pre.players@.contains_key(kk));
                }
                if pre.wf() {
                    assert forall|kk: u32| #[trigger] world.players@.contains_key(kk) implies world.player_ok(kk) by {
                        assert(pre.player_ok(kk));
                    }
                }
            }
        } else {
            proof {
                assert(!pushed.contains(id)) by {
                    if pushed.contains(id) {
                        assert(ids_at(pre.players@, px as int, py as int).contains(id));
                    }
                }
                assert(order.to_set() =~= ids@.take(i + 1).to_set().intersect(pushed));
            }
        }
        proof {
            assert forall|k: u32| #[trigger] pre.players@.contains_key(k) implies world.players@[k] == if pushed.contains(k)
                && ids@.take(i + 1).to_set().contains(k) {
                moved_to(pre.players@[k], dest.0, dest.1)
            } else {
                pre.players@[k]
            } by {
            }
        }
        i += 1;
    }
    proof {
        assert(ids@.take(ids@.len() as int) =~= ids@);
        assert(ids@.to_set().intersect(pushed) =~= pushed);
        assert(eject_sent(pre, *world, order, dx as int, dy as int));
    }
}

/// Outcome of `Eject` by drone `player` (present) on `pre`.
pub open spec fn ejected(pre: World, post: World, player: u32) -> bool {
    let p = pre.players@[player];
    let (dx, dy) = orientation_vec(p.orientation);
    let dest = ahead(pre, p);
    let pushed = ids_at(pre.players@, p.x as int, p.y as int).remove(player);
    &&& post.map == pre.map
    &&& post.teams == pre.teams
    &&& post.next_id == pre.next_id
    &&& post.rng == pre.rng
    &&& post.players@.dom() == pre.players@.dom()
    &&& forall|k: u32|
        #[trigger] pre.players@.contains_key(k) ==> post.players@[k] == if pushed.contains(k) {
            moved_to(pre.players@[k], dest.0, dest.1)
        } else {
            pre.players@[k]
        }
    &&& exists|order: Seq<u32>|
        #![trigger eject_sent(pre, post, order, dx, dy)]
        order.no_duplicates() && order.to_set() == pushed && eject_sent(pre, post, order, dx, dy)
}


/// What an elevation from `level` needs, as `elevation_need` says.
fn elevation_need_exec(level: u8) -> (r: Option<(u64, [u32; RESOURCE_COUNT])>)
    ensures
        match elevation_need(level) {
            Some((n, stones)) => r matches Some((m, a)) && m == n && a@ == stones,
            None => r is None,
        },
{
    let r = if level == 1 {
        Some((1u64, [0u32, 1, 0, 0, 0, 0, 0]))
    } else if level == 2 {
        Some((2u64, [0u32, 1, 1, 1, 0, 0, 0]))
    } else if level == 3 {
        Some((2u64, [0u32, 2, 0, 1, 0, 2, 0]))
    } else if level == 4 {
        Some((4u64, [0u32, 1, 1, 2, 0, 1, 0]))
    } else if level == 5 {
        Some((4u64, [0u32, 1, 2, 1, 3, 0, 0]))
    } else if level == 6 {
        Some((6u64, [0u32, 1, 2, 3, 0, 1, 0]))
    } else if level == 7 {
        Some((6u64, [0u32, 2, 2, 2, 2, 2, 1]))
    } else {
        None
    };
    proof {
        if let Some((_, a)) = r {
            assert(a@ =~= elevation_stones(level));
        }
    }
    r
}

/// Number of drones of level `level` standing on square `(x, y)`.
fn count_peers(world: &World, ids: &Vec<u32>, x: usize, y: usize, level: u8) -> (n: u64)
    requires
        ids@.no_duplicates(),
        ids@.to_set() == world.players@.dom(),
    ensures
        n == peers(world.players@, x as int, y as int, level).len(),
{
    let ghost m = world.players@;
    let ghost f = |k: u32| m[k].x == x && m[k].y == y && m[k].level == level;
    let mut n: u64 = 0;
    let mut i: usize = 0;
    assert(ids@.take(0).to_set() =~= Set::<u32>::empty());
    assert(Set::<u32>::empty().filter(f) =~= Set::<u32>::empty());
    while i < ids.len()
        invariant
            i <= ids@.len(),
            m == world.players@,
            ids@.no_duplicates(),
            ids@.to_set() == m.dom(),
            f == (|k: u32| m[k].x == x && m[k].y == y && m[k].level == level),
            n == ids@.take(i as int).to_set().filter(f).len(),
            n <= i,
        decreases ids@.len() - i,
    {
        let id = ids[i];
        proof {
            lemma_take_to_set(ids@, i as int);
            lemma_filter_insert_len(ids@.take(i as int).to_set(), id, f);
        }
        match world.players.get(&id) {
            Some(p) => {
                if p.x == x && p.y == y && p.level == level {
                    n = n + 1;
                }
            },
            None => {
                assert(ids@.to_set().contains(id));
            },
        }
        i += 1;
    }
    assert(ids@.take(ids@.len() as int) =~= ids@);
    assert(m.dom().filter(f) =~= peers(m, x as int, y as int, level));
    n
}

/// Number of drones of team `t` at level 8.
fn count_elite(world: &World, ids: &Vec<u32>, t: usize) -> (n: u64)
    requires
        ids@.no_duplicates(),
        ids@.to_set() == world.players@.dom(),
    ensures
        n == elite(world.players@, t as int),
{
    let ghost m = world.players@;
    let ghost f = |k: u32| m[k].team == t && m[k].level == 8;
    let mut n: u64 = 0;
    let mut i: usize = 0;
    assert(ids@.take(0).to_set() =~= Set::<u32>::empty());
    assert(Set::<u32>::empty().filter(f) =~= Set::<u32>::empty());
    while i < ids.len()
        invariant
            i <= ids@.len(),
            m == world.players@,
            ids@.no_duplicates(),
            ids@.to_set() == m.dom(),
            f == (|k: u32| m[k].team == t && m[k].level == 8),
            n == ids@.take(i as int).to_set().filter(f).len(),
            n <= i,
        decreases ids@.len() - i,
    {
        let id = ids[i];
        proof {
            lemma_take_to_set(ids@, i as int);
            lemma_filter_insert_len(ids@.take(i as int).to_set(), id, f);
        }
        match world.players.get(&id) {
            Some(p) => {
                if p.team == t && p.level == 8 {
                    n = n + 1;
                }
            },
            None => {
                assert(ids@.to_set().contains(id));
            },
        }
        i += 1;
    }
    assert(ids@.take(ids@.len() as int) =~= ids@);
    assert(m.dom().filter(f) =~= m.dom().filter(|k: u32| m[k].team == t as int && m[k].level == 8));
    n
}

/// Number of drones at level 8, team by team.
fn elite_counts(world: &World, ids: &Vec<u32>) -> (v: Vec<u64>)
    requires
        ids@.no_duplicates(),
        ids@.to_set() == world.players@.dom(),
    ensures
        v@.len() == world.teams@.len(),
        forall|j: int| 0 <= j < v@.len() ==> #[trigger] v@[j] == elite(world.players@, j),
{
    let mut v: Vec<u64> = Vec::new();
    let mut j: usize = 0;
    while j < world.teams.len()
        invariant
            j <= world.teams@.len(),
            ids@.no_duplicates(),
            ids@.to_set() == world.players@.dom(),
            v@.len() == j,
            forall|q: int| 0 <= q < j ==> #[trigger] v@[q] == elite(world.players@, q),
        decreases world.teams@.len() - j,
    {
        let c = count_elite(world, ids, j);
        v.push(c);
        j += 1;
    }
    v
}

/// Tells graphical clients `seg N` for each team, in order, that has at
/// least six drones at level 8 now but had not with the drones `before`
/// (counted in `counts`).
fn announce_winners(world: &mut World, ids: &Vec<u32>, counts: &Vec<u64>, Ghost(before): Ghost<Map<u32, Player>>)
    requires
        ids@.no_duplicates(),
        ids@.to_set() == old(world).players@.dom(),
        counts@.len() == old(world).teams@.len(),
        forall|j: int| 0 <= j < counts@.len() ==> #[trigger] counts@[j] == elite(before, j),
    ensures
        final(world).players == old(world).players,
        final(world).map == old(world).map,
        final(world).teams == old(world).teams,
        final(world).next_id == old(world).next_id,
        final(world).rng == old(world).rng,
        told_all_gui(
            *old(world),
            *final(world),
            winner_lines(old(world).teams@, before, old(world).players@, old(world).teams@.len()),
        ),
{
    let ghost pre = *world;
    let mut j: usize = 0;
    while j < world.teams.len()
        invariant
            j <= world.teams@.len(),
            ids@.no_duplicates(),
            ids@.to_set() == world.players@.dom(),
            counts@.len() == world.teams@.len(),
            forall|q: int| 0 <= q < counts@.len() ==> #[trigger] counts@[q] == elite(before, q),
            world.players == pre.players,
            world.map == pre.map,
            world.teams == pre.teams,
            world.next_id == pre.next_id,
            world.rng == pre.rng,
            told_all_gui(pre, *world, winner_lines(pre.teams@, before, pre.players@, j as nat)),
        decreases world.teams@.len() - j,
    {
        let now = count_elite(world, ids, j);
        let ghost lines = winner_lines(pre.teams@, before, pre.players@, j as nat);
        if now >= 6 && counts[j] < 6 {
            let mut line = String::from_str("seg ");
            line.append(world.teams[j].name.as_str());
            let ghost ob = world.outbox@;
            world.outbox.push((Target::AllGui, line));
            proof {
                let lines2 = winner_lines(pre.teams@, before, pre.players@, (j + 1) as nat);
                assert(lines2 == lines.push("seg "@ + pre.teams@[j as int].name@));
                assert forall|q: int|
                    0 <= q < lines2.len() implies (#[trigger] world.outbox@[pre.outbox@.len() + q]).0 == Target::AllGui
                        && world.outbox@[pre.outbox@.len() + q].1@ == lines2[q] by {
                    if q < lines.len() {
                        assert(world.outbox@[pre.outbox@.len() + q] == ob[pre.outbox@.len() + q]);
                    }
                }
                assert forall|q: int| 0 <= q < pre.outbox@.len() implies #[trigger] world.outbox@[q] == pre.outbox@[q] by {
                    assert(world.outbox@[q] == ob[q]);
                }
            }
        } else {
            proof {
                assert(winner_lines(pre.teams@, before, pre.players@, (j + 1) as nat) == lines);
            }
        }
        j += 1;
    }
}

/// Raises every drone of level `level` on square `(x, y)` one level.
fn raise_peers(world: &mut World, ids: &Vec<u32>, x: usize, y: usize, level: u8)
    requires
        old(world).board_ok(),
        ids@.no_duplicates(),
        ids@.to_set() == old(world).players@.dom(),
        level < 8,
    ensures
        final(world).board_ok(),
        old(world).wf() ==> final(world).wf(),
        final(world).map == old(world).map,
        final(world).teams == old(world).teams,
        final(world).outbox == old(world).outbox,
        final(world).next_id == old(world).next_id,
        final(world).rng == old(world).rng,
        final(world).players@.dom() == old(world).players@.dom(),
        forall|k: u32|
            #[trigger] old(world).players@.contains_key(k) ==> final(world).players@[k] == if peers(
                old(world).players@,
                x as int,
                y as int,
                level,
            ).contains(k) {
                raised(old(world).players@[k])
            } else {
                old(world).players@[k]
            },
{
    let ghost pre = *world;
    let ghost group = peers(pre.players@, x as int, y as int, level);
    let mut i: usize = 0;
    while i < ids.len()
        invariant
            i <= ids@.len(),
            ids@.no_duplicates(),
            ids@.to_set() == pre.players@.dom(),
            level < 8,
            group == peers(pre.players@, x as int, y as int, level),
            world.map == pre.map,
            world.teams == pre.teams,
            world.outbox == pre.outbox,
            world.next_id == pre.next_id,
            world.rng == pre.rng,
            world.board_ok(),
            pre.wf() ==> world.wf(),
            world.players@.dom() == pre.players@.dom(),
            forall|k: u32|
                #[trigger] pre.players@.contains_key(k) ==> world.players@[k] == if group.contains(k)
                    && ids@.take(i as int).contains(k) {
                    raised(pre.players@[k])
                } else {
                    pre.players@[k]
                },
        decreases ids@.len() - i,
    {
        let id = ids[i];
        assert(ids@.to_set().contains(id));
        assert(!ids@.take(i as int).contains(id)) by {
            if ids@.take(i as int).contains(id) {
                let j = choose|j: int| 0 <= j < i && ids@.take(i as int)[j] == id;
                assert(ids@[j] == ids@[i as int]);
            }
        }
        let hit = match world.players.get(&id) {
            Some(q) => q.x == x && q.y == y && q.level == level,
            None => false,
        };
        if hit {
            let mut q = world.players.remove(&id).unwrap();
            q.level = q.level + 1;
            let ghost nq = q;
            world.players.insert(id, q);
            proof {
                assert(world.players@[id] == nq);
                assert(group.contains(id));
                assert forall|kk: u32| #[trigger] world.players@.contains_key(kk) implies world.players@[kk].x
                    < world.map.width && world.players@[kk].y < world.map.height by {
                    assert(pre.players@.contains_key(kk));
                }
                if pre.wf() {
                    assert forall|kk: u32| #[trigger] world.players@.contains_key(kk) implies world.player_ok(kk) by {
                        assert(pre.player_ok(kk));
                    }
                }
            }
        } else {
            proof {
                assert(!group.contains(id)) by {
                    if group.contains(id) {
                        assert(pre.players@.contains_key(id));
                    }
                }
            }
        }
        proof {
            assert forall|k: u32| #[trigger] pre.players@.contains_key(k) implies world.players@[k] == if group.contains(k)
                && ids@.take(i + 1).contains(k) {
                raised(pre.players@[k])
            } else {
                pre.players@[k]
            } by {
                assert(ids@.take(i + 1) =~= ids@.take(i as int).push(id));
                if k != id {
                    assert(ids@.take(i + 1).contains(k) == ids@.take(i as int).contains(k));
                } else {
                    assert(ids@.take(i + 1)[i as int] == id);
                    assert(ids@.take(i + 1).contains(k));
                }
            }
        }
        i += 1;
    }
    proof {
        assert(ids@.take(ids@.len() as int) =~= ids@);
        assert forall|k: u32| #[trigger] pre.players@.contains_key(k) implies world.players@[k] == if group.contains(k) {
            raised(pre.players@[k])
        } else {
            pre.players@[k]
        } by {
            if group.contains(k) {
                assert(ids@.to_set().contains(k));
                assert(ids@.contains(k));
            }
        }
    }
}

/// Whether drone `player` is present and can rise a level now.
pub fn can_elevate_now(world: &World, player: u32) -> (r: bool)
    requires
        world.board_ok(),
    ensures
        r == (world.players@.contains_key(player) && can_elevate(*world, player)),
{
    let (x, y, level) = match world.players.get(&player) {
        Some(p) => (p.x, p.y, p.level),
        None => return false,
    };
    proof {
        lemma_world_sides(*world, player);
    }
    let (n, stones) = match elevation_need_exec(level) {
        Some(need) => need,
        None => return false,
    };
    let ids = world.player_ids();
    if count_peers(world, &ids, x, y, level) < n {
        return false;
    }
    let t = world.map.tile(x, y);
    let mut enough = true;
    let mut i: usize = 0;
    while i < RESOURCE_COUNT
        invariant
            i <= RESOURCE_COUNT,
            enough == forall|j: int| 0 <= j < i ==> t.resources@[j] >= #[trigger] stones@[j],
        decreases RESOURCE_COUNT - i,
    {
        if t.resources[i] < stones[i] {
            enough = false;
        }
        i += 1;
    }
    enough
}

/// Someone shares drone `player`'s square exactly when more than one
/// drone stands there.
proof fn lemma_eject_targets_count(w: World, player: u32, ids: Seq<u32>)
    requires
        w.players@.contains_key(player),
        ids.to_set() == w.players@.dom(),
    ensures
        (eject_targets(w, player) == Set::<u32>::empty()) == (ids_at(
            w.players@,
            w.players@[player].x as int,
            w.players@[player].y as int,
        ).len() <= 1),
{
    let p = w.players@[player];
    let s = ids_at(w.players@, p.x as int, p.y as int);
    vstd::seq_lib::seq_to_set_is_finite(ids);
    vstd::set_lib::lemma_set_subset_finite(w.players@.dom(), s);
    assert(s.contains(player));
    let t = s.remove(player);
    assert(t.len() == s.len() - 1);
    if t == Set::<u32>::empty() {
        assert(t.len() == 0);
    } else {
        let x = t.choose();
        assert(t.contains(x)) by {
            if !t.contains(x) {
                assert(t =~= Set::<u32>::empty());
            }
        }
        assert(t.len() != 0);
    }
}

/// A new string holding `lit`.
fn reply(lit: &str) -> (s: String)
    ensures
        s@ == lit@,
{
    String::from_str(lit)
}

/// `post` keeps every drone on the board, and consistent when `pre` was,
/// when it only changes drone `id` of `pre` to one that keeps its id, team
/// and queue length and stands on the board.
proof fn lemma_wf_after_drone_change(pre: World, post: World, id: u32, q: Player)
    requires
        pre.board_ok(),
        pre.players@.contains_key(id),
        post.players@ == pre.players@.insert(id, q),
        post.map.width == pre.map.width,
        post.map.height == pre.map.height,
        post.map.wf(),
        post.teams == pre.teams,
        post.next_id == pre.next_id,
        q.id == pre.players@[id].id,
        q.x < pre.map.width,
        q.y < pre.map.height,
        q.team == pre.players@[id].team,
        q.queue@.len() == pre.players@[id].queue@.len(),
    ensures
        post.board_ok(),
        pre.wf() ==> post.wf(),
{
    assert forall|k: u32| #[trigger] post.players@.contains_key(k) implies post.players@[k].x < post.map.width
        && post.players@[k].y < post.map.height by {
        if k != id {
            assert(pre.players@.contains_key(k));
        }
    }
    if pre.wf() {
        assert(pre.player_ok(id));
        assert forall|k: u32| #[trigger] post.players@.contains_key(k) implies post.player_ok(k) by {
            if k != id {
                assert(pre.player_ok(k));
            }
        }
    }
}

impl Command {
    /// Runs this command for drone `player` and returns the reply for its
    /// AI; lines for other drones go to the world's outbox.
    pub fn execute(&self, world: &mut World, player: u32) -> (r: String)
        requires
            old(world).board_ok(),
            execute_defined(*self, *old(world), player),
        ensures
            final(world).board_ok(),
            old(world).wf() ==> final(world).wf(),
            executed(*self, *old(world), *final(world), player, r),
    {
        match self {
            Command::Forward | Command::Right | Command::Left => {
                if !world.players.contains_key(&player) {
                    return reply("ok");
                }
                proof {
                    lemma_world_sides(*world, player);
                }
                let mut p = world.players.remove(&player).unwrap();
                match self {
                    Command::Forward => {
                        let (dx, dy) = p.orientation.to_vec();
                        let (nx, ny) = world.map.wrap(p.x as isize + dx, p.y as isize + dy);
                        p.x = nx;
                        p.y = ny;
                    },
                    Command::Right => {
                        p.orientation = match p.orientation {
                            Orientation::North => Orientation::East,
                            Orientation::East => Orientation::South,
                            Orientation::South => Orientation::West,
                            Orientation::West => Orientation::North,
                        };
                    },
                    _ => {
                        p.orientation = match p.orientation {
                            Orientation::North => Orientation::West,
                            Orientation::West => Orientation::South,
                            Orientation::South => Orientation::East,
                            Orientation::East => Orientation::North,
                        };
                    },
                }
                let ghost q = p;
                world.players.insert(player, p);
                proof {
                    assert(world.players@ =~= old(world).players@.insert(player, q));
                    lemma_wf_after_drone_change(*old(world), *world, player, q);
                }
                reply("ok")
            },
            Command::Look => {
                match world.players.get(&player) {
                    Some(p) => look_exec(world, player, p),
                    None => reply("ko"),
                }
            },
            Command::Inventory => {
                match world.players.get(&player) {
                    Some(p) => p.inventory_string(),
                    None => reply("ko"),
                }
            },
            Command::Take(item) => {
                let res = match Resource::from_name(item.as_str()) {
                    Some(res) => res,
                    None => return reply("ko"),
                };
                let (x, y) = match world.players.get(&player) {
                    Some(p) => (p.x, p.y),
                    None => return reply("ko"),
                };
                proof {
                    lemma_world_sides(*world, player);
                }
                if world.map.tile(x, y).count(res) == 0 {
                    return reply("ko");
                }
                let i = res.index();
                let ghost t0 = world.map.tile_at(x as int, y as int);
                let mut p = world.players.remove(&player).unwrap();
                let taken = world.map.tile_mut(x, y).take_one(res);
                assert(taken);
                proof {
                    let idx = old(world).map.cell_index(x as int, y as int);
                    let ft = world.map.cells()[idx];
                    assert(ft.resources =~= spec_array_update(t0.resources, i as int, (t0.resources@[i as int] - 1) as u32));
                    assert(world.map.cells() =~= old(world).map.cells().update(idx, Tile { resources: spec_array_update(t0.resources, i as int, (t0.resources@[i as int] - 1) as u32) }));
                }
                p.inventory[i] = p.inventory[i] + 1;
                let ghost q = p;
                world.players.insert(player, p);
                proof {
                    assert(world.players@ =~= old(world).players@.insert(player, q));
                    lemma_wf_after_drone_change(*old(world), *world, player, q);
                    assert(q == with_stock(old(world).players@[player], i as int, old(world).players@[player].inventory@[i as int] + 1));
                }
                reply("ok")
            },
            Command::Put(item) => {
                let res = match Resource::from_name(item.as_str()) {
                    Some(res) => res,
                    None => return reply("ko"),
                };
                let i = res.index();
                let (x, y, stock) = match world.players.get(&player) {
                    Some(p) => (p.x, p.y, p.inventory[i]),
                    None => return reply("ko"),
                };
                proof {
                    lemma_world_sides(*world, player);
                }
                if stock == 0 {
                    return reply("ko");
                }
                let mut p = world.players.remove(&player).unwrap();
                p.inventory[i] = p.inventory[i] - 1;
                let ghost t0 = world.map.tile_at(x as int, y as int);
                world.map.tile_mut(x, y).add(res, 1);
                proof {
                    let idx = old(world).map.cell_index(x as int, y as int);
                    let ft = world.map.cells()[idx];
                    assert(ft.resources =~= spec_array_update(t0.resources, i as int, (t0.resources@[i as int] + 1) as u32));
                    assert(world.map.cells() =~= old(world).map.cells().update(idx, Tile { resources: spec_array_update(t0.resources, i as int, (t0.resources@[i as int] + 1) as u32) }));
                }
                let ghost q = p;
                world.players.insert(player, p);
                proof {
                    assert(world.players@ =~= old(world).players@.insert(player, q));
                    lemma_wf_after_drone_change(*old(world), *world, player, q);
                    assert(q == with_stock(old(world).players@[player], i as int, old(world).players@[player].inventory@[i as int] - 1));
                }
                reply("ok")
            },
            Command::Incantation => {
                let (x, y, level) = match world.players.get(&player) {
                    Some(p) => (p.x, p.y, p.level),
                    None => return reply("ko"),
                };
                proof {
                    lemma_world_sides(*world, player);
                }
                let (n, stones) = match elevation_need_exec(level) {
                    Some(need) => need,
                    None => return reply("ko"),
                };
                let ids = world.player_ids();
                if count_peers(world, &ids, x, y, level) < n {
                    return reply("ko");
                }
                let mut t = *world.map.tile(x, y);
                let ghost t0 = t;
                let mut enough = true;
                let mut i: usize = 0;
                while i < RESOURCE_COUNT
                    invariant
                        i <= RESOURCE_COUNT,
                        enough == forall|j: int| 0 <= j < i ==> t0.resources@[j] >= #[trigger] stones@[j],
                        t == t0,
                    decreases RESOURCE_COUNT - i,
                {
                    if t.resources[i] < stones[i] {
                        enough = false;
                    }
                    i += 1;
                }
                if !enough {
                    return reply("ko");
                }
                let mut i: usize = 0;
                while i < RESOURCE_COUNT
                    invariant
                        i <= RESOURCE_COUNT,
                        forall|j: int| 0 <= j < RESOURCE_COUNT ==> t0.resources@[j] >= #[trigger] stones@[j],
                        forall|j: int| 0 <= j < i ==> #[trigger] t.resources@[j] == t0.resources@[j] - stones@[j],
                        forall|j: int| i <= j < RESOURCE_COUNT ==> #[trigger] t.resources@[j] == t0.resources@[j],
                    decreases RESOURCE_COUNT - i,
                {
                    t.resources[i] = t.resources[i] - stones[i];
                    i += 1;
                }
                let counts = elite_counts(world, &ids);
                raise_peers(world, &ids, x, y, level);
                let ghost risen = *world;
                *world.map.tile_mut(x, y) = t;
                let ghost mid = *world;
                announce_winners(world, &ids, &counts, Ghost(old(world).players@));
                let mut out = String::from_str("Elevation underway\nCurrent level: ");
                push_dec(&mut out, (level + 1) as u64);
                proof {
                    let idx = old(world).map.cell_index(x as int, y as int);
                    assert(mid.map.cells() == risen.map.cells().update(idx, t));
                    assert forall|k: u32| #[trigger] world.players@.contains_key(k) implies world.players@[k].x
                        < world.map.width && world.players@[k].y < world.map.height by {
                        assert(risen.players@.contains_key(k));
                    }
                    if old(world).wf() {
                        assert(risen.wf());
                        assert forall|k: u32| #[trigger] world.players@.contains_key(k) implies world.player_ok(k) by {
                            assert(risen.player_ok(k));
                        }
                    }
                }
                out
            },
            Command::ConnectNbr => {
                let n = match world.players.get(&player) {
                    Some(p) => if p.team < world.teams.len() {
                        world.teams[p.team].remaining()
                    } else {
                        0
                    },
                    None => 0,
                };
                crate::text::dec_string(n as u64)
            },
            Command::Broadcast(msg) => {
                let (ex, ey) = match world.players.get(&player) {
                    Some(p) => (p.x, p.y),
                    None => return reply("ok"),
                };
                broadcast_exec(world, player, msg, ex, ey);
                proof {
                    if old(world).wf() {
                        assert forall|k: u32| #[trigger] world.players@.contains_key(k) implies world.player_ok(k) by {
                            assert(old(world).player_ok(k));
                        }
                    }
                }
                reply("ok")
            },
            Command::Eject => {
                let (px, py, o) = match world.players.get(&player) {
                    Some(p) => (p.x, p.y, p.orientation),
                    None => return reply("ok"),
                };
                let ids = world.player_ids();
                let n = count_at(world, &ids, px, py);
                proof {
                    lemma_eject_targets_count(*world, player, ids@);
                }
                if n <= 1 {
                    return reply("ko");
                }
                eject_exec(world, player, px, py, o);
                reply("ok")
            },
            Command::Fork => {
                let idx = match world.players.get(&player) {
                    Some(p) => p.team,
                    None => return reply("ok"),
                };
                if idx >= world.teams.len() {
                    return reply("ok");
                }
                let ghost old_teams = world.teams@;
                let mut team = world.teams.remove(idx);
                team.slots = team.slots + 1;
                world.teams.insert(idx, team);
                proof {
                    assert(world.teams@ =~= old_teams.update(idx as int, world.teams@[idx as int]));
                }
                reply("ok")
            },
        }
    }
}

/// Taking an item and putting it back, once the take succeeded, leaves
/// the drones, the board, the teams and the outbox as they were.
pub proof fn law_take_then_put(
    item: String,
    w0: World,
    w1: World,
    w2: World,
    player: u32,
    r1: String,
    r2: String,
)
    requires
        w0.board_ok(),
        execute_defined(Command::Take(item), w0, player),
        executed(Command::Take(item), w0, w1, player, r1),
        executed(Command::Put(item), w1, w2, player, r2),
        r1@ == "ok"@,
    ensures
        r2@ == "ok"@,
        w2.players@ == w0.players@,
        w2.map.width == w0.map.width,
        w2.map.height == w0.map.height,
        w2.map.cells() == w0.map.cells(),
        w2.teams == w0.teams,
        w2.outbox == w0.outbox,
        w2.next_id == w0.next_id,
        w2.rng == w0.rng,
{
    broadcast use vstd::array::group_array_axioms;

    reveal_strlit("ok");
    reveal_strlit("ko");
    assert(r1@ != "ko"@) by {
        assert("ok"@[0] != "ko"@[0]);
    }
    let r = res_from_name(item@)->Some_0;
    let i = res_index(r) as int;
    let p = w0.players@[player];
    lemma_world_sides(w0, player);
    let idx = w0.map.cell_index(p.x as int, p.y as int);
    let t = w0.map.tile_at(p.x as int, p.y as int);
    let p1 = w1.players@[player];
    assert(p1 == with_stock(p, i, p.inventory@[i] + 1));
    assert(p1.inventory@[i] == p.inventory@[i] + 1);
    let t1 = w1.map.tile_at(p1.x as int, p1.y as int);
    assert(t1.resources@ == t.resources@.update(i, (t.resources@[i] - 1) as u32));
    let q = w2.players@[player];
    assert(q.inventory =~= p.inventory);
    assert(q == p);
    assert(w2.players@ =~= w0.players@);
    let t2 = w2.map.cells()[idx];
    assert(t2.resources =~= t.resources);
    assert(w2.map.cells() =~= w0.map.cells());
}

/// Turning right then left leaves every drone as it was.
pub proof fn law_right_then_left(w0: World, w1: World, w2: World, player: u32, r1: String, r2: String)
    requires
        executed(Command::Right, w0, w1, player, r1),
        executed(Command::Left, w1, w2, player, r2),
    ensures
        w2.players@ == w0.players@,
        w2.map == w0.map,
        w2.teams == w0.teams,
        w2.outbox == w0.outbox,
        w2.next_id == w0.next_id,
        w2.rng == w0.rng,
{
    if w0.players@.contains_key(player) {
        let p = w0.players@[player];
        super::player::law_turns(p.orientation);
        assert(facing(facing(p, turn_right(p.orientation)), turn_left(turn_right(p.orientation))) == p);
        assert(w2.players@ =~= w0.players@);
    }
}

/// A drone of level `L` sees `(L + 1)²` tiles: row `d` of its vision
/// cone holds `2d + 1` of them.
pub proof fn law_cone_size(rows: nat)
    ensures
        cone(rows).len() == rows * rows,
        forall|d: int, j: int|
            0 <= d < rows && 0 <= j < 2 * d + 1 ==> #[trigger] cone(rows)[d * d + j] == (d, j - d),
    decreases rows,
{
    if rows > 0 {
        let r = (rows - 1) as nat;
        law_cone_size(r);
        assert(cone(rows).len() == cone(r).len() + (2 * r + 1));
        assert(r * r + 2 * r + 1 == rows * rows) by (nonlinear_arith)
            requires
                r == rows - 1;
        assert forall|d: int, j: int| 0 <= d < rows && 0 <= j < 2 * d + 1 implies #[trigger] cone(rows)[d * d + j] == (d, j - d) by {
            if d < r {
                assert(d * d + j < r * r) by (nonlinear_arith)
                    requires
                        0 <= d < r,
                        0 <= j < 2 * d + 1;
                assert(cone(rows)[d * d + j] == cone(r)[d * d + j]);
            } else {
                assert(d == r);
            }
        }
    } else {
        assert(rows * rows == 0) by (nonlinear_arith)
            requires
                rows == 0;
    }
}

/// White space around a request line does not change how it reads.
pub proof fn law_parse_ignores_surrounding_space(line: Seq<char>, r: Option<Command>)
    ensures
        parsed_command(crate::text::trim(line), r) == parsed_command(line, r),
{
    crate::text::lemma_trim_twice(line);
}

/// `Look` lists each row of the cone from the drone's left to its right:
/// the square at lateral position `lat` of row `d` lies `d` steps along the
/// facing and `lat` steps along the facing turned right (so negative `lat`
/// is on the left), the board wrapping around.
pub proof fn law_look_rows_left_to_right(w: World, p: Player, d: int, lat: int)
    ensures
        ({
            let f = orientation_vec(p.orientation);
            let r = orientation_vec(turn_right(p.orientation));
            seen_square(w, p, d, lat) == (
                (p.x + f.0 * d + r.0 * lat) % (w.map.width as int),
                (p.y + f.1 * d + r.1 * lat) % (w.map.height as int),
            )
        }),
{
}

/// The rules of elevation: from level 1 to 7, the drones of that level
/// needed on the square and the stones (linemate, deraumere, sibur,
/// mendiane, phiras, thystame) taken; nothing past level 7.
pub proof fn law_elevation_rules(level: u8)
    ensures
        elevation_need(level) == match level {
            1 => Some((1nat, seq![0u32, 1, 0, 0, 0, 0, 0])),
            2 => Some((2nat, seq![0u32, 1, 1, 1, 0, 0, 0])),
            3 => Some((2nat, seq![0u32, 2, 0, 1, 0, 2, 0])),
            4 => Some((4nat, seq![0u32, 1, 1, 2, 0, 1, 0])),
            5 => Some((4nat, seq![0u32, 1, 2, 1, 3, 0, 0])),
            6 => Some((6nat, seq![0u32, 1, 2, 3, 0, 1, 0])),
            7 => Some((6nat, seq![0u32, 2, 2, 2, 2, 2, 1])),
            _ => None,
        },
{
}

} // verus!
