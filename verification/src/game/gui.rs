//! The graphical client's protocol: encoding world events, and parsing
//! and answering the requests a graphical client sends.

use vstd::prelude::*;

use super::map::{Resource, RESOURCE_COUNT};
use super::player::orientation_number;
use super::world::World;
use crate::text::{
    chars_of, dec, join, parse_unsigned, parse_unsigned_in, push_chars, push_dec, word_at,
    word_bounds, words,
};

verus! {

/// Counters separated by single spaces: `"q0 q1 ... q6"`.
pub open spec fn quantities_text(slots: Seq<u32>) -> Seq<char> {
    join(Seq::new(RESOURCE_COUNT as nat, |i: int| dec(slots[i] as nat)), " "@)
}

/// The counters separated by single spaces.
pub fn quantities(slots: &[u32; RESOURCE_COUNT]) -> (s: String)
    ensures
        s@ == quantities_text(slots@),
{
    let ghost f = |i: int| dec(slots@[i] as nat);
    let mut out = String::new();
    let mut i: usize = 0;
    while i < RESOURCE_COUNT
        invariant
            i <= RESOURCE_COUNT,
            f == (|i: int| dec(slots@[i] as nat)),
            out@ == join(Seq::new(i as nat, f), " "@),
        decreases RESOURCE_COUNT - i,
    {
        if i > 0 {
            out.append(" ");
        }
        push_dec(&mut out, slots[i] as u64);
        proof {
            assert(Seq::new((i + 1) as nat, f) =~= Seq::new(i as nat, f).push(f(i as int)));
            crate::text::lemma_join_push(Seq::new(i as nat, f), " "@, f(i as int));
        }
        i += 1;
    }
    out
}

/// A change of the world, as told to graphical clients.
#[derive(Debug)]
pub enum GuiEvent {
    /// `msz X Y`
    MapSize,
    /// `tna N` for one team
    TeamName(usize),
    /// `bct X Y q0..q6` for one tile
    Tile(usize, usize),
    /// `pnw #n X Y O L N`
    NewPlayer(u32),
    /// `ppo #n X Y O`
    Moved(u32),
    /// `plv #n L`
    LevelChanged(u32),
    /// `pin #n X Y q0..q6`
    Inventory(u32),
    /// `pgt #n i`
    Collected { player: u32, res: usize },
    /// `pdr #n i`
    Dropped { player: u32, res: usize },
    /// `pbc #n M`
    Broadcast { player: u32, msg: String },
    /// `pex #n`
    Ejected(u32),
    /// `pfk #n`
    Forked(u32),
    /// `enw #e #n X Y`
    EggLaid { egg: u32, player: u32, x: usize, y: usize },
    /// `ebo #e`
    EggHatched(u32),
    /// `edi #e`
    EggDestroyed(u32),
    /// `pdi #n`
    PlayerDied(u32),
    /// `pic X Y L #n #n ...`
    IncantationStart { x: usize, y: usize, level: u8, participants: Vec<u32> },
    /// `pie X Y R`
    IncantationEnd { x: usize, y: usize, result: u8 },
    /// `seg N`
    GameWon(String),
}

/// `#n`.
pub open spec fn hash_id(n: nat) -> Seq<char> {
    "#"@ + dec(n)
}

/// `bct X Y q0..q6` for square `(x, y)`.
pub open spec fn tile_line(w: World, x: int, y: int) -> Seq<char> {
    "bct "@ + dec(x as nat) + " "@ + dec(y as nat) + " "@ + quantities_text(
        w.map.tile_at(x, y).resources@,
    )
}

/// `tna N` for team `i`.
pub open spec fn team_line(w: World, i: int) -> Seq<char> {
    "tna "@ + w.teams@[i].name@
}

/// `pnw #n X Y O L N` for drone `id`.
pub open spec fn new_player_line(w: World, id: u32) -> Seq<char> {
    let p = w.players@[id];
    "pnw "@ + hash_id(id as nat) + " "@ + dec(p.x as nat) + " "@ + dec(p.y as nat) + " "@ + dec(
        orientation_number(p.orientation) as nat,
    ) + " "@ + dec(p.level as nat) + " "@ + w.teams@[p.team as int].name@
}

/// The participants of an incantation as `#a #b ...`.
pub open spec fn participants_text(ids: Seq<u32>) -> Seq<char> {
    join(Seq::new(ids.len(), |i: int| hash_id(ids[i] as nat)), " "@)
}

/// Line of event `e` on world `w`; `None` when it names a team, tile or
/// drone that does not exist.
pub open spec fn event_text(e: GuiEvent, w: World) -> Option<Seq<char>> {
    match e {
        GuiEvent::MapSize => Some("msz "@ + dec(w.map.width as nat) + " "@ + dec(w.map.height as nat)),
        GuiEvent::TeamName(i) => if i < w.teams@.len() {
            Some(team_line(w, i as int))
        } else {
            None
        },
        GuiEvent::Tile(x, y) => if x < w.map.width && y < w.map.height {
            Some(tile_line(w, x as int, y as int))
        } else {
            None
        },
        GuiEvent::NewPlayer(id) => if w.players@.contains_key(id) && w.players@[id].team
            < w.teams@.len() {
            Some(new_player_line(w, id))
        } else {
            None
        },
        GuiEvent::Moved(id) => if w.players@.contains_key(id) {
            let p = w.players@[id];
            Some(
                "ppo "@ + hash_id(id as nat) + " "@ + dec(p.x as nat) + " "@ + dec(p.y as nat) + " "@
                    + dec(orientation_number(p.orientation) as nat),
            )
        } else {
            None
        },
        GuiEvent::LevelChanged(id) => if w.players@.contains_key(id) {
            Some("plv "@ + hash_id(id as nat) + " "@ + dec(w.players@[id].level as nat))
        } else {
            None
        },
        GuiEvent::Inventory(id) => if w.players@.contains_key(id) {
            let p = w.players@[id];
            Some(
                "pin "@ + hash_id(id as nat) + " "@ + dec(p.x as nat) + " "@ + dec(p.y as nat) + " "@
                    + quantities_text(p.inventory@),
            )
        } else {
            None
        },
        GuiEvent::Collected { player, res } => Some(
            "pgt "@ + hash_id(player as nat) + " "@ + dec(res as nat),
        ),
        GuiEvent::Dropped { player, res } => Some(
            "pdr "@ + hash_id(player as nat) + " "@ + dec(res as nat),
        ),
        GuiEvent::Broadcast { player, msg } => Some(
            "pbc "@ + hash_id(player as nat) + " "@ + msg@,
        ),
        GuiEvent::Ejected(id) => Some("pex "@ + hash_id(id as nat)),
        GuiEvent::Forked(id) => Some("pfk "@ + hash_id(id as nat)),
        GuiEvent::EggLaid { egg, player, x, y } => Some(
            "enw "@ + hash_id(egg as nat) + " "@ + hash_id(player as nat) + " "@ + dec(x as nat)
                + " "@ + dec(y as nat),
        ),
        GuiEvent::EggHatched(egg) => Some("ebo "@ + hash_id(egg as nat)),
        GuiEvent::EggDestroyed(egg) => Some("edi "@ + hash_id(egg as nat)),
        GuiEvent::PlayerDied(id) => Some("pdi "@ + hash_id(id as nat)),
        GuiEvent::IncantationStart { x, y, level, participants } => Some(
            "pic "@ + dec(x as nat) + " "@ + dec(y as nat) + " "@ + dec(level as nat) + " "@
                + participants_text(participants@),
        ),
        GuiEvent::IncantationEnd { x, y, result } => Some(
            "pie "@ + dec(x as nat) + " "@ + dec(y as nat) + " "@ + dec(result as nat),
        ),
        GuiEvent::GameWon(name) => Some("seg "@ + name@),
    }
}

/// `r` is the string form of the optional text `t`.
pub open spec fn renders(r: Option<String>, t: Option<Seq<char>>) -> bool {
    match (r, t) {
        (Some(s), Some(u)) => s@ == u,
        (None, None) => true,
        _ => false,
    }
}

/// Appends `#n`.
fn push_hash_id(out: &mut String, n: u64)
    ensures
        final(out)@ == old(out)@ + hash_id(n as nat),
{
    out.append("#");
    push_dec(out, n);
}

/// Appends one space.
fn push_space(out: &mut String)
    ensures
        final(out)@ == old(out)@ + " "@,
{
    out.append(" ");
}

impl GuiEvent {
    /// The line telling graphical clients about this event, or `None` when
    /// it names a team, tile or drone that does not exist.
    pub fn encode(&self, world: &World) -> (r: Option<String>)
        requires
            world.wf(),
        ensures
            renders(r, event_text(*self, *world)),
    {
        let mut out = String::new();
        match self {
            GuiEvent::MapSize => {
                out.append("msz ");
                push_dec(&mut out, world.map.width as u64);
                push_space(&mut out);
                push_dec(&mut out, world.map.height as u64);
            },
            GuiEvent::TeamName(idx) => {
                if *idx >= world.teams.len() {
                    return None;
                }
                out.append("tna ");
                out.append(world.teams[*idx].name.as_str());
            },
            GuiEvent::Tile(x, y) => {
                if *x >= world.map.width || *y >= world.map.height {
                    return None;
                }
                proof {
                    super::command::lemma_cell_in_range(
                        *x as int,
                        *y as int,
                        world.map.width as int,
                        world.map.height as int,
                    );
                }
                out.append("bct ");
                push_dec(&mut out, *x as u64);
                push_space(&mut out);
                push_dec(&mut out, *y as u64);
                push_space(&mut out);
                let q = quantities(&world.map.tile(*x, *y).resources);
                out.append(q.as_str());
            },
            GuiEvent::NewPlayer(id) => {
                let p = match world.players.get(id) {
                    Some(p) => p,
                    None => return None,
                };
                if p.team >= world.teams.len() {
                    return None;
                }
                out.append("pnw ");
                push_hash_id(&mut out, *id as u64);
                push_space(&mut out);
                push_dec(&mut out, p.x as u64);
                push_space(&mut out);
                push_dec(&mut out, p.y as u64);
                push_space(&mut out);
                push_dec(&mut out, p.orientation.number() as u64);
                push_space(&mut out);
                push_dec(&mut out, p.level as u64);
                push_space(&mut out);
                out.append(world.teams[p.team].name.as_str());
            },
            GuiEvent::Moved(id) => {
                let p = match world.players.get(id) {
                    Some(p) => p,
                    None => return None,
                };
                out.append("ppo ");
                push_hash_id(&mut out, *id as u64);
                push_space(&mut out);
                push_dec(&mut out, p.x as u64);
                push_space(&mut out);
                push_dec(&mut out, p.y as u64);
                push_space(&mut out);
                push_dec(&mut out, p.orientation.number() as u64);
            },
            GuiEvent::LevelChanged(id) => {
                let p = match world.players.get(id) {
                    Some(p) => p,
                    None => return None,
                };
                out.append("plv ");
                push_hash_id(&mut out, *id as u64);
                push_space(&mut out);
                push_dec(&mut out, p.level as u64);
            },
            GuiEvent::Inventory(id) => {
                let p = match world.players.get(id) {
                    Some(p) => p,
                    None => return None,
                };
                out.append("pin ");
                push_hash_id(&mut out, *id as u64);
                push_space(&mut out);
                push_dec(&mut out, p.x as u64);
                push_space(&mut out);
                push_dec(&mut out, p.y as u64);
                push_space(&mut out);
                let q = quantities(&p.inventory);
                out.append(q.as_str());
            },
            GuiEvent::Collected { player, res } => {
                out.append("pgt ");
                push_hash_id(&mut out, *player as u64);
                push_space(&mut out);
                push_dec(&mut out, *res as u64);
            },
            GuiEvent::Dropped { player, res } => {
                out.append("pdr ");
                push_hash_id(&mut out, *player as u64);
                push_space(&mut out);
                push_dec(&mut out, *res as u64);
            },
            GuiEvent::Broadcast { player, msg } => {
                out.append("pbc ");
                push_hash_id(&mut out, *player as u64);
                push_space(&mut out);
                out.append(msg.as_str());
            },
            GuiEvent::Ejected(id) => {
                out.append("pex ");
                push_hash_id(&mut out, *id as u64);
            },
            GuiEvent::Forked(id) => {
                out.append("pfk ");
                push_hash_id(&mut out, *id as u64);
            },
            GuiEvent::EggLaid { egg, player, x, y } => {
                out.append("enw ");
                push_hash_id(&mut out, *egg as u64);
                push_space(&mut out);
                push_hash_id(&mut out, *player as u64);
                push_space(&mut out);
                push_dec(&mut out, *x as u64);
                push_space(&mut out);
                push_dec(&mut out, *y as u64);
            },
            GuiEvent::EggHatched(egg) => {
                out.append("ebo ");
                push_hash_id(&mut out, *egg as u64);
            },
            GuiEvent::EggDestroyed(egg) => {
                out.append("edi ");
                push_hash_id(&mut out, *egg as u64);
            },
            GuiEvent::PlayerDied(id) => {
                out.append("pdi ");
                push_hash_id(&mut out, *id as u64);
            },
            GuiEvent::IncantationStart { x, y, level, participants } => {
                out.append("pic ");
                push_dec(&mut out, *x as u64);
                push_space(&mut out);
                push_dec(&mut out, *y as u64);
                push_space(&mut out);
                push_dec(&mut out, *level as u64);
                push_space(&mut out);
                let ghost start = out@;
                let ghost f = |i: int| hash_id(participants@[i] as nat);
                let mut i: usize = 0;
                while i < participants.len()
                    invariant
                        i <= participants@.len(),
                        f == (|i: int| hash_id(participants@[i] as nat)),
                        out@ == start + join(Seq::new(i as nat, f), " "@),
                    decreases participants@.len() - i,
                {
                    if i > 0 {
                        push_space(&mut out);
                    }
                    push_hash_id(&mut out, participants[i] as u64);
                    proof {
                        assert(Seq::new((i + 1) as nat, f) =~= Seq::new(i as nat, f).push(f(i as int)));
                        crate::text::lemma_join_push(Seq::new(i as nat, f), " "@, f(i as int));
                    }
                    i += 1;
                }
            },
            GuiEvent::IncantationEnd { x, y, result } => {
                out.append("pie ");
                push_dec(&mut out, *x as u64);
                push_space(&mut out);
                push_dec(&mut out, *y as u64);
                push_space(&mut out);
                push_dec(&mut out, *result as u64);
            },
            GuiEvent::GameWon(name) => {
                out.append("seg ");
                out.append(name.as_str());
            },
        }
        Some(out)
    }
}


/// A request line sent by a graphical client.
#[derive(Debug, Clone, Copy, PartialEq, Eq, Structural)]
pub enum GuiRequest {
    /// `msz`
    MapSize,
    /// `bct X Y`
    Tile(usize, usize),
    /// `mct`
    MapContent,
    /// `tna`
    TeamNames,
    /// `ppo #n`
    PlayerPos(u32),
    /// `plv #n`
    PlayerLevel(u32),
    /// `pin #n`
    PlayerInv(u32),
    /// `sgt`
    TimeGet,
    /// `sst T`
    TimeSet(u32),
}

/// Why a graphical client's request was not understood.
#[derive(Debug, Clone, Copy, PartialEq, Eq, Structural)]
pub enum GuiParse {
    /// Unknown verb: reply `suc`.
    Unknown,
    /// Known verb with a malformed argument: reply `sbp`.
    BadParam,
}

/// `s` without one leading `#`.
pub open spec fn strip_hash(s: Seq<char>) -> Seq<char> {
    if s.len() > 0 && s[0] == '#' {
        s.drop_first()
    } else {
        s
    }
}

/// The `i`-th word of `line`, empty when there is none.
pub open spec fn word_or_empty(line: Seq<char>, i: int) -> Seq<char> {
    match word_at(line, i) {
        Some(w) => w,
        None => seq![],
    }
}

/// The `i`-th word of `line` read as a `usize`.
pub open spec fn uint_arg(line: Seq<char>, i: int) -> Result<usize, GuiParse> {
    match word_at(line, i) {
        Some(w) => match parse_unsigned(w, usize::MAX as nat) {
            Some(n) => Ok(n as usize),
            None => Err(GuiParse::BadParam),
        },
        None => Err(GuiParse::BadParam),
    }
}

/// The `i`-th word of `line` read as a drone id, `#` optional.
pub open spec fn id_arg(line: Seq<char>, i: int) -> Result<u32, GuiParse> {
    match word_at(line, i) {
        Some(w) => match parse_unsigned(strip_hash(w), u32::MAX as nat) {
            Some(n) => Ok(n as u32),
            None => Err(GuiParse::BadParam),
        },
        None => Err(GuiParse::BadParam),
    }
}

/// Reading of a graphical client's request line: the verb is its first
/// white-space separated word; extra words are ignored.
pub open spec fn gui_request_spec(line: Seq<char>) -> Result<GuiRequest, GuiParse> {
    let verb = word_or_empty(line, 0);
    if verb == "msz"@ {
        Ok(GuiRequest::MapSize)
    } else if verb == "mct"@ {
        Ok(GuiRequest::MapContent)
    } else if verb == "tna"@ {
        Ok(GuiRequest::TeamNames)
    } else if verb == "sgt"@ {
        Ok(GuiRequest::TimeGet)
    } else if verb == "bct"@ {
        match uint_arg(line, 1) {
            Ok(x) => match uint_arg(line, 2) {
                Ok(y) => Ok(GuiRequest::Tile(x, y)),
                Err(e) => Err(e),
            },
            Err(e) => Err(e),
        }
    } else if verb == "ppo"@ {
        match id_arg(line, 1) {
            Ok(n) => Ok(GuiRequest::PlayerPos(n)),
            Err(e) => Err(e),
        }
    } else if verb == "plv"@ {
        match id_arg(line, 1) {
            Ok(n) => Ok(GuiRequest::PlayerLevel(n)),
            Err(e) => Err(e),
        }
    } else if verb == "pin"@ {
        match id_arg(line, 1) {
            Ok(n) => Ok(GuiRequest::PlayerInv(n)),
            Err(e) => Err(e),
        }
    } else if verb == "sst"@ {
        match word_at(line, 1) {
            Some(w) => match parse_unsigned(w, u32::MAX as nat) {
                Some(t) => if t > 0 {
                    Ok(GuiRequest::TimeSet(t as u32))
                } else {
                    Err(GuiParse::BadParam)
                },
                None => Err(GuiParse::BadParam),
            },
            None => Err(GuiParse::BadParam),
        }
    } else {
        Err(GuiParse::Unknown)
    }
}

/// Every tile of the board, row by row, as `bct` lines.
pub open spec fn all_tiles_text(w: World) -> Seq<Seq<char>> {
    let width = w.map.width as int;
    Seq::new(
        (w.map.width * w.map.height) as nat,
        |i: int| tile_line(w, i % width, i / width),
    )
}

/// Every team, in order, as `tna` lines.
pub open spec fn all_team_names_text(w: World) -> Seq<Seq<char>> {
    Seq::new(w.teams@.len(), |i: int| team_line(w, i))
}

/// The text of an optional line, `sbp` when there is none.
pub open spec fn or_sbp(t: Option<Seq<char>>) -> Seq<char> {
    match t {
        Some(s) => s,
        None => "sbp"@,
    }
}

/// Lines answering request `req` on world `w` with time unit `f`.
pub open spec fn resolve_text(req: GuiRequest, w: World, f: u32) -> Seq<Seq<char>> {
    match req {
        GuiRequest::MapSize => seq![or_sbp(event_text(GuiEvent::MapSize, w))],
        GuiRequest::Tile(x, y) => seq![or_sbp(event_text(GuiEvent::Tile(x, y), w))],
        GuiRequest::PlayerPos(n) => seq![or_sbp(event_text(GuiEvent::Moved(n), w))],
        GuiRequest::PlayerLevel(n) => seq![or_sbp(event_text(GuiEvent::LevelChanged(n), w))],
        GuiRequest::PlayerInv(n) => seq![or_sbp(event_text(GuiEvent::Inventory(n), w))],
        GuiRequest::MapContent => all_tiles_text(w),
        GuiRequest::TeamNames => all_team_names_text(w),
        GuiRequest::TimeGet => seq!["sgt "@ + dec(f as nat)],
        GuiRequest::TimeSet(t) => seq!["sst "@ + dec(t as nat)],
    }
}

/// The time unit after answering `req` with time unit `f`.
pub open spec fn resolve_time(req: GuiRequest, f: u32) -> u32 {
    match req {
        GuiRequest::TimeSet(t) => t,
        _ => f,
    }
}

/// Reads `v[b.0..b.1]`, the `i`-th word of `line`, as an unsigned integer.
fn word_arg(v: &Vec<char>, bounds: &Vec<(usize, usize)>, i: usize, strip: bool, max: u64) -> (r: Option<u64>)
    requires
        bounds@.len() == words(v@).len(),
        forall|k: int|
            0 <= k < bounds@.len() ==> {
                &&& 0 <= (#[trigger] bounds@[k]).0 <= bounds@[k].1 <= v@.len()
                &&& v@.subrange(bounds@[k].0 as int, bounds@[k].1 as int) == words(v@)[k]
            },
    ensures
        match word_at(v@, i as int) {
            Some(w) => {
                let s = if strip {
                    strip_hash(w)
                } else {
                    w
                };
                match parse_unsigned(s, max as nat) {
                    Some(n) => r == Some(n as u64),
                    None => r is None,
                }
            },
            None => r is None,
        },
{
    if i >= bounds.len() {
        return None;
    }
    let (lo, hi) = bounds[i];
    let mut start = lo;
    if strip && lo < hi && v[lo] == '#' {
        start = lo + 1;
    }
    proof {
        let w = v@.subrange(lo as int, hi as int);
        if strip {
            assert(v@.subrange(start as int, hi as int) =~= strip_hash(w));
        }
    }
    parse_unsigned_in(v, start, hi, max)
}

impl GuiRequest {
    /// Reads a graphical client's request line.
    pub fn parse(line: &str) -> (r: Result<GuiRequest, GuiParse>)
        ensures
            r == gui_request_spec(line@),
    {
        let v = chars_of(line);
        let bounds = word_bounds(&v, 0, v.len());
        assert(v@.subrange(0, v@.len() as int) =~= v@);
        let verb: Vec<char> = if bounds.len() > 0 {
            crate::text::sub_chars(&v, bounds[0].0, bounds[0].1)
        } else {
            Vec::new()
        };
        assert(verb@ == word_or_empty(line@, 0));
        if crate::text::chars_are(&verb, "msz") {
            Ok(GuiRequest::MapSize)
        } else if crate::text::chars_are(&verb, "mct") {
            Ok(GuiRequest::MapContent)
        } else if crate::text::chars_are(&verb, "tna") {
            Ok(GuiRequest::TeamNames)
        } else if crate::text::chars_are(&verb, "sgt") {
            Ok(GuiRequest::TimeGet)
        } else if crate::text::chars_are(&verb, "bct") {
            let x = match word_arg(&v, &bounds, 1, false, usize::MAX as u64) {
                Some(n) => n as usize,
                None => return Err(GuiParse::BadParam),
            };
            let y = match word_arg(&v, &bounds, 2, false, usize::MAX as u64) {
                Some(n) => n as usize,
                None => return Err(GuiParse::BadParam),
            };
            Ok(GuiRequest::Tile(x, y))
        } else if crate::text::chars_are(&verb, "ppo") {
            match word_arg(&v, &bounds, 1, true, u32::MAX as u64) {
                Some(n) => Ok(GuiRequest::PlayerPos(n as u32)),
                None => Err(GuiParse::BadParam),
            }
        } else if crate::text::chars_are(&verb, "plv") {
            match word_arg(&v, &bounds, 1, true, u32::MAX as u64) {
                Some(n) => Ok(GuiRequest::PlayerLevel(n as u32)),
                None => Err(GuiParse::BadParam),
            }
        } else if crate::text::chars_are(&verb, "pin") {
            match word_arg(&v, &bounds, 1, true, u32::MAX as u64) {
                Some(n) => Ok(GuiRequest::PlayerInv(n as u32)),
                None => Err(GuiParse::BadParam),
            }
        } else if crate::text::chars_are(&verb, "sst") {
            match word_arg(&v, &bounds, 1, false, u32::MAX as u64) {
                Some(t) => if t > 0 {
                    Ok(GuiRequest::TimeSet(t as u32))
                } else {
                    Err(GuiParse::BadParam)
                },
                None => Err(GuiParse::BadParam),
            }
        } else {
            Err(GuiParse::Unknown)
        }
    }

    /// Lines answering this request; `TimeSet` also sets the time unit `f`.
    pub fn resolve(&self, world: &World, f: &mut u32) -> (r: Vec<String>)
        requires
            world.wf(),
        ensures
            crate::text::lines_of(r@) == resolve_text(*self, *world, *old(f)),
            *final(f) == resolve_time(*self, *old(f)),
    {
        match self {
            GuiRequest::MapSize => one_line(GuiEvent::MapSize, world),
            GuiRequest::Tile(x, y) => one_line(GuiEvent::Tile(*x, *y), world),
            GuiRequest::PlayerPos(n) => one_line(GuiEvent::Moved(*n), world),
            GuiRequest::PlayerLevel(n) => one_line(GuiEvent::LevelChanged(*n), world),
            GuiRequest::PlayerInv(n) => one_line(GuiEvent::Inventory(*n), world),
            GuiRequest::MapContent => all_tiles(world),
            GuiRequest::TeamNames => all_team_names(world),
            GuiRequest::TimeGet => {
                let mut s = String::new();
                s.append("sgt ");
                push_dec(&mut s, *f as u64);
                let v = vec![s];
                assert(crate::text::lines_of(v@) =~= seq![v@[0]@]);
                v
            },
            GuiRequest::TimeSet(t) => {
                *f = *t;
                let mut s = String::new();
                s.append("sst ");
                push_dec(&mut s, *f as u64);
                let v = vec![s];
                assert(crate::text::lines_of(v@) =~= seq![v@[0]@]);
                v
            },
        }
    }
}

/// The line of `ev`, `sbp` when it has none, as a one-line answer.
fn one_line(ev: GuiEvent, world: &World) -> (r: Vec<String>)
    requires
        world.wf(),
    ensures
        crate::text::lines_of(r@) == seq![or_sbp(event_text(ev, *world))],
{
    let s = match ev.encode(world) {
        Some(s) => s,
        None => String::from_str("sbp"),
    };
    let v = vec![s];
    assert(crate::text::lines_of(v@) =~= seq![v@[0]@]);
    v
}

/// Every tile of the board, row by row, as `bct` lines.
pub fn all_tiles(world: &World) -> (r: Vec<String>)
    requires
        world.wf(),
    ensures
        crate::text::lines_of(r@) == all_tiles_text(*world),
{
    let w = world.map.width;
    let h = world.map.height;
    let mut lines: Vec<String> = Vec::new();
    let mut y: usize = 0;
    while y < h
        invariant
            w == world.map.width,
            h == world.map.height,
            world.wf(),
            y <= h,
            lines@.len() == y * w,
            forall|i: int| 0 <= i < lines@.len() ==> (#[trigger] lines@[i])@ == all_tiles_text(*world)[i],
        decreases h - y,
    {
        let mut x: usize = 0;
        while x < w
            invariant
                w == world.map.width,
                h == world.map.height,
                world.wf(),
                y < h,
                x <= w,
                lines@.len() == y * w + x,
                forall|i: int| 0 <= i < lines@.len() ==> (#[trigger] lines@[i])@ == all_tiles_text(*world)[i],
            decreases w - x,
        {
            let line = match GuiEvent::Tile(x, y).encode(world) {
                Some(l) => l,
                None => {
                    assert(false);
                    return lines;
                },
            };
            proof {
                let k = y * w + x;
                vstd::arithmetic::div_mod::lemma_fundamental_div_mod_converse(k as int, w as int, y as int, x as int);
                super::command::lemma_cell_in_range(x as int, y as int, w as int, h as int);
            }
            lines.push(line);
            proof {
                assert(lines@.len() == y * w + x + 1);
            }
            x += 1;
        }
        proof {
            assert((y + 1) * w == y * w + w) by (nonlinear_arith);
        }
        y += 1;
    }
    proof {
        assert(h * w == w * h) by (nonlinear_arith);
        assert(crate::text::lines_of(lines@) =~= all_tiles_text(*world));
    }
    lines
}

/// Every team, in order, as `tna` lines.
pub fn all_team_names(world: &World) -> (r: Vec<String>)
    requires
        world.wf(),
    ensures
        crate::text::lines_of(r@) == all_team_names_text(*world),
{
    let mut lines: Vec<String> = Vec::new();
    let mut i: usize = 0;
    while i < world.teams.len()
        invariant
            world.wf(),
            i <= world.teams@.len(),
            lines@.len() == i,
            forall|k: int| 0 <= k < i ==> (#[trigger] lines@[k])@ == team_line(*world, k),
        decreases world.teams@.len() - i,
    {
        let line = match GuiEvent::TeamName(i).encode(world) {
            Some(l) => l,
            None => {
                assert(false);
                return lines;
            },
        };
        lines.push(line);
        i += 1;
    }
    proof {
        assert(crate::text::lines_of(lines@) =~= all_team_names_text(*world));
    }
    lines
}

/// Lines sent to a graphical client when it connects: board size, time
/// unit, every tile, every team, then a `pnw` line per drone in `order`.
pub open spec fn feed_text(w: World, f: u32, order: Seq<u32>) -> Seq<Seq<char>> {
    seq![or_sbp(event_text(GuiEvent::MapSize, w)), "sgt "@ + dec(f as nat)] + all_tiles_text(w)
        + all_team_names_text(w) + order.map_values(|id: u32| new_player_line(w, id))
}

/// What a graphical client receives when it connects: board size, time
/// unit, every tile, every team, then every drone (in the map's order).
pub fn init_feed(world: &World, f: u32) -> (r: Vec<String>)
    requires
        world.wf(),
    ensures
        exists|order: Seq<u32>|
            #![trigger feed_text(*world, f, order)]
            order.no_duplicates() && order.to_set() == world.players@.dom()
                && crate::text::lines_of(r@) == feed_text(*world, f, order),
{
    let mut feed: Vec<String> = Vec::new();
    match GuiEvent::MapSize.encode(world) {
        Some(line) => feed.push(line),
        None => {},
    }
    let mut s = String::new();
    s.append("sgt ");
    push_dec(&mut s, f as u64);
    feed.push(s);
    let mut tiles = all_tiles(world);
    feed.append(&mut tiles);
    let mut names = all_team_names(world);
    feed.append(&mut names);
    let ghost head = crate::text::lines_of(feed@);
    assert(head =~= seq![or_sbp(event_text(GuiEvent::MapSize, *world)), "sgt "@ + dec(f as nat)] + all_tiles_text(*world) + all_team_names_text(*world));
    let ids = world.player_ids();
    let ghost mut order: Seq<u32> = seq![];
    let mut i: usize = 0;
    while i < ids.len()
        invariant
            world.wf(),
            i <= ids@.len(),
            ids@.no_duplicates(),
            ids@.to_set() == world.players@.dom(),
            order == ids@.take(i as int),
            crate::text::lines_of(feed@) == head + order.map_values(|id: u32| new_player_line(*world, id)),
        decreases ids@.len() - i,
    {
        let id = ids[i];
        proof {
            assert(ids@.to_set().contains(id));
            assert(world.player_ok(id));
        }
        match GuiEvent::NewPlayer(id).encode(world) {
            Some(line) => {
                let ghost before = feed@;
                feed.push(line);
                proof {
                    assert(ids@.take(i + 1) =~= order.push(id));
                    order = order.push(id);
                    assert(crate::text::lines_of(feed@) =~= crate::text::lines_of(before).push(new_player_line(*world, id)));
                    assert(order.map_values(|id: u32| new_player_line(*world, id)) =~= ids@.take(i as int).map_values(|id: u32| new_player_line(*world, id)).push(new_player_line(*world, id)));
                }
            },
            None => {
                assert(false);
            },
        }
        i += 1;
    }
    proof {
        assert(ids@.take(ids@.len() as int) =~= ids@);
        assert(feed_text(*world, f, order) =~= crate::text::lines_of(feed@));
    }
    feed
}

/// The request line that asks for `req`, as the protocol writes it:
/// `msz`, `bct X Y`, `mct`, `tna`, `ppo #n`, `plv #n`, `pin #n`, `sgt`,
/// `sst T`.
pub open spec fn request_text(req: GuiRequest) -> Seq<char> {
    let sp = seq![' '];
    match req {
        GuiRequest::MapSize => "msz"@,
        GuiRequest::Tile(x, y) => "bct"@ + (sp + (dec(x as nat) + (sp + dec(y as nat)))),
        GuiRequest::MapContent => "mct"@,
        GuiRequest::TeamNames => "tna"@,
        GuiRequest::PlayerPos(n) => "ppo"@ + (sp + (seq!['#'] + dec(n as nat))),
        GuiRequest::PlayerLevel(n) => "plv"@ + (sp + (seq!['#'] + dec(n as nat))),
        GuiRequest::PlayerInv(n) => "pin"@ + (sp + (seq!['#'] + dec(n as nat))),
        GuiRequest::TimeGet => "sgt"@,
        GuiRequest::TimeSet(t) => "sst"@ + (sp + dec(t as nat)),
    }
}

/// The words of `verb + " " + arg` are the verb, then the words of `arg`.
proof fn lemma_verb_then(verb: Seq<char>, arg: Seq<char>)
    requires
        verb.len() == 3,
        forall|i: int| 0 <= i < 3 ==> 'a' <= #[trigger] verb[i] <= 'z',
    ensures
        words(verb + (seq![' '] + arg)) == seq![verb] + words(arg),
{
    crate::text::lemma_words_prefix(verb, seq![' '] + arg);
    crate::text::lemma_words_space(arg);
}

/// The words of `#n` and of `n` in decimal.
proof fn lemma_id_word(n: nat)
    ensures
        words(seq!['#'] + dec(n)) == seq![seq!['#'] + dec(n)],
        strip_hash(seq!['#'] + dec(n)) == dec(n),
        words(dec(n)) == seq![dec(n)],
{
    crate::text::lemma_dec_is_word(n);
    let w = seq!['#'] + dec(n);
    assert forall|i: int| 0 <= i < w.len() implies !crate::text::is_ws(#[trigger] w[i]) by {
        if i > 0 {
            assert(w[i] == dec(n)[i - 1]);
        }
    }
    crate::text::lemma_words_single(w);
    crate::text::lemma_words_single(dec(n));
    assert(w.drop_first() =~= dec(n));
}

/// The verbs of the requests, letter by letter.
proof fn lemma_verb_letters()
    ensures
        "msz"@ =~= seq!['m', 's', 'z'],
        "bct"@ =~= seq!['b', 'c', 't'],
        "mct"@ =~= seq!['m', 'c', 't'],
        "tna"@ =~= seq!['t', 'n', 'a'],
        "ppo"@ =~= seq!['p', 'p', 'o'],
        "plv"@ =~= seq!['p', 'l', 'v'],
        "pin"@ =~= seq!['p', 'i', 'n'],
        "sgt"@ =~= seq!['s', 'g', 't'],
        "sst"@ =~= seq!['s', 's', 't'],
{
    reveal_strlit("msz");
    reveal_strlit("bct");
    reveal_strlit("mct");
    reveal_strlit("tna");
    reveal_strlit("ppo");
    reveal_strlit("plv");
    reveal_strlit("pin");
    reveal_strlit("sgt");
    reveal_strlit("sst");
}

/// `bct X Y` reads back as `Tile(X, Y)`.
proof fn lemma_tile_roundtrip(x: usize, y: usize)
    ensures
        gui_request_spec(request_text(GuiRequest::Tile(x, y))) == Ok::<GuiRequest, GuiParse>(GuiRequest::Tile(x, y)),
{
    lemma_verb_letters();
    let line = request_text(GuiRequest::Tile(x, y));
    crate::text::lemma_dec_is_word(x as nat);
    crate::text::lemma_dec_is_word(y as nat);
    lemma_verb_then("bct"@, dec(x as nat) + (seq![' '] + dec(y as nat)));
    crate::text::lemma_words_prefix(dec(x as nat), seq![' '] + dec(y as nat));
    crate::text::lemma_words_space(dec(y as nat));
    crate::text::lemma_words_single(dec(y as nat));
    assert(words(line) =~= seq!["bct"@, dec(x as nat), dec(y as nat)]);
    crate::text::law_parse_dec(x as nat, usize::MAX as nat);
    crate::text::law_parse_dec(y as nat, usize::MAX as nat);
    let verb = word_or_empty(line, 0);
    assert(verb == seq!['b', 'c', 't']);
    assert(verb[0] == 'b');
}

/// `ppo #n`, `plv #n`, `pin #n` and `sst T` read back as their requests.
proof fn lemma_arg_roundtrip(req: GuiRequest)
    requires
        req is PlayerPos || req is PlayerLevel || req is PlayerInv || req is TimeSet,
        req matches GuiRequest::TimeSet(t) ==> t > 0,
    ensures
        gui_request_spec(request_text(req)) == Ok::<GuiRequest, GuiParse>(req),
{
    lemma_verb_letters();
    let line = request_text(req);
    let (v, n): (Seq<char>, nat) = match req {
        GuiRequest::PlayerPos(n) => ("ppo"@, n as nat),
        GuiRequest::PlayerLevel(n) => ("plv"@, n as nat),
        GuiRequest::PlayerInv(n) => ("pin"@, n as nat),
        GuiRequest::TimeSet(t) => ("sst"@, t as nat),
        _ => ("msz"@, 0),
    };
    lemma_id_word(n);
    crate::text::law_parse_dec(n, u32::MAX as nat);
    if req is TimeSet {
        lemma_verb_then(v, dec(n));
        assert(words(line) =~= seq![v, dec(n)]);
    } else {
        lemma_verb_then(v, seq!['#'] + dec(n));
        assert(words(line) =~= seq![v, seq!['#'] + dec(n)]);
    }
    let verb = word_or_empty(line, 0);
    assert(verb == v);
    assert(verb[0] == v[0] && verb[1] == v[1]);
}

/// The requests without argument read back as themselves.
proof fn lemma_plain_roundtrip(req: GuiRequest)
    requires
        req is MapSize || req is MapContent || req is TeamNames || req is TimeGet,
    ensures
        gui_request_spec(request_text(req)) == Ok::<GuiRequest, GuiParse>(req),
{
    lemma_verb_letters();
    let v = request_text(req);
    assert forall|i: int| 0 <= i < v.len() implies !crate::text::is_ws(#[trigger] v[i]) by {}
    crate::text::lemma_words_single(v);
    let verb = word_or_empty(v, 0);
    assert(verb == v);
    assert(verb[0] == v[0] && verb[1] == v[1]);
}

/// A request written as the protocol writes it reads back as that request.
pub proof fn law_request_roundtrip(req: GuiRequest)
    requires
        req matches GuiRequest::TimeSet(t) ==> t > 0,
    ensures
        gui_request_spec(request_text(req)) == Ok::<GuiRequest, GuiParse>(req),
{
    match req {
        GuiRequest::Tile(x, y) => lemma_tile_roundtrip(x, y),
        GuiRequest::PlayerPos(_) | GuiRequest::PlayerLevel(_) | GuiRequest::PlayerInv(_) | GuiRequest::TimeSet(_) => {
            lemma_arg_roundtrip(req)
        },
        _ => lemma_plain_roundtrip(req),
    }
}

} // verus!
