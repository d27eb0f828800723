//! What the server decides when a line arrives or a scheduled event comes
//! due. The event loop (sockets, `poll`) performs what these functions
//! return.

use vstd::prelude::*;

use crate::game::gui::{gui_request_spec, init_feed, resolve_text, resolve_time, GuiParse, GuiRequest};
use crate::game::player::{StarveResult, STARVE_INTERVAL_UNITS};
use crate::game::team::JoinError;
use crate::game::command::{can_elevate, can_elevate_now, Command, EnqueueError};
use crate::game::world::{joined, team_position, Target, World};
use crate::scheduler::{Event, Scheduler};
use crate::text::{chars_are, chars_of, dec, dec_string, lines_of, push_dec};

verus! {

/// Outcome of the first line of a connection.
#[derive(Debug)]
pub enum Handshake {
    /// A graphical client, to be sent these lines.
    Gui(Vec<String>),
    /// An AI now driving drone `player`, to be sent these lines.
    Ai { player: u32, lines: Vec<String> },
    /// Refused: this line is sent, then the connection closes.
    Refused(String),
}

/// Outcome of a scheduled event.
#[derive(Debug)]
pub enum Outcome {
    /// Send `line` to the AI driving `player`.
    Reply { player: u32, line: String },
    /// Drone `player` starved: send `dead`, then close its connection.
    Dead { player: u32 },
    /// Nothing to send.
    Nothing,
}

/// Lines answering a graphical client's request line.
pub open spec fn gui_reply_text(line: Seq<char>, w: World, f: u32) -> Seq<Seq<char>> {
    match gui_request_spec(line) {
        Ok(req) => resolve_text(req, w, f),
        Err(GuiParse::BadParam) => seq!["sbp"@],
        Err(GuiParse::Unknown) => seq!["suc"@],
    }
}

/// Time unit after a graphical client's request line.
pub open spec fn gui_reply_time(line: Seq<char>, f: u32) -> u32 {
    match gui_request_spec(line) {
        Ok(req) => resolve_time(req, f),
        Err(_) => f,
    }
}

/// Answers a graphical client's request line: the answer lines, `sbp` for
/// a malformed argument, `suc` for an unknown verb.
pub fn gui_replies(world: &World, f: &mut u32, line: &str) -> (r: Vec<String>)
    requires
        world.wf(),
    ensures
        lines_of(r@) == gui_reply_text(line@, *world, *old(f)),
        *final(f) == gui_reply_time(line@, *old(f)),
{
    match GuiRequest::parse(line) {
        Ok(req) => req.resolve(world, f),
        Err(GuiParse::BadParam) => {
            let v = vec![String::from_str("sbp")];
            assert(lines_of(v@) =~= seq!["sbp"@]);
            v
        },
        Err(GuiParse::Unknown) => {
            let v = vec![String::from_str("suc")];
            assert(lines_of(v@) =~= seq!["suc"@]);
            v
        },
    }
}

/// Drone `player` waits to start an `Incantation` whose conditions do not
/// hold.
pub open spec fn doomed(w: World, player: u32) -> bool {
    &&& w.players@.contains_key(player)
    &&& w.players@[player].queue@.len() > 0
    &&& w.players@[player].queue@[0] == Command::Incantation
    &&& !can_elevate(w, player)
}

/// The started incantation `id` of drone `player` on `mid` is refused at
/// once: it runs (answering `ko`), and the `ko` goes to the drone's AI.
pub open spec fn ritual_refused(mid: World, w3: World, player: u32, id: u64) -> bool {
    exists|w2: World, s: String|
        #![trigger crate::game::world::finished(mid, w2, player, id, Some(s))]
        {
            &&& crate::game::world::finished(mid, w2, player, id, Some(s))
            &&& s@ == "ko"@
            &&& w3.outbox@ == w2.outbox@.push((Target::Player(player), s))
            &&& w3.players == w2.players
            &&& w3.map == w2.map
            &&& w3.teams == w2.teams
            &&& w3.next_id == w2.next_id
            &&& w3.rng == w2.rng
        }
}

/// Effect of `maybe_start` from world `w0` and schedule `s0`, with at most
/// `n` incantations refused on the way: the drone's next command starts as
/// `start_next` says; an incantation whose conditions do not hold is
/// answered `ko` at once and the next command tried; any other command
/// has its completion scheduled `cost / f` seconds later.
pub open spec fn start_chain(
    w0: World,
    w1: World,
    s0: Seq<(u128, Event)>,
    s1: Seq<(u128, Event)>,
    player: u32,
    f: u32,
    n: nat,
) -> bool
    decreases n,
{
    exists|r: Option<(u64, u32)>, mid: World|
        #![trigger crate::game::world::started(w0, mid, player, r)]
        crate::game::world::started(w0, mid, player, r) && match r {
            Some((id, cost)) => if doomed(mid, player) && n > 0 {
                exists|w3: World|
                    #![trigger ritual_refused(mid, w3, player, id)]
                    ritual_refused(mid, w3, player, id) && if w3.players@[player].cmd_seq < u64::MAX {
                        start_chain(w3, w1, s0, s1, player, f, (n - 1) as nat)
                    } else {
                        w1 == w3 && s1 == s0
                    }
            } else {
                w1 == mid && exists|now: u128|
                    #![trigger crate::scheduler::deadline(now, cost, f)]
                    s1 == crate::scheduler::scheduled(
                        s0,
                        crate::scheduler::deadline(now, cost, f),
                        Event::ActionDone { player, command_id: id },
                    )
            },
            None => w1 == mid && s1 == s0,
        }
}

/// Effect of `maybe_start(player)` from `w0` and `s0`.
pub open spec fn start_effect(
    w0: World,
    w1: World,
    s0: Seq<(u128, Event)>,
    s1: Seq<(u128, Event)>,
    player: u32,
    f: u32,
) -> bool {
    start_chain(w0, w1, s0, s1, player, f, queue_len(w0, player))
}

/// Length of drone `player`'s queue, 0 when there is no such drone.
pub open spec fn queue_len(w: World, player: u32) -> nat {
    if w.players@.contains_key(player) {
        w.players@[player].queue@.len()
    } else {
        0
    }
}

/// Whether drone `player` waits to start an incantation whose conditions
/// do not hold.
fn front_doomed(world: &World, player: u32) -> (r: bool)
    requires
        world.board_ok(),
    ensures
        r == doomed(*world, player),
{
    match world.players.get(&player) {
        Some(p) => {
            if p.queue.len() == 0 {
                return false;
            }
            match &p.queue[0] {
                Command::Incantation => !can_elevate_now(world, player),
                _ => false,
            }
        },
        None => false,
    }
}

/// Waiting does not change whether a drone can rise: `before_run` only
/// changes the drone's queue and flags.
proof fn lemma_before_run_keeps_elevation(pre: World, mid: World, player: u32)
    requires
        pre.players@.contains_key(player),
        crate::game::world::before_run(pre, mid, player),
    ensures
        can_elevate(mid, player) == can_elevate(pre, player),
{
    let p = pre.players@[player];
    assert(crate::game::command::peers(mid.players@, p.x as int, p.y as int, p.level)
        =~= crate::game::command::peers(pre.players@, p.x as int, p.y as int, p.level));
}

/// If drone `player` is idle with a command queued, starts it and
/// schedules its completion; an incantation whose conditions do not hold
/// is answered `ko` at once and the next command tried.
pub fn maybe_start(world: &mut World, sched: &mut Scheduler, f: u32, player: u32)
    requires
        old(world).wf(),
        old(sched).wf(),
        f > 0,
        old(world).players@.contains_key(player) ==> old(world).players@[player].cmd_seq < u64::MAX,
    ensures
        final(world).wf(),
        final(sched).wf(),
        start_effect(*old(world), *final(world), old(sched).entries@, final(sched).entries@, player, f),
    decreases queue_len(*old(world), player),
{
    let r = world.start_next(player);
    let ghost mid = *world;
    proof {
        assert(crate::game::world::started(*old(world), mid, player, r));
    }
    match r {
        Some((command_id, cost)) => {
            if front_doomed(world, player) {
                let reply = world.finish_command(player, command_id);
                let ghost w2 = *world;
                let s = match reply {
                    Some(s) => s,
                    None => {
                        proof {
                            assert(crate::game::world::finish_runs(mid, player, command_id));
                        }
                        return;
                    },
                };
                proof {
                    assert(crate::game::world::finish_runs(mid, player, command_id));
                    let mid1 = choose|m: World| #[trigger] crate::game::world::before_run(mid, m, player) && m.wf() && (
                    Some(s) matches Some(rep) && crate::game::command::executed(mid.players@[player].queue@[0], m, w2, player, rep));
                    assert(crate::game::world::before_run(mid, mid1, player));
                    lemma_before_run_keeps_elevation(mid, mid1, player);
                    assert(s@ == "ko"@);
                    assert(w2 == mid1);
                }
                world.outbox.push((Target::Player(player), s));
                let ghost w3 = *world;
                proof {
                    assert(ritual_refused(mid, w3, player, command_id));
                    assert(w3.wf());
                    assert(queue_len(w3, player) < queue_len(*old(world), player));
                }
                if world.can_start(player) {
                    maybe_start(world, sched, f, player);
                }
            } else {
                sched.schedule_units(cost, f, Event::ActionDone { player, command_id });
            }
        },
        None => {},
    }
}

/// Handles a request line of the AI driving `player`: queues it (and
/// starts it when the drone is idle), or answers `ko` when it is not a
/// command; a line beyond the queue's bound is dropped silently.
pub fn ai_request(world: &mut World, sched: &mut Scheduler, f: u32, player: u32, line: &str) -> (r: Option<String>)
    requires
        old(world).wf(),
        old(sched).wf(),
        f > 0,
        old(world).players@.contains_key(player) ==> old(world).players@[player].cmd_seq < u64::MAX,
    ensures
        final(world).wf(),
        final(sched).wf(),
        exists|mid: World, e: Result<(), EnqueueError>|
            #![trigger crate::game::world::enqueued(*old(world), mid, player, line@, e)]
            crate::game::world::enqueued(*old(world), mid, player, line@, e) && mid.wf() && match e {
                Err(EnqueueError::BadCommand) => (r matches Some(s) && s@ == "ko"@) && *final(world) == mid
                    && *final(sched) == *old(sched),
                Err(EnqueueError::QueueFull) => r is None && *final(world) == mid && *final(sched) == *old(sched),
                Ok(()) => r is None && start_effect(mid, *final(world), old(sched).entries@, final(sched).entries@, player, f),
            },
{
    let e = world.enqueue_command(player, line);
    let ghost mid = *world;
    proof {
        assert(crate::game::world::enqueued(*old(world), mid, player, line@, e));
    }
    match e {
        Ok(()) => {
            maybe_start(world, sched, f, player);
            None
        },
        Err(EnqueueError::BadCommand) => Some(String::from_str("ko")),
        Err(EnqueueError::QueueFull) => None,
    }
}

/// Handles the first line of a connection: `GRAPHIC` makes it a graphical
/// client, which gets the initial feed; a team name with a free slot
/// hatches a drone (answered with the slots left and the board size, and
/// its hunger ticks scheduled); an unknown team is answered `ko` and a
/// full one `0`.
pub fn handshake(world: &mut World, sched: &mut Scheduler, f: u32, line: &str) -> (r: Handshake)
    requires
        old(world).wf(),
        old(sched).wf(),
        f > 0,
        line@ != "GRAPHIC"@ ==> crate::game::world::joinable(old(world).teams@, line@) ==> old(world).map.width > 0
            && old(world).map.height > 0 && old(world).next_id < u32::MAX,
    ensures
        final(world).wf(),
        final(sched).wf(),
        line@ == "GRAPHIC"@ ==> *final(world) == *old(world) && *final(sched) == *old(sched) && (r matches Handshake::Gui(feed)
            && exists|order: Seq<u32>|
            #![trigger crate::game::gui::feed_text(*old(world), f, order)]
            order.no_duplicates() && order.to_set() == old(world).players@.dom()
                && lines_of(feed@) == crate::game::gui::feed_text(*old(world), f, order)),
        line@ != "GRAPHIC"@ ==> exists|j: Result<(u32, usize), JoinError>|
            #![trigger joined(*old(world), *final(world), line@, j)]
            joined(*old(world), *final(world), line@, j) && match j {
                Ok((id, left)) => {
                    &&& r matches Handshake::Ai { player, lines } && player == id && lines_of(lines@)
                        == seq![dec(left as nat), dec(old(world).map.width as nat) + " "@ + dec(old(world).map.height as nat)]
                    &&& exists|now: u128|
                        #![trigger crate::scheduler::deadline(now, STARVE_INTERVAL_UNITS, f)]
                        final(sched).entries@ == crate::scheduler::scheduled(
                            old(sched).entries@,
                            crate::scheduler::deadline(now, STARVE_INTERVAL_UNITS, f),
                            Event::Starve { player: id },
                        )
                },
                Err(JoinError::UnknownTeam) => r matches Handshake::Refused(s) && s@ == "ko"@ && *final(sched) == *old(sched),
                Err(JoinError::TeamFull) => r matches Handshake::Refused(s) && s@ == "0"@ && *final(sched) == *old(sched),
            },
{
    let v = chars_of(line);
    if chars_are(&v, "GRAPHIC") {
        return Handshake::Gui(init_feed(world, f));
    }
    let (width, height) = (world.map.width, world.map.height);
    match world.add_player(line) {
        Ok((player, remaining)) => {
            sched.schedule_units(STARVE_INTERVAL_UNITS, f, Event::Starve { player });
            let first = dec_string(remaining as u64);
            let mut second = String::new();
            push_dec(&mut second, width as u64);
            second.append(" ");
            push_dec(&mut second, height as u64);
            let lines = vec![first, second];
            assert(lines_of(lines@) =~= seq![lines@[0]@, lines@[1]@]);
            Handshake::Ai { player, lines }
        },
        Err(JoinError::UnknownTeam) => Handshake::Refused(String::from_str("ko")),
        Err(JoinError::TeamFull) => Handshake::Refused(String::from_str("0")),
    }
}

/// Readies a fresh game: spreads the resources to their targets and starts
/// the resource clock (every 20 time units).
pub fn open_game(world: &mut World, sched: &mut Scheduler, f: u32)
    requires
        old(world).wf(),
        old(world).map.width > 0,
        old(world).map.height > 0,
        old(sched).wf(),
        f > 0,
    ensures
        final(world).wf(),
        final(sched).wf(),
        crate::game::world::respawned(*old(world), *final(world)),
        exists|now: u128|
            #![trigger crate::scheduler::deadline(now, 20, f)]
            final(sched).entries@ == crate::scheduler::scheduled(
                old(sched).entries@,
                crate::scheduler::deadline(now, 20, f),
                Event::RespawnResources,
            ),
{
    world.respawn();
    sched.schedule_units(20, f, Event::RespawnResources);
}

/// Handles a scheduled event that came due: a finished action answers its
/// AI and starts the drone's next command; a hunger tick feeds the drone,
/// reschedules itself, or reports its death; the resource clock tops up
/// the resources and reschedules itself; an incantation end does nothing
/// here (elevation is settled when the `Incantation` command completes).
pub fn on_event(world: &mut World, sched: &mut Scheduler, f: u32, event: Event) -> (r: Outcome)
    requires
        old(world).wf(),
        old(sched).wf(),
        f > 0,
        event matches Event::ActionDone { player, command_id } ==> crate::game::world::finish_defined(
            *old(world),
            player,
            command_id,
        ),
        event is RespawnResources ==> old(world).map.width > 0 && old(world).map.height > 0,
    ensures
        final(world).wf(),
        final(sched).wf(),
        match event {
            Event::ActionDone { player, command_id } => exists|mid: World, reply: Option<String>|
                #![trigger crate::game::world::finished(*old(world), mid, player, command_id, reply)]
                crate::game::world::finished(*old(world), mid, player, command_id, reply) && mid.wf() && (if mid.players@.contains_key(player) ==> mid.players@[player].cmd_seq < u64::MAX {
                    start_effect(mid, *final(world), old(sched).entries@, final(sched).entries@, player, f)
                } else {
                    *final(world) == mid && *final(sched) == *old(sched)
                }) && match reply {
                    Some(s) => r matches Outcome::Reply { player: p, line } && p == player && line == s,
                    None => r matches Outcome::Nothing,
                },
            Event::Starve { player } => exists|s: StarveResult|
                #![trigger crate::game::world::starved(*old(world), *final(world), player, s)]
                crate::game::world::starved(*old(world), *final(world), player, s) && match s {
                    StarveResult::Survived => (r matches Outcome::Nothing) && exists|now: u128|
                        #![trigger crate::scheduler::deadline(now, STARVE_INTERVAL_UNITS, f)]
                        final(sched).entries@ == crate::scheduler::scheduled(
                            old(sched).entries@,
                            crate::scheduler::deadline(now, STARVE_INTERVAL_UNITS, f),
                            Event::Starve { player },
                        ),
                    StarveResult::Died => r matches Outcome::Dead { player: p } && p == player && *final(sched) == *old(sched),
                    StarveResult::Gone => (r matches Outcome::Nothing) && *final(sched) == *old(sched),
                },
            Event::RespawnResources => crate::game::world::respawned(*old(world), *final(world)) && (r matches Outcome::Nothing) && exists|now: u128|
                #![trigger crate::scheduler::deadline(now, 20, f)]
                final(sched).entries@ == crate::scheduler::scheduled(
                    old(sched).entries@,
                    crate::scheduler::deadline(now, 20, f),
                    Event::RespawnResources,
                ),
            Event::IncantationDone { .. } => *final(world) == *old(world) && *final(sched) == *old(sched) && (r matches Outcome::Nothing),
        },
{
    match event {
        Event::ActionDone { player, command_id } => {
            let reply = world.finish_command(player, command_id);
            let ghost mid = *world;
            let ghost sched0 = sched.entries@;
            if world.can_start(player) {
                maybe_start(world, sched, f, player);
            }
            proof {
                assert(crate::game::world::finished(*old(world), mid, player, command_id, reply));
            }
            match reply {
                Some(line) => Outcome::Reply { player, line },
                None => Outcome::Nothing,
            }
        },
        Event::Starve { player } => match world.consume_food(player) {
            StarveResult::Survived => {
                sched.schedule_units(STARVE_INTERVAL_UNITS, f, Event::Starve { player });
                Outcome::Nothing
            },
            StarveResult::Died => Outcome::Dead { player },
            StarveResult::Gone => Outcome::Nothing,
        },
        Event::RespawnResources => {
            world.respawn();
            sched.schedule_units(20, f, Event::RespawnResources);
            Outcome::Nothing
        },
        Event::IncantationDone { .. } => Outcome::Nothing,
    }
}

/// After `sst T`, a graphical client's `sgt` is answered `sgt T`.
pub proof fn law_time_set_then_get(w: World, f: u32, set_line: Seq<char>, get_line: Seq<char>, t: u32)
    requires
        gui_request_spec(set_line) == Ok::<GuiRequest, GuiParse>(GuiRequest::TimeSet(t)),
        gui_request_spec(get_line) == Ok::<GuiRequest, GuiParse>(GuiRequest::TimeGet),
    ensures
        gui_reply_text(set_line, w, f) == seq!["sst "@ + dec(t as nat)],
        gui_reply_time(set_line, f) == t,
        gui_reply_text(get_line, w, gui_reply_time(set_line, f)) == seq!["sgt "@ + dec(t as nat)],
{
}

} // verus!
