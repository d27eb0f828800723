use zappy::game::map::Resource;
use zappy::game::player::Orientation;
use zappy::game::world::{Target, World};

const ALL: [Resource; 7] = [
    Resource::Food,
    Resource::Linemate,
    Resource::Deraumere,
    Resource::Sibur,
    Resource::Mendiane,
    Resource::Phiras,
    Resource::Thystame,
];
use zappy::net::reactor::{ai_request, gui_replies, handshake, on_event, open_game, Handshake, Outcome};
use zappy::scheduler::{Event, Scheduler};

fn names(list: &[&str]) -> Vec<String> {
    list.iter().map(|s| s.to_string()).collect()
}

fn world(teams: &[&str], clients: usize) -> World {
    World::with_clock(6, 4, &names(teams), clients, Some(42))
}

#[test]
fn graphic_handshake_gets_the_feed() {
    let mut w = world(&["red"], 1);
    let mut s = Scheduler::new();
    match handshake(&mut w, &mut s, 100, "GRAPHIC") {
        Handshake::Gui(feed) => {
            assert_eq!(feed[0], "msz 6 4");
            assert_eq!(feed[1], "sgt 100");
            assert_eq!(feed.len(), 2 + 24 + 1);
        }
        other => panic!("unexpected {other:?}"),
    }
    assert!(s.entries.is_empty());
}

#[test]
fn team_handshake_hatches_a_drone() {
    let mut w = world(&["red"], 2);
    let mut s = Scheduler::new();
    let id = match handshake(&mut w, &mut s, 100, "red") {
        Handshake::Ai { player, lines } => {
            assert_eq!(lines, vec!["1".to_string(), "6 4".to_string()]);
            player
        }
        other => panic!("unexpected {other:?}"),
    };
    assert!(w.players.contains_key(&id));
    assert_eq!(s.entries.len(), 1);
    assert_eq!(s.entries[0].1, Event::Starve { player: id });
    match handshake(&mut w, &mut s, 100, "red") {
        Handshake::Ai { lines, .. } => assert_eq!(lines[0], "0"),
        other => panic!("unexpected {other:?}"),
    }
    assert!(matches!(handshake(&mut w, &mut s, 100, "red"), Handshake::Refused(r) if r == "0"));
    assert!(matches!(handshake(&mut w, &mut s, 100, "blue"), Handshake::Refused(r) if r == "ko"));
    assert_eq!(s.entries.len(), 2);
}

#[test]
fn ai_requests_are_queued_started_and_answered() {
    let mut w = world(&["red"], 1);
    let mut s = Scheduler::new();
    let id = match handshake(&mut w, &mut s, 100, "red") {
        Handshake::Ai { player, .. } => player,
        other => panic!("unexpected {other:?}"),
    };
    s.entries.clear();
    assert_eq!(ai_request(&mut w, &mut s, 100, id, "Jump"), Some("ko".to_string()));
    assert!(s.entries.is_empty());
    assert_eq!(ai_request(&mut w, &mut s, 100, id, "Right"), None);
    assert_eq!(ai_request(&mut w, &mut s, 100, id, "Inventory"), None);
    assert_eq!(s.entries.len(), 1); // only the first one runs
    let done = s.pop_due(u128::MAX).unwrap();
    let before = w.players[&id].orientation;
    match on_event(&mut w, &mut s, 100, done) {
        Outcome::Reply { player, line } => {
            assert_eq!(player, id);
            assert_eq!(line, "ok");
        }
        other => panic!("unexpected {other:?}"),
    }
    assert_ne!(w.players[&id].orientation, before);
    assert_eq!(s.entries.len(), 1); // the next command started
    let done = s.pop_due(u128::MAX).unwrap();
    match on_event(&mut w, &mut s, 100, done) {
        Outcome::Reply { line, .. } => assert!(line.starts_with("[food 10,")),
        other => panic!("unexpected {other:?}"),
    }
    assert!(s.entries.is_empty()); // queue drained
}

#[test]
fn hunger_events_reschedule_until_death() {
    let mut w = world(&["red"], 1);
    let mut s = Scheduler::new();
    let id = match handshake(&mut w, &mut s, 100, "red") {
        Handshake::Ai { player, .. } => player,
        other => panic!("unexpected {other:?}"),
    };
    w.players.get_mut(&id).unwrap().inventory[0] = 2;
    s.entries.clear();
    assert!(matches!(on_event(&mut w, &mut s, 100, Event::Starve { player: id }), Outcome::Nothing));
    assert_eq!(s.entries.len(), 1);
    s.entries.clear();
    assert!(matches!(
        on_event(&mut w, &mut s, 100, Event::Starve { player: id }),
        Outcome::Dead { player } if player == id
    ));
    let told = w.take_outbox();
    assert_eq!(told.len(), 1);
    assert_eq!(told[0].1, format!("pdi #{id}"));
    assert!(s.entries.is_empty());
    assert!(matches!(on_event(&mut w, &mut s, 100, Event::Starve { player: 99 }), Outcome::Nothing));
}

#[test]
fn respawn_clock_reschedules_itself() {
    let mut w = world(&["red"], 1);
    let mut s = Scheduler::new();
    assert!(matches!(on_event(&mut w, &mut s, 10, Event::RespawnResources), Outcome::Nothing));
    assert_eq!(s.entries.len(), 1);
    assert_eq!(s.entries[0].1, Event::RespawnResources);
    // a 6 x 4 board: floor(24 * density), at least one of each
    let totals: Vec<u32> = ALL.iter().map(|&r| w.map.total(r)).collect();
    assert_eq!(totals, vec![12, 7, 3, 2, 2, 1, 1]);
    let told = w.take_outbox();
    assert_eq!(told.len(), 28);
    assert!(told.iter().all(|(t, l)| *t == Target::AllGui && l.starts_with("bct ")));
    // already at target: nothing more
    s.entries.clear();
    on_event(&mut w, &mut s, 10, Event::RespawnResources);
    assert!(w.take_outbox().is_empty());
    let again: Vec<u32> = ALL.iter().map(|&r| w.map.total(r)).collect();
    assert_eq!(again, totals);
    // eaten food is put back
    let sq = (0..6).flat_map(|x| (0..4).map(move |y| (x, y))).find(|&(x, y)| w.map.tile(x, y).count(Resource::Food) > 0).unwrap();
    w.map.tile_mut(sq.0, sq.1).take(Resource::Food, 1);
    on_event(&mut w, &mut s, 10, Event::RespawnResources);
    assert_eq!(w.map.total(Resource::Food), 12);
    assert_eq!(w.take_outbox().len(), 1);
    s.entries.clear();
    assert!(matches!(
        on_event(&mut w, &mut s, 10, Event::IncantationDone { tile: (0, 0), level: 1 }),
        Outcome::Nothing
    ));
    assert!(s.entries.is_empty());
}

#[test]
fn stale_completion_is_ignored() {
    let mut w = world(&["red"], 1);
    let mut s = Scheduler::new();
    let id = match handshake(&mut w, &mut s, 100, "red") {
        Handshake::Ai { player, .. } => player,
        other => panic!("unexpected {other:?}"),
    };
    w.players.get_mut(&id).unwrap().orientation = Orientation::North;
    assert!(matches!(
        on_event(&mut w, &mut s, 100, Event::ActionDone { player: id, command_id: 7 }),
        Outcome::Nothing
    ));
    assert_eq!(w.players[&id].orientation, Orientation::North);
}

#[test]
fn gui_lines_are_answered() {
    let w = world(&["red", "blue"], 1);
    let mut f = 100;
    assert_eq!(gui_replies(&w, &mut f, "wat"), vec!["suc"]);
    assert_eq!(gui_replies(&w, &mut f, "bct 1"), vec!["sbp"]);
    assert_eq!(gui_replies(&w, &mut f, "tna"), vec!["tna red", "tna blue"]);
    assert_eq!(gui_replies(&w, &mut f, "sst 25"), vec!["sst 25"]);
    assert_eq!(f, 25);
    assert_eq!(gui_replies(&w, &mut f, "sgt"), vec!["sgt 25"]);
    assert_eq!(gui_replies(&w, &mut f, "bct 9 9"), vec!["sbp"]);
    assert_eq!(gui_replies(&w, &mut f, "ppo #3"), vec!["sbp"]);
    assert_eq!(gui_replies(&w, &mut f, "bct 0 0"), vec!["bct 0 0 0 0 0 0 0 0 0"]);
}

#[test]
fn opening_spreads_resources_and_starts_the_clock() {
    let mut w = World::with_clock(10, 10, &names(&["red"]), 1, Some(7));
    let mut s = Scheduler::new();
    open_game(&mut w, &mut s, 100);
    let totals: Vec<u32> = ALL.iter().map(|&r| w.map.total(r)).collect();
    assert_eq!(totals, vec![50, 30, 15, 10, 10, 8, 5]);
    assert_eq!(s.entries.len(), 1);
    assert_eq!(s.entries[0].1, Event::RespawnResources);
}

#[test]
fn incantation_is_checked_when_it_starts_and_when_it_ends() {
    let mut w = world(&["red"], 1);
    let mut s = Scheduler::new();
    let id = match handshake(&mut w, &mut s, 100, "red") {
        Handshake::Ai { player, .. } => player,
        other => panic!("unexpected {other:?}"),
    };
    s.entries.clear();
    let (x, y) = (w.players[&id].x, w.players[&id].y);
    // no linemate: refused at once, nothing scheduled
    assert_eq!(ai_request(&mut w, &mut s, 100, id, "Incantation"), None);
    assert!(s.entries.is_empty());
    assert_eq!(w.take_outbox(), vec![(Target::Player(id), "ko".to_string())]);
    assert!(!w.players[&id].busy);
    // with a linemate: the ritual runs for 300 / f
    w.map.tile_mut(x, y).add(Resource::Linemate, 1);
    assert_eq!(ai_request(&mut w, &mut s, 100, id, "Incantation"), None);
    assert_eq!(s.entries.len(), 1);
    let done = s.pop_due(u128::MAX).unwrap();
    match on_event(&mut w, &mut s, 100, done) {
        Outcome::Reply { line, .. } => assert_eq!(line, "Elevation underway\nCurrent level: 2"),
        other => panic!("unexpected {other:?}"),
    }
    assert_eq!(w.players[&id].level, 2);
    // a level-2 ritual needs two drones: alone, it is refused at once
    w.map.tile_mut(x, y).add(Resource::Linemate, 1);
    w.map.tile_mut(x, y).add(Resource::Deraumere, 1);
    w.map.tile_mut(x, y).add(Resource::Sibur, 1);
    assert_eq!(ai_request(&mut w, &mut s, 100, id, "Incantation"), None);
    assert!(s.entries.is_empty());
    assert_eq!(w.take_outbox(), vec![(Target::Player(id), "ko".to_string())]);
    // conditions that hold at the start but not at the end: ko at the end
    w.players.get_mut(&id).unwrap().level = 1;
    assert_eq!(ai_request(&mut w, &mut s, 100, id, "Incantation"), None);
    assert_eq!(s.entries.len(), 1);
    w.map.tile_mut(x, y).take(Resource::Linemate, 1);
    let done = s.pop_due(u128::MAX).unwrap();
    match on_event(&mut w, &mut s, 100, done) {
        Outcome::Reply { line, .. } => assert_eq!(line, "ko"),
        other => panic!("unexpected {other:?}"),
    }
    assert_eq!(w.players[&id].level, 1);
}
