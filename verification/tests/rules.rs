use zappy::game::command::{Command, EnqueueError, MAX_QUEUED};
use zappy::game::map::Resource;
use zappy::game::player::{Orientation, Player, StarveResult};
use zappy::game::team::JoinError;
use zappy::game::world::{Target, World};

fn names(list: &[&str]) -> Vec<String> {
    list.iter().map(|s| s.to_string()).collect()
}

fn world(w: usize, h: usize, teams: &[&str], clients: usize) -> World {
    World::with_clock(w, h, &names(teams), clients, Some(123_456_789))
}

/// Puts drone `id` on square `(x, y)` facing `o`.
fn place(w: &mut World, id: u32, x: usize, y: usize, o: Orientation) {
    let p = w.players.get_mut(&id).unwrap();
    p.x = x;
    p.y = y;
    p.orientation = o;
}

#[test]
fn commands_parse() {
    assert_eq!(Command::parse("Forward"), Some(Command::Forward));
    assert_eq!(Command::parse("  Right  "), Some(Command::Right));
    assert_eq!(Command::parse("Look extra"), Some(Command::Look));
    assert_eq!(Command::parse("Connect_nbr"), Some(Command::ConnectNbr));
    assert_eq!(Command::parse("Take food"), Some(Command::Take("food".to_string())));
    assert_eq!(Command::parse("Set  linemate "), Some(Command::Put("linemate".to_string())));
    assert_eq!(
        Command::parse("Broadcast hello there"),
        Some(Command::Broadcast("hello there".to_string()))
    );
    assert_eq!(Command::parse("Take"), None);
    assert_eq!(Command::parse("Broadcast   "), None);
    assert_eq!(Command::parse("forward"), None);
    assert_eq!(Command::parse(""), None);
}

#[test]
fn command_costs() {
    assert_eq!(Command::Forward.cost(), 7);
    assert_eq!(Command::Take("food".to_string()).cost(), 7);
    assert_eq!(Command::Inventory.cost(), 1);
    assert_eq!(Command::Fork.cost(), 42);
    assert_eq!(Command::Incantation.cost(), 300);
    assert_eq!(Command::ConnectNbr.cost(), 0);
}

#[test]
fn joining_uses_slots() {
    let mut w = world(4, 4, &["red", "blue"], 1);
    assert_eq!(w.add_player("green"), Err(JoinError::UnknownTeam));
    let (id, left) = w.add_player("blue").unwrap();
    assert_eq!(left, 0);
    assert_eq!(w.teams[1].remaining(), 0);
    assert_eq!(w.teams[1].players, vec![id]);
    assert_eq!(w.add_player("blue"), Err(JoinError::TeamFull));
    let (id2, _) = w.add_player("red").unwrap();
    assert_ne!(id, id2);
    let p = &w.players[&id];
    assert!(p.x < 4 && p.y < 4);
    assert_eq!(p.level, 1);
    assert_eq!(p.inventory, [10, 0, 0, 0, 0, 0, 0]);
}

#[test]
fn leaving_frees_the_drone_entry() {
    let mut w = world(4, 4, &["red"], 2);
    let (id, _) = w.add_player("red").unwrap();
    w.remove_player(id);
    assert!(w.players.get(&id).is_none());
    assert!(w.teams[0].players.is_empty());
    w.remove_player(id);
    assert!(w.players.is_empty());
}

#[test]
fn queue_holds_at_most_ten() {
    let mut w = world(4, 4, &["red"], 1);
    let (id, _) = w.add_player("red").unwrap();
    assert_eq!(w.enqueue_command(id, "Dance"), Err(EnqueueError::BadCommand));
    assert_eq!(w.enqueue_command(999, "Forward"), Err(EnqueueError::BadCommand));
    for _ in 0..MAX_QUEUED {
        assert_eq!(w.enqueue_command(id, "Left"), Ok(()));
    }
    assert_eq!(w.enqueue_command(id, "Left"), Err(EnqueueError::QueueFull));
    assert_eq!(w.players[&id].queue.len(), MAX_QUEUED);
}

#[test]
fn commands_run_in_order_received() {
    let mut w = world(5, 5, &["red"], 1);
    let (id, _) = w.add_player("red").unwrap();
    place(&mut w, id, 2, 2, Orientation::North);
    assert_eq!(w.enqueue_command(id, "Forward"), Ok(()));
    assert_eq!(w.enqueue_command(id, "Right"), Ok(()));
    let (c1, cost) = w.start_next(id).unwrap();
    assert_eq!(cost, 7);
    assert_eq!(w.start_next(id), None); // busy
    assert_eq!(w.finish_command(id, c1 + 1), None); // stale id
    assert_eq!(w.finish_command(id, c1).as_deref(), Some("ok"));
    assert_eq!(w.finish_command(id, c1), None); // finishes once
    assert_eq!((w.players[&id].x, w.players[&id].y), (2, 1));
    assert_eq!(w.players[&id].orientation, Orientation::North);
    let (c2, _) = w.start_next(id).unwrap();
    assert_eq!(c2, c1 + 1);
    assert_eq!(w.finish_command(id, c2).as_deref(), Some("ok"));
    assert_eq!(w.players[&id].orientation, Orientation::East);
    assert_eq!(w.start_next(id), None); // nothing left
}

#[test]
fn forward_wraps_around_the_board() {
    let mut w = world(3, 3, &["red"], 1);
    let (id, _) = w.add_player("red").unwrap();
    place(&mut w, id, 0, 0, Orientation::West);
    assert_eq!(Command::Forward.execute(&mut w, id), "ok");
    assert_eq!((w.players[&id].x, w.players[&id].y), (2, 0));
    place(&mut w, id, 1, 2, Orientation::South);
    Command::Forward.execute(&mut w, id);
    assert_eq!((w.players[&id].x, w.players[&id].y), (1, 0));
}

#[test]
fn right_then_left_restores_facing() {
    let mut w = world(3, 3, &["red"], 1);
    let (id, _) = w.add_player("red").unwrap();
    for o in [Orientation::North, Orientation::East, Orientation::South, Orientation::West] {
        place(&mut w, id, 1, 1, o);
        Command::Right.execute(&mut w, id);
        assert_ne!(w.players[&id].orientation, o);
        Command::Left.execute(&mut w, id);
        assert_eq!(w.players[&id].orientation, o);
    }
}

#[test]
fn take_then_set_restores_board_and_inventory() {
    let mut w = world(3, 3, &["red"], 1);
    let (id, _) = w.add_player("red").unwrap();
    place(&mut w, id, 1, 2, Orientation::North);
    w.map.tile_mut(1, 2).add(Resource::Phiras, 2);
    let take = Command::Take("phiras".to_string());
    let set = Command::Put("phiras".to_string());
    assert_eq!(take.execute(&mut w, id), "ok");
    assert_eq!(w.players[&id].inventory[5], 1);
    assert_eq!(w.map.tile(1, 2).count(Resource::Phiras), 1);
    assert_eq!(set.execute(&mut w, id), "ok");
    assert_eq!(w.players[&id].inventory[5], 0);
    assert_eq!(w.map.tile(1, 2).count(Resource::Phiras), 2);
    assert_eq!(set.execute(&mut w, id), "ko");
    assert_eq!(Command::Take("gold".to_string()).execute(&mut w, id), "ko");
    assert_eq!(Command::Take("sibur".to_string()).execute(&mut w, id), "ko");
}

#[test]
fn inventory_and_slots_replies() {
    let mut w = world(3, 3, &["red"], 3);
    let (id, _) = w.add_player("red").unwrap();
    assert_eq!(
        Command::Inventory.execute(&mut w, id),
        "[food 10, linemate 0, deraumere 0, sibur 0, mendiane 0, phiras 0, thystame 0]"
    );
    assert_eq!(Command::ConnectNbr.execute(&mut w, id), "2");
    assert_eq!(Command::Inventory.execute(&mut w, 77), "ko");
    assert_eq!(Command::ConnectNbr.execute(&mut w, 77), "0");
    assert_eq!(Command::Fork.execute(&mut w, id), "ok");
    assert_eq!(w.teams[0].remaining(), 3);
    assert_eq!(Command::ConnectNbr.execute(&mut w, id), "3");
    assert_eq!(Command::Fork.execute(&mut w, 77), "ok");
    assert_eq!(w.teams[0].remaining(), 3);
    assert_eq!(Command::Incantation.execute(&mut w, id), "ko"); // no linemate here
}

#[test]
fn look_shows_the_cone() {
    let mut w = world(5, 5, &["red"], 2);
    let (id, _) = w.add_player("red").unwrap();
    let (other, _) = w.add_player("red").unwrap();
    place(&mut w, id, 2, 2, Orientation::North);
    place(&mut w, other, 2, 1, Orientation::South);
    w.map.tile_mut(2, 2).add(Resource::Food, 2);
    w.map.tile_mut(1, 1).add(Resource::Linemate, 1);
    w.map.tile_mut(3, 1).add(Resource::Thystame, 1);
    assert_eq!(
        Command::Look.execute(&mut w, id),
        "[player food food, linemate, player, thystame]"
    );
    assert_eq!(Command::Look.execute(&mut w, 999), "ko");
}

#[test]
fn broadcast_reaches_every_other_drone() {
    let mut w = world(10, 10, &["red"], 3);
    let (a, _) = w.add_player("red").unwrap();
    let (b, _) = w.add_player("red").unwrap();
    let (c, _) = w.add_player("red").unwrap();
    place(&mut w, a, 5, 5, Orientation::North);
    place(&mut w, b, 5, 7, Orientation::North); // a is straight ahead of b
    place(&mut w, c, 5, 5, Orientation::East); // same tile as a
    assert_eq!(Command::Broadcast("hi".to_string()).execute(&mut w, a), "ok");
    let mut out = w.take_outbox();
    out.sort_by_key(|(t, _)| match t {
        Target::Player(p) => *p,
        Target::AllGui => 0,
    });
    assert_eq!(
        out,
        vec![
            (Target::Player(b), "message 1, hi".to_string()),
            (Target::Player(c), "message 0, hi".to_string()),
        ]
    );
    assert!(w.take_outbox().is_empty());
}

#[test]
fn eject_pushes_others_one_tile() {
    let mut w = world(4, 4, &["red"], 3);
    let (a, _) = w.add_player("red").unwrap();
    let (b, _) = w.add_player("red").unwrap();
    let (c, _) = w.add_player("red").unwrap();
    place(&mut w, a, 3, 1, Orientation::East);
    place(&mut w, b, 3, 1, Orientation::North);
    place(&mut w, c, 0, 0, Orientation::North);
    assert_eq!(Command::Eject.execute(&mut w, a), "ok");
    assert_eq!((w.players[&b].x, w.players[&b].y), (0, 1));
    assert_eq!((w.players[&c].x, w.players[&c].y), (0, 0));
    assert_eq!((w.players[&a].x, w.players[&a].y), (3, 1));
    // pushed towards the East while facing North: the push came from the West, on its left
    assert_eq!(w.take_outbox(), vec![(Target::Player(b), "eject: 3".to_string())]);
    // now alone on its square: nobody to push
    assert_eq!(Command::Eject.execute(&mut w, a), "ko");
    assert_eq!((w.players[&b].x, w.players[&b].y), (0, 1));
    assert!(w.take_outbox().is_empty());
}

#[test]
fn hunger_counts_down_to_death() {
    let mut w = world(3, 3, &["red"], 1);
    let (id, _) = w.add_player("red").unwrap();
    for left in (1..10).rev() {
        assert_eq!(w.consume_food(id), StarveResult::Survived);
        assert_eq!(w.players[&id].inventory[0], left);
    }
    assert!(w.take_outbox().is_empty());
    assert_eq!(w.consume_food(id), StarveResult::Died);
    assert_eq!(w.take_outbox(), vec![(Target::AllGui, format!("pdi #{id}"))]);
    assert_eq!(w.consume_food(999), StarveResult::Gone);
    assert!(w.take_outbox().is_empty());
}

#[test]
fn look_on_a_drone_placed_by_hand() {
    let mut w = World::new(3, 3, &names(&["t1"]), 0);
    w.players.insert(1, Player::new(1, 0, 0, 0, Orientation::North));
    w.map.tile_mut(2, 2).add(Resource::Linemate, 1);
    w.map.tile_mut(1, 2).add(Resource::Food, 1);
    let r = Command::Look.execute(&mut w, 1);
    assert!(r.starts_with('[') && r.ends_with(']'));
    let tiles: Vec<&str> = r[1..r.len() - 1].split(',').map(|t| t.trim()).collect();
    assert_eq!(tiles, vec!["player", "linemate", "", "food"]);
}

#[test]
fn higher_levels_see_wider_cones() {
    let mut w = world(7, 7, &["red"], 1);
    let (id, _) = w.add_player("red").unwrap();
    place(&mut w, id, 3, 3, Orientation::East);
    for (level, tiles) in [(1u8, 4usize), (2, 9), (3, 16)] {
        w.players.get_mut(&id).unwrap().level = level;
        let look = Command::Look.execute(&mut w, id);
        assert!(look.starts_with("[player") && look.ends_with(']'));
        assert_eq!(look.matches(',').count() + 1, tiles);
    }
}

#[test]
fn elevation_needs_stones_and_peers() {
    let mut w = world(4, 4, &["red"], 3);
    let (a, _) = w.add_player("red").unwrap();
    let (b, _) = w.add_player("red").unwrap();
    let (c, _) = w.add_player("red").unwrap();
    place(&mut w, a, 1, 1, Orientation::North);
    place(&mut w, b, 1, 1, Orientation::South);
    place(&mut w, c, 2, 2, Orientation::South);
    w.map.tile_mut(1, 1).add(Resource::Linemate, 3);
    w.map.tile_mut(1, 1).add(Resource::Food, 4);
    // 1 -> 2: one drone, one linemate; every level-1 drone on the square rises
    assert_eq!(Command::Incantation.execute(&mut w, a), "Elevation underway\nCurrent level: 2");
    assert_eq!((w.players[&a].level, w.players[&b].level, w.players[&c].level), (2, 2, 1));
    assert_eq!(w.map.tile(1, 1).count(Resource::Linemate), 2);
    assert_eq!(w.map.tile(1, 1).count(Resource::Food), 4);
    // 2 -> 3 needs deraumere and sibur as well
    assert_eq!(Command::Incantation.execute(&mut w, a), "ko");
    w.map.tile_mut(1, 1).add(Resource::Deraumere, 1);
    w.map.tile_mut(1, 1).add(Resource::Sibur, 1);
    // ... and two drones of level 2: b leaves
    place(&mut w, b, 0, 0, Orientation::South);
    assert_eq!(Command::Incantation.execute(&mut w, a), "ko");
    place(&mut w, b, 1, 1, Orientation::South);
    assert_eq!(Command::Incantation.execute(&mut w, b), "Elevation underway\nCurrent level: 3");
    assert_eq!((w.players[&a].level, w.players[&b].level), (3, 3));
    assert_eq!(w.map.tile(1, 1).count(Resource::Linemate), 1);
    assert_eq!(w.map.tile(1, 1).count(Resource::Sibur), 0);
    // past level 7 there is nothing to rise to
    w.players.get_mut(&c).unwrap().level = 8;
    w.map.tile_mut(2, 2).add(Resource::Thystame, 5);
    assert_eq!(Command::Incantation.execute(&mut w, c), "ko");
}

#[test]
fn six_drones_at_level_eight_win() {
    let mut w = world(5, 5, &["red", "blue"], 6);
    let mut ids = Vec::new();
    for _ in 0..6 {
        let (id, _) = w.add_player("red").unwrap();
        place(&mut w, id, 2, 2, Orientation::North);
        w.players.get_mut(&id).unwrap().level = 7;
        ids.push(id);
    }
    for (r, n) in [
        (Resource::Linemate, 2),
        (Resource::Deraumere, 2),
        (Resource::Sibur, 2),
        (Resource::Mendiane, 2),
        (Resource::Phiras, 2),
        (Resource::Thystame, 1),
    ] {
        w.map.tile_mut(2, 2).add(r, n);
    }
    assert_eq!(Command::Incantation.execute(&mut w, ids[0]), "Elevation underway\nCurrent level: 8");
    assert!(ids.iter().all(|id| w.players[id].level == 8));
    assert_eq!(w.take_outbox(), vec![(Target::AllGui, "seg red".to_string())]);
    assert_eq!(w.map.tile(2, 2).count(Resource::Thystame), 0);
}
