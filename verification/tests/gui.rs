use zappy::game::gui::{init_feed, GuiEvent, GuiParse, GuiRequest};
use zappy::game::world::World;

fn names(list: &[&str]) -> Vec<String> {
    list.iter().map(|s| s.to_string()).collect()
}

#[test]
fn map_size_encodes() {
    let w = World::new(5, 7, &names(&["t1"]), 0);
    assert_eq!(GuiEvent::MapSize.encode(&w), Some("msz 5 7".to_string()));
}

#[test]
fn tile_bounds_checked() {
    let w = World::new(4, 3, &names(&["t1"]), 0);
    assert!(GuiEvent::Tile(0, 0).encode(&w).unwrap().starts_with("bct 0 0 "));
    assert_eq!(GuiEvent::Tile(4, 0).encode(&w), None);
    assert_eq!(GuiEvent::Tile(0, 3).encode(&w), None);
}

#[test]
fn unknown_player_encodes_none() {
    let w = World::new(3, 3, &names(&["t1"]), 0);
    assert_eq!(GuiEvent::Moved(999).encode(&w), None);
    assert_eq!(GuiEvent::NewPlayer(999).encode(&w), None);
    assert_eq!(GuiEvent::Inventory(999).encode(&w), None);
}

#[test]
fn player_events_match_spawn_state() {
    let mut w = World::new(3, 3, &names(&["t1"]), 1);
    let (id, _) = w.add_player("t1").expect("a free slot");
    let pnw = GuiEvent::NewPlayer(id).encode(&w).unwrap();
    let ppo = GuiEvent::Moved(id).encode(&w).unwrap();
    let pnw_tokens: Vec<&str> = pnw.split_whitespace().collect();
    let ppo_tokens: Vec<&str> = ppo.split_whitespace().collect();
    assert_eq!(pnw_tokens.len(), 7); // pnw #id X Y O L N
    assert_eq!(ppo_tokens.len(), 5); // ppo #id X Y O
    assert_eq!(&pnw_tokens[1..5], &ppo_tokens[1..5]); // id/X/Y/O agree
    assert_eq!(pnw_tokens[5], "1"); // level
    assert_eq!(pnw_tokens[6], "t1"); // team
    assert_eq!(GuiEvent::LevelChanged(id).encode(&w), Some(format!("plv #{id} 1")));
    assert!(GuiEvent::Inventory(id).encode(&w).unwrap().ends_with("10 0 0 0 0 0 0"));
}

#[test]
fn constant_events_format() {
    let w = World::new(3, 3, &names(&["t1"]), 0);
    assert_eq!(GuiEvent::Forked(2).encode(&w).unwrap(), "pfk #2");
    assert_eq!(
        GuiEvent::EggLaid { egg: 9, player: 2, x: 1, y: 4 }.encode(&w).unwrap(),
        "enw #9 #2 1 4"
    );
    assert_eq!(GuiEvent::PlayerDied(3).encode(&w).unwrap(), "pdi #3");
    assert_eq!(GuiEvent::Collected { player: 1, res: 0 }.encode(&w).unwrap(), "pgt #1 0");
    assert_eq!(
        GuiEvent::Broadcast { player: 1, msg: "hi there".to_string() }.encode(&w).unwrap(),
        "pbc #1 hi there"
    );
    assert_eq!(
        GuiEvent::IncantationStart { x: 2, y: 3, level: 1, participants: vec![1, 4] }
            .encode(&w)
            .unwrap(),
        "pic 2 3 1 #1 #4"
    );
    assert_eq!(GuiEvent::GameWon("t1".to_string()).encode(&w).unwrap(), "seg t1");
}

#[test]
fn requests_parse_to_variants() {
    assert!(matches!(GuiRequest::parse("msz"), Ok(GuiRequest::MapSize)));
    assert!(matches!(GuiRequest::parse("bct 1 2"), Ok(GuiRequest::Tile(1, 2))));
    assert!(matches!(GuiRequest::parse("ppo #7"), Ok(GuiRequest::PlayerPos(7))));
    assert!(matches!(GuiRequest::parse("sst 50"), Ok(GuiRequest::TimeSet(50))));
    assert!(matches!(GuiRequest::parse("sst 0"), Err(GuiParse::BadParam)));
    assert!(matches!(GuiRequest::parse("bct 1"), Err(GuiParse::BadParam)));
    assert!(matches!(GuiRequest::parse("ppo nope"), Err(GuiParse::BadParam)));
    assert!(matches!(GuiRequest::parse("wat"), Err(GuiParse::Unknown)));
}

#[test]
fn requests_resolve_replies() {
    let w = World::new(5, 5, &names(&["t1"]), 0);
    let mut f = 100;
    assert_eq!(GuiRequest::MapContent.resolve(&w, &mut f).len(), 25);
    assert_eq!(GuiRequest::TeamNames.resolve(&w, &mut f), vec!["tna t1"]);
    assert_eq!(GuiRequest::TimeGet.resolve(&w, &mut f), vec!["sgt 100"]);
    assert_eq!(GuiRequest::TimeSet(50).resolve(&w, &mut f), vec!["sst 50"]);
    assert_eq!(f, 50);
    assert_eq!(GuiRequest::Tile(99, 0).resolve(&w, &mut f), vec!["sbp"]);
}

#[test]
fn init_feed_has_size_time_tiles_teams() {
    let w = World::new(4, 4, &names(&["t1", "t2"]), 0);
    let feed = init_feed(&w, 100);
    assert_eq!(feed[0], "msz 4 4");
    assert_eq!(feed[1], "sgt 100");
    assert_eq!(feed.iter().filter(|l| l.starts_with("bct ")).count(), 16);
    assert_eq!(feed.iter().filter(|l| l.starts_with("tna ")).count(), 2);
}

#[test]
fn requests_read_back_as_written() {
    assert!(matches!(GuiRequest::parse("bct 0 18446744073709551615"), Ok(GuiRequest::Tile(0, usize::MAX))));
    assert!(matches!(GuiRequest::parse("plv #5"), Ok(GuiRequest::PlayerLevel(5))));
    assert!(matches!(GuiRequest::parse("pin #4294967295"), Ok(GuiRequest::PlayerInv(u32::MAX))));
    assert!(matches!(GuiRequest::parse("pin #4294967296"), Err(GuiParse::BadParam)));
    assert!(matches!(GuiRequest::parse("sst 7"), Ok(GuiRequest::TimeSet(7))));
    assert!(matches!(GuiRequest::parse("  mct  extra"), Ok(GuiRequest::MapContent)));
    assert!(matches!(GuiRequest::parse("tna"), Ok(GuiRequest::TeamNames)));
    assert!(matches!(GuiRequest::parse("sgt"), Ok(GuiRequest::TimeGet)));
    assert!(matches!(GuiRequest::parse(""), Err(GuiParse::Unknown)));
}
