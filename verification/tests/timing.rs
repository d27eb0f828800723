use zappy::scheduler::{Event, Scheduler};

#[test]
fn empty_scheduler_has_no_timeout() {
    let mut s = Scheduler::new();
    assert_eq!(s.next_timeout(), None);
    assert_eq!(s.timeout_at(5), None);
    assert_eq!(s.pop_due(u128::MAX), None);
}

#[test]
fn earliest_event_comes_out_first() {
    let mut s = Scheduler::new();
    s.schedule_at(300, Event::Starve { player: 3 });
    s.schedule_at(100, Event::Starve { player: 1 });
    s.schedule_at(200, Event::Starve { player: 2 });
    assert_eq!(s.timeout_at(40), Some(60));
    assert_eq!(s.timeout_at(150), Some(0));
    assert_eq!(s.pop_due(99), None);
    assert_eq!(s.pop_due(250), Some(Event::Starve { player: 1 }));
    assert_eq!(s.pop_due(250), Some(Event::Starve { player: 2 }));
    assert_eq!(s.pop_due(250), None);
    assert_eq!(s.pop_due(300), Some(Event::Starve { player: 3 }));
    assert_eq!(s.pop_due(u128::MAX), None);
}

#[test]
fn equal_deadlines_keep_their_order() {
    let mut s = Scheduler::new();
    s.schedule_at(10, Event::RespawnResources);
    s.schedule_at(10, Event::ActionDone { player: 4, command_id: 1 });
    s.schedule_at(5, Event::IncantationDone { tile: (1, 2), level: 3 });
    s.schedule_at(10, Event::Starve { player: 4 });
    assert_eq!(s.pop_due(10), Some(Event::IncantationDone { tile: (1, 2), level: 3 }));
    assert_eq!(s.pop_due(10), Some(Event::RespawnResources));
    assert_eq!(s.pop_due(10), Some(Event::ActionDone { player: 4, command_id: 1 }));
    assert_eq!(s.pop_due(10), Some(Event::Starve { player: 4 }));
}

#[test]
fn action_delay_is_cost_over_frequency() {
    let mut s = Scheduler::new();
    // 7 units at f = 100: 70 ms.
    s.schedule_after(1_000, 7, 100, Event::RespawnResources);
    assert_eq!(s.entries[0].0, 1_000 + 70_000_000);
    // 1 unit at f = 3: a third of a second, rounded down.
    s.schedule_after(0, 1, 3, Event::RespawnResources);
    assert_eq!(s.entries[1].0, 333_333_333);
    // the deadline saturates instead of overflowing
    s.schedule_after(u128::MAX - 1, 300, 1, Event::RespawnResources);
    assert_eq!(s.entries[2].0, u128::MAX);
}

#[test]
fn scheduled_from_now_is_not_yet_due() {
    let mut s = Scheduler::new();
    s.schedule_units(126, 1, Event::Starve { player: 1 });
    let t = s.next_timeout().unwrap();
    assert!(t > 120_000_000_000 && t <= 126_000_000_000);
    assert_eq!(s.pop_due(s.now()), None);
}
