use zappy::game::player::{Orientation, Player, SoundDir};

#[test]
fn fresh_player_inventory_string() {
    let p = Player::new(1, 0, 0, 0, Orientation::North);
    assert_eq!(
        p.inventory_string(),
        "[food 10, linemate 0, deraumere 0, sibur 0, mendiane 0, phiras 0, thystame 0]"
    );
}

#[test]
fn orientation_song_roundtrip() {
    for o in [Orientation::North, Orientation::East, Orientation::South, Orientation::West] {
        assert_eq!(o.to_song().to_orientation(), Some(o));
    }
    assert_eq!(SoundDir::NorthWest.to_orientation(), None);
    assert_eq!(Orientation::East.to_song().number(), 7); // PDF trig numbering
}

#[test]
fn sound_dir_same_tile_is_zero() {
    assert_eq!(Orientation::North.sound_dir((0, 0)), 0);
    assert_eq!(Orientation::East.sound_dir((0, 0)), 0);
}

#[test]
fn sound_dir_eight_neighbours_facing_north() {
    // (dx, dy) world offset (x East, y South) -> K, receiver facing North.
    let cases = [
        ((0, -1), 1u8), // ahead
        ((-1, -1), 2),  // front-left
        ((-1, 0), 3),   // left
        ((-1, 1), 4),   // back-left
        ((0, 1), 5),    // behind
        ((1, 1), 6),    // back-right
        ((1, 0), 7),    // right
        ((1, -1), 8),   // front-right
    ];
    for (offset, k) in cases {
        assert_eq!(Orientation::North.sound_dir(offset), k, "offset {offset:?}");
    }
}

#[test]
fn sound_dir_rotates_with_facing() {
    // A source directly East in the world is "ahead" for an East-facing
    // drone and "behind" for a West-facing one.
    assert_eq!(Orientation::East.sound_dir((1, 0)), 1);
    assert_eq!(Orientation::West.sound_dir((1, 0)), 5);
    // Far-field still quantises to the nearest of the 8 tiles.
    assert_eq!(Orientation::North.sound_dir((5, -1)), 7);
}
