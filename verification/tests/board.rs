use zappy::game::map::{ring_delta, Resource, Tile, TileMap};

#[test]
fn resource_names_round_trip() {
    let all = [
        Resource::Food,
        Resource::Linemate,
        Resource::Deraumere,
        Resource::Sibur,
        Resource::Mendiane,
        Resource::Phiras,
        Resource::Thystame,
    ];
    for (i, r) in all.iter().enumerate() {
        assert_eq!(Resource::from_name(r.name()), Some(*r));
        assert_eq!(r.index(), i);
        assert_eq!(Resource::from_index(i), *r);
    }
    assert_eq!(Resource::Thystame.name(), "thystame");
    assert_eq!(Resource::from_name("gold"), None);
    assert_eq!(Resource::from_name("Food"), None);
}

#[test]
fn tile_counts_move() {
    let mut t = Tile::default();
    assert_eq!(t.count(Resource::Sibur), 0);
    assert!(!t.take_one(Resource::Sibur));
    t.add(Resource::Sibur, 3);
    assert!(t.take_one(Resource::Sibur));
    assert_eq!(t.count(Resource::Sibur), 2);
    t.take(Resource::Sibur, 2);
    assert_eq!(t.count(Resource::Sibur), 0);
    assert_eq!(t.count(Resource::Food), 0);
}

#[test]
fn board_wraps_around() {
    let m = TileMap::new(5, 4);
    assert_eq!(m.wrap(-1, 0), (4, 0));
    assert_eq!(m.wrap(5, -1), (0, 3));
    assert_eq!(m.wrap(-11, 9), (4, 1));
}

#[test]
fn shortest_offsets_take_the_short_way() {
    assert_eq!(ring_delta(0, 4, 5), -1);
    assert_eq!(ring_delta(4, 0, 5), 1);
    assert_eq!(ring_delta(0, 2, 4), 2);
    assert_eq!(ring_delta(0, 3, 4), -1);
    assert_eq!(ring_delta(3, 3, 4), 0);
    let m = TileMap::new(10, 6);
    assert_eq!(m.shortest_offset((1, 1), (9, 4)), (-2, 3));
    assert_eq!(m.shortest_offset((9, 5), (0, 0)), (1, 1));
}

#[test]
fn totals_add_up_over_tiles() {
    let mut m = TileMap::new(3, 3);
    m.tile_mut(0, 0).add(Resource::Food, 2);
    m.tile_mut(2, 1).add(Resource::Food, 5);
    m.tile_mut(2, 2).add(Resource::Phiras, 1);
    assert_eq!(m.total(Resource::Food), 7);
    assert_eq!(m.total(Resource::Phiras), 1);
    assert_eq!(m.tile(2, 1).count(Resource::Food), 5);
}
