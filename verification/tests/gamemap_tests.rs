use field_of_vision::{
    create_horizontal_tunnel, create_room, create_vertical_tunnel, GameMap, Position, Rect, Tile,
    VisionMap,
};

fn walled_map(width: i32, height: i32) -> GameMap {
    let size = (width * height) as usize;
    GameMap {
        width,
        height,
        tiles: vec![Tile::wall(); size],
        explored_tiles: vec![false; size],
        blocked: vec![false; size],
        player_fov: vec![],
        depth: 1,
    }
}

#[test]
fn position_new_and_set() {
    let mut p = Position::new(3, 4);
    assert_eq!(p.x, 3);
    assert_eq!(p.y, 4);
    p.set_position(&Position::new(-1, 7));
    assert_eq!(p.x, -1);
    assert_eq!(p.y, 7);
}

#[test]
fn tile_constructors() {
    let empty = Tile::empty();
    assert!(!empty.blocking);
    assert!(!empty.block_sight);
    let wall = Tile::wall();
    assert!(wall.blocking);
    assert!(wall.block_sight);
}

#[test]
fn rect_center_and_intersection() {
    let a = Rect::new(2, 3, 4, 6);
    assert_eq!(a.center(), (4, 6));
    let b = Rect::new(5, 8, 4, 4);
    let c = Rect::new(20, 20, 2, 2);
    assert!(a.intersects_with(&b));
    assert!(!a.intersects_with(&c));
}

#[test]
fn carving_opens_tiles() {
    let mut map = walled_map(20, 12);
    let room = Rect::new(2, 2, 6, 5);
    create_room(&room, &mut map);
    assert!(map.is_transparent(3, 3));
    assert!(map.is_transparent(7, 6));
    assert!(!map.is_transparent(2, 2));
    assert!(!map.is_transparent(8, 3));

    create_horizontal_tunnel(7, 15, 4, &mut map);
    assert!(map.is_transparent(15, 4));
    create_vertical_tunnel(4, 9, 15, &mut map);
    assert!(map.is_transparent(15, 9));
}

#[test]
fn blocked_bookkeeping() {
    let mut map = walled_map(8, 8);
    let p = Position::new(3, 2);
    assert!(!map.is_blocked(p));
    map.set_blocked(p, true);
    assert!(map.is_blocked(p));
    assert_eq!(map.index(p), 3 + 2 * 8);
    // Out-of-range positions fold to the first cell.
    assert_eq!(map.index(Position::new(-2, 5)), 0);
    assert!(map.is_in_bounds(0, 0));
    assert!(!map.is_in_bounds(8, 0));
}

#[test]
fn player_fov_on_game_map() {
    let mut map = walled_map(20, 12);
    let room = Rect::new(2, 2, 8, 8);
    create_room(&room, &mut map);
    map.calculate_player_fov(5, 5, 3);
    assert!(map.is_in_player_fov(5, 5));
    assert!(map.is_in_player_fov(5, 7));
    assert!(!map.is_in_player_fov(15, 5));
}
