use puker::consts::{DEFAULT_SCREEN_HEIGHT_PX, DEFAULT_SCREEN_WIDTH_PX, ROOM_HEIGHT, ROOM_WIDTH};
use puker::dungeon::{Dungeon, RoomState, RoomTag};

const SCREEN: (f32, f32) = (DEFAULT_SCREEN_WIDTH_PX as f32, DEFAULT_SCREEN_HEIGHT_PX as f32);

/// The tile under a point of the screen, as (row, column).
fn tile_under(x: f32, y: f32) -> (usize, usize) {
    (
        (y / SCREEN.1 * (ROOM_HEIGHT as f32)).floor() as usize,
        (x / SCREEN.0 * (ROOM_WIDTH as f32)).floor() as usize,
    )
}

#[test]
fn test_dungeon_consistency_checker() {
    let grid_bad = [[0, 0, 0, 0, 0, 0, 0, 0, 0],
                    [0, 0, 0, 0, 0, 0, 0, 0, 0],
                    [0, 0, 0, 0, 0, 0, 0, 0, 0],
                    [0, 0, 0, 0, 3, 1, 2, 0, 0],
                    [0, 0, 0, 0, 4, 0, 0, 0, 0],
                    [0, 0, 0, 0, 0, 0, 0, 0, 0],
                    [0, 0, 0, 0, 0, 0, 0, 0, 0],
                    [0, 0, 0, 0, 0, 0, 0, 0, 0],];

    let grid_good = [[0, 0, 0, 0, 0, 0, 0, 0, 0],
                     [0, 0, 0, 0, 0, 0, 0, 0, 0],
                     [0, 0, 0, 0, 0, 5, 0, 0, 0],
                     [0, 0, 0, 0, 3, 1, 2, 0, 0],
                     [0, 0, 0, 0, 4, 0, 6, 7, 0],
                     [0, 0, 0, 0, 0, 0, 0, 0, 0],
                     [0, 0, 0, 0, 0, 0, 0, 0, 0],
                     [0, 0, 0, 0, 0, 0, 0, 0, 0],];

    assert!(!Dungeon::check_dungeon_consistency(&grid_bad, 7));
    assert!(Dungeon::check_dungeon_consistency(&grid_good, 7));
}

#[test]
fn test_dungeon_generation_test() {
    for i in 1..5 {
        let dungeon = Dungeon::generate_dungeon(i).unwrap();
        let mut rooms_count: i32 = 0;
        let mut specials_count: i32 = 0;

        for r in dungeon.get_grid() {
            for c in r {
                match c {
                    Some(room) => {
                        rooms_count += 1;
                        match room.tag {
                            RoomTag::Boss | RoomTag::Item => specials_count += 1,
                            _ => (),
                        }
                    }
                    None => (),
                }
            }
        }

        assert!(rooms_count - 5 + i as i32 * 2 >= 0);
        assert_eq!(2, specials_count);
    }
}

#[test]
fn test_dungeon_room_retrieval() {
    let mut dungeon = Dungeon::generate_dungeon(1).unwrap();
    let start_room = Dungeon::get_start_room_coords();

    assert!(matches!(dungeon.get_room(start_room).unwrap(), Some(_)));
    assert!(matches!(dungeon.get_room_mut(start_room).unwrap(), Some(_)));
    assert!(matches!(dungeon.get_room((0, 0)).unwrap(), None));
}

#[test]
fn test_dungeon_state_update() {
    let mut dungeon = Dungeon::generate_dungeon(1).unwrap();
    let (i, j) = Dungeon::get_start_room_coords();

    dungeon.update_rooms_state((i, j)).unwrap();

    if let Some(r) = dungeon.get_room((i - 1, j)).unwrap() { assert_eq!(RoomState::Discovered, r.state); }
    if let Some(r) = dungeon.get_room((i + 1, j)).unwrap() { assert_eq!(RoomState::Discovered, r.state); }
    if let Some(r) = dungeon.get_room((i, j - 1)).unwrap() { assert_eq!(RoomState::Discovered, r.state); }
    if let Some(r) = dungeon.get_room((i, j + 1)).unwrap() { assert_eq!(RoomState::Discovered, r.state); }
}

#[test]
fn test_room_target_distance_grid() {
    let dungeon = Dungeon::generate_dungeon(1).unwrap();
    let grid = dungeon.get_room((3, 5)).unwrap().unwrap().get_target_distance_grid(tile_under(SCREEN.0 / 2., SCREEN.1 / 2.));

    let (mut i, mut j) = (1, 1);

    loop {
        if grid[i + 1][j] > grid[i][j] { i += 1; continue }
        if grid[i - 1][j] > grid[i][j] { i -= 1; continue }
        if grid[i][j + 1] > grid[i][j] { j += 1; continue }
        if grid[i][j - 1] > grid[i][j] { j -= 1; continue }
        break
    }

    assert_eq!((4, 7), (i, j));
}
