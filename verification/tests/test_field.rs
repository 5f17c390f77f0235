use puker::consts::ROOM_LAYOUT_START;
use puker::dungeon::{Room, RoomTag};

fn open_room() -> Room {
    let mut room = Room::from_layout(ROOM_LAYOUT_START, (3, 5), [None, None, None, None], RoomTag::Start, 1);
    room.grid = [[0; 15]; 9];
    room
}

#[test]
fn field_counts_down_from_the_target() {
    let room = open_room();
    let field = room.get_target_distance_grid((4, 7));
    for i in 0..9usize {
        for j in 0..15usize {
            let steps = (i as i32 - 4).abs() + (j as i32 - 7).abs();
            assert_eq!(field[i][j], i32::MAX - steps);
        }
    }
}

#[test]
fn field_goes_round_walls() {
    let mut room = open_room();
    for i in 0..8 {
        room.grid[i][3] = i32::MIN;
    }
    let field = room.get_target_distance_grid((0, 0));
    assert_eq!(field[0][0], i32::MAX);
    assert_eq!(field[0][2], i32::MAX - 2);
    assert_eq!(field[0][3], i32::MIN);
    assert_eq!(field[8][3], i32::MAX - 11);
    assert_eq!(field[0][4], i32::MAX - 20);
    assert_eq!(field[7][4], i32::MAX - 13);
}

#[test]
fn walled_in_tiles_keep_their_zero() {
    let mut room = open_room();
    room.grid[0][1] = i32::MIN;
    room.grid[1][0] = i32::MIN;
    let field = room.get_target_distance_grid((4, 7));
    assert_eq!(field[0][0], 0);
    assert_eq!(field[0][1], i32::MIN);
    assert_eq!(field[1][1], i32::MAX - 9);
}

#[test]
fn blocked_target_is_seeded_all_the_same() {
    let mut room = open_room();
    room.grid[4][7] = i32::MIN;
    let field = room.get_target_distance_grid((4, 7));
    assert_eq!(field[4][7], i32::MAX);
    assert_eq!(field[4][6], i32::MAX - 1);
    assert_eq!(field[3][7], i32::MAX - 1);
}

#[test]
fn target_outside_the_room_leaves_the_grid() {
    let room = Room::from_layout(ROOM_LAYOUT_START, (3, 5), [None, None, None, None], RoomTag::Start, 1);
    assert_eq!(room.get_target_distance_grid((9, 0)), room.grid);
    assert_eq!(room.get_target_distance_grid((0, 15)), room.grid);
    assert_eq!(room.get_target_distance_grid((usize::MAX, usize::MAX)), room.grid);
}

#[test]
fn field_of_the_start_room_leaves_the_walls_alone() {
    let room = Room::from_layout(ROOM_LAYOUT_START, (3, 5), [None, None, None, None], RoomTag::Start, 1);
    let field = room.get_target_distance_grid((4, 7));
    assert_eq!(field[0][0], i32::MIN);
    assert_eq!(field[4][0], i32::MIN);
    assert_eq!(field[1][1], i32::MAX - 9);
    assert_eq!(field[7][13], i32::MAX - 9);
    assert_eq!(field[4][7], i32::MAX);
}

#[test]
fn climbing_from_any_free_tile_ends_on_the_target() {
    let room = Room::from_layout(ROOM_LAYOUT_START, (3, 5), [None, None, None, None], RoomTag::Start, 1);
    let target = (2, 11);
    let field = room.get_target_distance_grid(target);
    for si in 1..8usize {
        for sj in 1..14usize {
            let (mut i, mut j) = (si, sj);
            let mut steps = 0;
            loop {
                if field[i + 1][j] > field[i][j] { i += 1; steps += 1; continue }
                if field[i - 1][j] > field[i][j] { i -= 1; steps += 1; continue }
                if field[i][j + 1] > field[i][j] { j += 1; steps += 1; continue }
                if field[i][j - 1] > field[i][j] { j -= 1; steps += 1; continue }
                break
            }
            assert_eq!((i, j), target);
            assert_eq!(steps, i32::MAX - field[si][sj]);
        }
    }
}
