use puker::dungeon::{BlockTag, Dungeon, RoomState, RoomTag};
use puker::player::Player;
use puker::scenes::{block_contact, entry_tile, Contact};
use puker::utils::ActorState;

/// Walks the player through the first open door of the room at `at`; gives
/// the slot of the room behind it and the tile on which the player stands there.
fn walk_through_a_door(dungeon: &Dungeon, at: (usize, usize)) -> ((usize, usize), (usize, usize)) {
    let room = dungeon.get_room(at).unwrap().unwrap();
    for index in room.doors.iter() {
        let block = room.obstacles[*index];
        if let Contact::Enter { connects_to, dir } = block_contact(block.tag, true, false) {
            return (connects_to, entry_tile(dir, (block.tile / 15, block.tile % 15)));
        }
    }
    panic!("the room at {:?} has no open door", at);
}

#[test]
fn a_level_plays_from_the_start_to_a_won_room() {
    let mut dungeon = Dungeon::generate_dungeon(1).unwrap();
    let rooms = dungeon.get_grid().iter().flatten().filter(|slot| slot.is_some()).count();
    assert!(rooms == 7 || rooms == 8);

    // the player stands in the start room
    let start = Dungeon::get_start_room_coords();
    dungeon.update_rooms_state(start).unwrap();
    assert_eq!(dungeon.get_room(start).unwrap().unwrap().state, RoomState::Discovered);

    // and walks on, room by room, until a mob room is entered
    let mut player = Player::default();
    let mut current = start;
    let mut visited = vec![start];
    let mut frontier = vec![start];
    let mut mob_room = None;
    while let Some(at) = frontier.pop() {
        let room = dungeon.get_room(at).unwrap().unwrap();
        if room.tag == RoomTag::Mob {
            mob_room = Some(at);
            current = at;
            break;
        }
        for index in room.doors.iter() {
            if let BlockTag::Door { connects_to, .. } = room.obstacles[*index].tag {
                if !visited.contains(&connects_to) {
                    visited.push(connects_to);
                    frontier.push(connects_to);
                }
            }
        }
    }

    let (next, tile) = walk_through_a_door(&dungeon, start);
    assert_eq!((next.0 as i32 - start.0 as i32).abs() + (next.1 as i32 - start.1 as i32).abs(), 1);
    assert!(tile.0 == 1 || tile.0 == 7 || tile.1 == 1 || tile.1 == 13);
    assert_eq!(dungeon.get_room(next).unwrap().unwrap().state, RoomState::Discovered);
    dungeon.update_rooms_state(next).unwrap();
    for slot in [(next.0 + 1, next.1), (next.0.wrapping_sub(1), next.1), (next.0, next.1 + 1), (next.0, next.1.wrapping_sub(1))] {
        if let Ok(Some(room)) = dungeon.get_room(slot) {
            assert_eq!(room.state, RoomState::Discovered);
        }
    }

    let Some(at) = mob_room else { return };
    assert_eq!(current, at);
    dungeon.update_rooms_state(at).unwrap();
    let room = dungeon.get_room_mut(at).unwrap().unwrap();
    let report = room.update(&mut player, &vec![]);
    assert!(!report.doors_opened);
    assert!(room.doors.iter().all(|d| matches!(room.obstacles[*d].tag, BlockTag::Door { is_open: false, .. })));

    for enemy in room.enemies.iter_mut() {
        enemy.damage();
        enemy.update(false, true);
        assert_eq!(enemy.state, ActorState::Dead);
    }
    let report = room.update(&mut player, &vec![]);
    assert!(report.doors_opened);
    assert_eq!(room.tag, RoomTag::Empty);
    assert_eq!(room.state, RoomState::Cleared);
    assert!(room.enemies.is_empty());
    assert!(room.doors.iter().all(|d| matches!(room.obstacles[*d].tag, BlockTag::Door { is_open: true, .. })));
    assert_eq!(room.drops.len(), if report.drop_spawned { 1 } else { 0 });
    assert_eq!(dungeon.get_room(at).unwrap().unwrap().tag, RoomTag::Empty);
}
