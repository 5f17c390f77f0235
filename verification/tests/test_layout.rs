use puker::consts::{ROOM_LAYOUTS_BOSS, ROOM_LAYOUTS_EMPTY, ROOM_LAYOUTS_ITEM, ROOM_LAYOUTS_MOB, ROOM_LAYOUT_START};
use puker::dungeon::{BlockTag, DoorConnects, Room, RoomState, RoomTag};
use puker::enemies::EnemyTag;
use puker::items::{ItemActive, ItemPassive, ItemTag};
use puker::layout::{enemy_damage, flatten_layout, pick_layout, pool_item};
use puker::utils::{ActorState, Direction};

const NO_DOORS: DoorConnects = [None, None, None, None];

#[test]
fn every_layout_flattens_to_a_room_of_tiles() {
    let mut layouts = vec![ROOM_LAYOUT_START];
    layouts.extend(ROOM_LAYOUTS_ITEM);
    layouts.extend(ROOM_LAYOUTS_EMPTY);
    layouts.extend(ROOM_LAYOUTS_MOB);
    layouts.extend(ROOM_LAYOUTS_BOSS);
    assert_eq!(layouts.len(), 14);
    for layout in layouts {
        let flat = flatten_layout(layout);
        assert_eq!(flat.len(), 135);
        assert_eq!(&flat[0..15], b"#######d#######");
        assert_eq!(&flat[120..135], b"#######d#######");
        assert_eq!(flat.iter().filter(|b| **b == b'd').count(), 4);
        let expected: String = layout.trim().split('\n').map(|l| l.trim()).collect();
        assert_eq!(flat, expected.as_bytes());
    }
}

#[test]
fn flattening_trims_each_line_and_keeps_inner_blanks() {
    assert_eq!(flatten_layout(""), b"");
    assert_eq!(flatten_layout("\n\n"), b"");
    assert_eq!(flatten_layout("  # #  \n\t.v\r\n"), b"# #.v");
    assert_eq!(flatten_layout("d"), b"d");
    assert_eq!(flatten_layout("   \n a \n   "), b"a");
}

#[test]
fn door_without_a_neighbour_is_a_wall() {
    let flat = flatten_layout(ROOM_LAYOUT_START);
    let connects: DoorConnects = [Some(((2, 5), Direction::North)), None, Some(((3, 6), Direction::East)), None];
    let (obstacles, enemies, doors, grid) = Room::parse_layout(&flat, &connects, 1);

    assert_eq!(obstacles.len(), 44);
    assert!(enemies.is_empty());
    assert_eq!(doors, vec![7, 22]);
    assert_eq!(obstacles[7].tile, 7);
    assert_eq!(obstacles[7].tag, BlockTag::Door { dir: Direction::North, is_open: true, connects_to: (2, 5) });
    assert_eq!(obstacles[21].tile, 60);
    assert_eq!(obstacles[21].tag, BlockTag::Wall);
    assert_eq!(obstacles[22].tile, 74);
    assert_eq!(obstacles[22].tag, BlockTag::Door { dir: Direction::East, is_open: true, connects_to: (3, 6) });
    assert_eq!(obstacles[36].tile, 127);
    assert_eq!(obstacles[36].tag, BlockTag::Wall);
    assert_eq!(grid[0][0], i32::MIN);
    assert_eq!(grid[0][7], i32::MIN);
    assert_eq!(grid[4][0], i32::MIN);
    assert_eq!(grid[4][14], i32::MIN);
    assert_eq!(grid[1][1], 0);
    assert_eq!(grid[4][7], 0);
    assert_eq!(grid.iter().flatten().filter(|v| **v != 0).count(), 44);
}

#[test]
fn room_without_neighbours_has_no_door() {
    let flat = flatten_layout(ROOM_LAYOUT_START);
    let (obstacles, _, doors, _) = Room::parse_layout(&flat, &NO_DOORS, 1);
    assert!(doors.is_empty());
    assert!(obstacles.iter().all(|o| o.tag == BlockTag::Wall));
}

#[test]
fn doors_take_their_connections_in_reading_order() {
    let connects: DoorConnects = [
        Some(((2, 5), Direction::North)),
        Some(((3, 4), Direction::West)),
        Some(((3, 6), Direction::East)),
        Some(((4, 5), Direction::South)),
    ];
    let (obstacles, _, doors, _) = Room::parse_layout(b"d d#dd d", &connects, 1);
    assert_eq!(obstacles.len(), 6);
    assert_eq!(doors, vec![0, 1, 3, 4]);
    assert_eq!(obstacles[0].tag, BlockTag::Door { dir: Direction::North, is_open: true, connects_to: (2, 5) });
    assert_eq!(obstacles[1].tag, BlockTag::Door { dir: Direction::West, is_open: true, connects_to: (3, 4) });
    assert_eq!(obstacles[2].tag, BlockTag::Wall);
    assert_eq!(obstacles[3].tag, BlockTag::Door { dir: Direction::East, is_open: true, connects_to: (3, 6) });
    assert_eq!(obstacles[4].tag, BlockTag::Door { dir: Direction::South, is_open: true, connects_to: (4, 5) });
    assert_eq!(obstacles[5].tile, 7);
    assert_eq!(obstacles[5].tag, BlockTag::Wall);
}

#[test]
fn spikes_hurt_but_do_not_block() {
    let flat = flatten_layout(ROOM_LAYOUTS_ITEM[0]);
    let (obstacles, _, doors, grid) = Room::parse_layout(&flat, &NO_DOORS, 1);
    assert!(doors.is_empty());
    let spikes: Vec<usize> = obstacles.iter().filter(|o| o.tag == BlockTag::Spikes).map(|o| o.tile).collect();
    assert_eq!(spikes, vec![16, 28, 37, 65, 69, 97, 106, 118]);
    for tile in spikes {
        assert_eq!(grid[tile / 15][tile % 15], 0);
    }
    let pedestal = obstacles.iter().find(|o| o.tile == 67).unwrap();
    match pedestal.tag {
        BlockTag::Pedestal(Some(item)) => {
            assert_eq!(item.cooldown, 0);
            assert!(
                item.tag == ItemTag::Active(ItemActive::Heal(100))
                    || item.tag == ItemTag::Passive(ItemPassive::IncreaseMaxHealth(100))
            );
        }
        other => panic!("the pedestal holds {:?}", other),
    }
    assert_eq!(grid[4][7], i32::MIN);
}

#[test]
fn hatch_is_listed_with_the_doors() {
    let flat = flatten_layout(ROOM_LAYOUTS_BOSS[0]);
    let connects: DoorConnects = [None, None, None, Some(((4, 5), Direction::South))];
    let (obstacles, enemies, doors, grid) = Room::parse_layout(&flat, &connects, 2);
    assert_eq!(doors.len(), 2);
    assert_eq!(obstacles[doors[0]].tile, 37);
    assert_eq!(obstacles[doors[0]].tag, BlockTag::Hatch(false));
    assert_eq!(obstacles[doors[1]].tile, 127);
    assert_eq!(obstacles[doors[1]].tag, BlockTag::Door { dir: Direction::South, is_open: true, connects_to: (4, 5) });
    assert_eq!(grid[2][7], i32::MIN);
    assert_eq!(enemies.len(), 1);
    assert_eq!(enemies[0].tag, EnemyTag::Boss);
    assert_eq!(enemies[0].tile, 67);
    assert_eq!(enemies[0].damage, 300);
    assert_eq!(enemies[0].state, ActorState::Base);
    assert_eq!(grid[4][7], 0);
}

#[test]
fn enemies_stand_where_the_layout_puts_them() {
    let flat = flatten_layout(ROOM_LAYOUTS_MOB[0]);
    let (_, enemies, _, grid) = Room::parse_layout(&flat, &NO_DOORS, 1);
    let tiles: Vec<usize> = enemies.iter().map(|e| e.tile).collect();
    assert_eq!(tiles, vec![16, 28, 106, 118]);
    assert!(enemies.iter().all(|e| e.tag == EnemyTag::Shooter && e.damage == 100 && e.state == ActorState::Base));
    assert_eq!(grid[1][1], 0);

    let flat = flatten_layout(ROOM_LAYOUTS_MOB[3]);
    let (_, enemies, _, _) = Room::parse_layout(&flat, &NO_DOORS, 5);
    let found: Vec<(EnemyTag, usize, u32)> = enemies.iter().map(|e| (e.tag, e.tile, e.damage)).collect();
    assert_eq!(found, vec![(EnemyTag::Chaser, 65, 150), (EnemyTag::Shooter, 67, 150), (EnemyTag::Chaser, 69, 150)]);

    let flat = flatten_layout(ROOM_LAYOUTS_MOB[4]);
    let (_, enemies, _, _) = Room::parse_layout(&flat, &NO_DOORS, 0);
    assert_eq!(enemies.len(), 8);
    assert!(enemies.iter().all(|e| e.tag == EnemyTag::Wanderer && e.damage == 25));
}

#[test]
fn bytes_beyond_the_last_tile_are_not_read() {
    let mut flat = flatten_layout(ROOM_LAYOUT_START);
    flat.extend_from_slice(b"#m#d");
    let (obstacles, enemies, doors, _) = Room::parse_layout(&flat, &NO_DOORS, 1);
    assert_eq!(obstacles.len(), 44);
    assert!(enemies.is_empty());
    assert!(doors.is_empty());
}

#[test]
fn unknown_bytes_leave_the_tile_free() {
    let (obstacles, enemies, doors, grid) = Room::parse_layout(b" x?#", &NO_DOORS, 1);
    assert_eq!(obstacles.len(), 1);
    assert_eq!(obstacles[0].tile, 3);
    assert!(enemies.is_empty());
    assert!(doors.is_empty());
    assert_eq!(grid[0][0], 0);
    assert_eq!(grid[0][3], i32::MIN);
}

#[test]
fn enemy_damage_grows_with_the_level() {
    assert_eq!(enemy_damage(0, EnemyTag::Shooter), 25);
    assert_eq!(enemy_damage(1, EnemyTag::Chaser), 100);
    assert_eq!(enemy_damage(2, EnemyTag::Wanderer), 150);
    assert_eq!(enemy_damage(9, EnemyTag::Shooter), 150);
    assert_eq!(enemy_damage(0, EnemyTag::Boss), 50);
    assert_eq!(enemy_damage(1, EnemyTag::Boss), 200);
    assert_eq!(enemy_damage(2, EnemyTag::Boss), 300);
}

#[test]
fn pools_hold_one_item_each() {
    assert_eq!(pool_item(true, 0).tag, ItemTag::Active(ItemActive::Heal(100)));
    assert_eq!(pool_item(false, 0).tag, ItemTag::Passive(ItemPassive::IncreaseMaxHealth(100)));
    assert_eq!(pool_item(true, 0).cooldown, 0);
    for _ in 0..50 {
        let item = Room::generate_item();
        assert!(item == pool_item(true, 0) || item == pool_item(false, 0));
    }
}

#[test]
fn layouts_are_picked_by_role() {
    assert_eq!(pick_layout(RoomTag::Start, 0), ROOM_LAYOUT_START);
    assert_eq!(pick_layout(RoomTag::Mob, 7), ROOM_LAYOUTS_MOB[7]);
    assert_eq!(pick_layout(RoomTag::Empty, 2), ROOM_LAYOUTS_EMPTY[2]);
    assert_eq!(pick_layout(RoomTag::Boss, 0), ROOM_LAYOUTS_BOSS[0]);
    assert_eq!(pick_layout(RoomTag::Item, 0), ROOM_LAYOUTS_ITEM[0]);
}

#[test]
fn generated_rooms_come_from_the_layouts_of_their_role() {
    for _ in 0..200 {
        let room = Room::generate_room((2, 2), NO_DOORS, RoomTag::Mob, 1);
        assert_eq!(room.tag, RoomTag::Mob);
        assert_eq!(room.state, RoomState::Undiscovered);
        assert_eq!(room.dungeon_coords, (2, 2));
        assert_eq!((room.width, room.height), (15, 9));
        assert!(room.shots.is_empty() && room.drops.is_empty() && room.doors.is_empty());
        assert!(!room.enemies.is_empty());
        let same = ROOM_LAYOUTS_MOB.iter().any(|layout| {
            let (obstacles, enemies, _, grid) = Room::parse_layout(&flatten_layout(layout), &NO_DOORS, 1);
            obstacles == room.obstacles && enemies == room.enemies && grid == room.grid
        });
        assert!(same);
    }
    let room = Room::generate_room((3, 5), NO_DOORS, RoomTag::Start, 1);
    let start = Room::from_layout(ROOM_LAYOUT_START, (3, 5), NO_DOORS, RoomTag::Start, 1);
    assert_eq!(room.obstacles, start.obstacles);
    assert_eq!(room.grid, start.grid);
    assert!(room.enemies.is_empty());
}
