use puker::consts::{ROOM_LAYOUTS_BOSS, ROOM_LAYOUTS_MOB, ROOM_LAYOUT_START};
use puker::dungeon::{BlockTag, DoorConnects, Room, RoomState, RoomTag};
use puker::items::{Collectable, CollectableState, CollectableTag, Item, ItemActive, ItemTag};
use puker::player::Player;
use puker::room::{drop_tag, prune, remove_positions, set_open};
use puker::shots::{Shot, ShotTag};
use puker::utils::{ActorState, Direction};

const TWO_DOORS: DoorConnects = [Some(((2, 5), Direction::North)), None, None, Some(((4, 5), Direction::South))];

fn door_is_open(room: &Room, at: usize) -> bool {
    match room.obstacles[at].tag {
        BlockTag::Door { is_open, .. } => is_open,
        BlockTag::Hatch(is_open) => is_open,
        other => panic!("no door: {:?}", other),
    }
}

fn healer() -> Player {
    let mut player = Player::default();
    player.item = Some(Item { tag: ItemTag::Active(ItemActive::Heal(100)), cooldown: 3 });
    player
}

#[test]
fn pruning_keeps_the_order_and_reports_positions() {
    let mut items = vec![10, 11, 12, 13, 14];
    let removed = prune(&mut items, &vec![false, true, false, true, true]);
    assert_eq!(items, vec![10, 12]);
    assert_eq!(removed, vec![1, 3, 4]);

    let mut items = vec![1, 2, 3];
    assert_eq!(prune(&mut items, &vec![true]), vec![0]);
    assert_eq!(items, vec![2, 3]);

    let mut items = vec![1, 2];
    assert_eq!(prune(&mut items, &vec![false, false, true, true]), Vec::<usize>::new());
    assert_eq!(items, vec![1, 2]);

    let mut items: Vec<u8> = Vec::new();
    assert!(prune(&mut items, &vec![]).is_empty());
}

#[test]
fn doors_shut_while_enemies_live() {
    let mut room = Room::from_layout(ROOM_LAYOUTS_MOB[0], (3, 5), TWO_DOORS, RoomTag::Mob, 1);
    let mut player = healer();
    assert_eq!(room.doors.len(), 2);
    assert!(door_is_open(&room, room.doors[0]));

    let report = room.update(&mut player, &vec![]);
    assert!(report.doors_closed);
    assert!(!report.doors_opened);
    assert!(!report.drop_spawned);
    assert!(report.dead_enemies.is_empty());
    assert!(!door_is_open(&room, room.doors[0]));
    assert!(!door_is_open(&room, room.doors[1]));
    assert_eq!(room.tag, RoomTag::Mob);
    assert_eq!(room.state, RoomState::Undiscovered);
    assert_eq!(player.item.unwrap().cooldown, 3);

    let report = room.update(&mut player, &vec![]);
    assert!(!report.doors_closed);
    assert!(!door_is_open(&room, room.doors[0]));
}

#[test]
fn winning_a_mob_room_opens_it() {
    let mut room = Room::from_layout(ROOM_LAYOUTS_MOB[0], (3, 5), TWO_DOORS, RoomTag::Mob, 1);
    let mut player = healer();
    room.update(&mut player, &vec![]);
    room.enemies[1].state = ActorState::Dead;
    room.enemies[3].state = ActorState::Dead;

    let report = room.update(&mut player, &vec![]);
    assert_eq!(report.dead_enemies, vec![1, 3]);
    assert_eq!(room.enemies.iter().map(|e| e.tile).collect::<Vec<_>>(), vec![16, 106]);
    assert_eq!(room.tag, RoomTag::Mob);
    assert!(!door_is_open(&room, room.doors[0]));

    for enemy in room.enemies.iter_mut() {
        enemy.state = ActorState::Dead;
    }
    let report = room.update(&mut player, &vec![]);
    assert_eq!(report.dead_enemies, vec![0, 1]);
    assert!(room.enemies.is_empty());
    assert!(report.doors_opened);
    assert!(!report.doors_closed);
    assert_eq!(room.tag, RoomTag::Empty);
    assert_eq!(room.state, RoomState::Cleared);
    assert!(door_is_open(&room, room.doors[0]));
    assert!(door_is_open(&room, room.doors[1]));
    assert_eq!(player.item.unwrap().cooldown, 2);
    assert_eq!(room.drops.len(), if report.drop_spawned { 1 } else { 0 });
    if report.drop_spawned {
        assert_eq!(room.drops[0].tile, (4, 7));
        assert_eq!(room.drops[0].state, CollectableState::Base);
    }

    let report = room.update(&mut player, &vec![]);
    assert!(!report.doors_opened);
    assert!(!report.drop_spawned);
    assert_eq!(player.item.unwrap().cooldown, 2);
    assert_eq!(room.tag, RoomTag::Empty);
}

#[test]
fn winning_the_boss_room_opens_the_hatch() {
    let mut room = Room::from_layout(ROOM_LAYOUTS_BOSS[0], (1, 5), TWO_DOORS, RoomTag::Boss, 1);
    let mut player = Player::default();
    room.update(&mut player, &vec![]);
    let hatch = room.obstacles.iter().position(|o| matches!(o.tag, BlockTag::Hatch(_))).unwrap();
    assert_eq!(room.obstacles[hatch].tag, BlockTag::Hatch(false));
    room.enemies[0].state = ActorState::Dead;
    let report = room.update(&mut player, &vec![]);
    assert!(report.doors_opened);
    assert_eq!(room.obstacles[hatch].tag, BlockTag::Hatch(true));
    assert_eq!(room.tag, RoomTag::Empty);
    assert_eq!(player.item, None);
}

#[test]
fn room_without_enemies_is_cleared_as_it_is() {
    let mut room = Room::from_layout(ROOM_LAYOUT_START, (3, 5), TWO_DOORS, RoomTag::Start, 1);
    let mut player = healer();
    let before = room.obstacles.clone();
    let report = room.update(&mut player, &vec![]);
    assert!(!report.doors_opened && !report.doors_closed && !report.drop_spawned);
    assert_eq!(room.state, RoomState::Cleared);
    assert_eq!(room.tag, RoomTag::Start);
    assert_eq!(room.obstacles, before);
    assert!(room.drops.is_empty());
    assert_eq!(player.item.unwrap().cooldown, 3);
}

#[test]
fn spent_shots_and_consumed_drops_leave_the_room() {
    let mut room = Room::from_layout(ROOM_LAYOUT_START, (3, 5), TWO_DOORS, RoomTag::Start, 1);
    let mut player = Player::default();
    room.shots = vec![Shot { tag: ShotTag::Player }, Shot { tag: ShotTag::Enemy }, Shot { tag: ShotTag::Player }];
    room.drops = vec![
        Collectable { tile: (1, 1), tag: CollectableTag::RedHeart(50), state: CollectableState::Consumed },
        Collectable { tile: (2, 2), tag: CollectableTag::SpeedBoost(130), state: CollectableState::Base },
    ];
    let report = room.update(&mut player, &vec![true, false, true]);
    assert_eq!(report.dead_shots, vec![0, 2]);
    assert_eq!(report.dead_drops, vec![0]);
    assert_eq!(room.shots, vec![Shot { tag: ShotTag::Enemy }]);
    assert_eq!(room.drops.len(), 1);
    assert_eq!(room.drops[0].tile, (2, 2));
}

#[test]
fn drop_appears_on_the_free_tile_nearest_to_the_middle() {
    let room = Room::from_layout(ROOM_LAYOUTS_MOB[0], (3, 5), TWO_DOORS, RoomTag::Mob, 1);
    assert_eq!(room.nearest_free_tile(), (4, 7));

    let room = Room::from_layout(ROOM_LAYOUTS_MOB[1], (3, 5), TWO_DOORS, RoomTag::Mob, 1);
    assert_eq!(room.nearest_free_tile(), (4, 6));

    let mut room = Room::from_layout(ROOM_LAYOUT_START, (3, 5), TWO_DOORS, RoomTag::Start, 1);
    room.grid = [[i32::MIN; 15]; 9];
    assert_eq!(room.nearest_free_tile(), (4, 7));
    room.grid[0][0] = 0;
    assert_eq!(room.nearest_free_tile(), (0, 0));
    room.grid[8][14] = 0;
    assert_eq!(room.nearest_free_tile(), (0, 0));
    room.grid[8][13] = 0;
    assert_eq!(room.nearest_free_tile(), (8, 13));
    room.grid[3][7] = 0;
    room.grid[4][8] = 0;
    room.grid[5][7] = 0;
    assert_eq!(room.nearest_free_tile(), (3, 7));
    room.grid[3][7] = 7;
    assert_eq!(room.nearest_free_tile(), (5, 7));
    room.grid[4][6] = 0;
    assert_eq!(room.nearest_free_tile(), (4, 6));
}

#[test]
fn drops_appear_about_four_times_in_five() {
    let mut seen = 0;
    for _ in 0..400 {
        let mut room = Room::from_layout(ROOM_LAYOUTS_MOB[1], (3, 5), TWO_DOORS, RoomTag::Mob, 1);
        if room.generate_collectable() {
            seen += 1;
            assert_eq!(room.drops.len(), 1);
            assert_eq!(room.drops[0].state, CollectableState::Base);
            assert_eq!(room.drops[0].tile, (4, 6));
            let known = [
                CollectableTag::RedHeart(50),
                CollectableTag::RedHeart(100),
                CollectableTag::SpeedBoost(130),
                CollectableTag::DamageBoost(150),
                CollectableTag::ShootRateBoost(130),
            ];
            assert!(known.contains(&room.drops[0].tag));
        } else {
            assert!(room.drops.is_empty());
        }
    }
    assert!(seen > 240 && seen < 390);
}

#[test]
fn drop_kinds_follow_the_drawn_number() {
    assert_eq!(drop_tag(0, false), CollectableTag::RedHeart(50));
    assert_eq!(drop_tag(50, true), CollectableTag::RedHeart(100));
    assert_eq!(drop_tag(51, true), CollectableTag::SpeedBoost(130));
    assert_eq!(drop_tag(65, false), CollectableTag::SpeedBoost(130));
    assert_eq!(drop_tag(66, false), CollectableTag::DamageBoost(150));
    assert_eq!(drop_tag(80, false), CollectableTag::DamageBoost(150));
    assert_eq!(drop_tag(81, false), CollectableTag::ShootRateBoost(130));
    assert_eq!(drop_tag(100, true), CollectableTag::ShootRateBoost(130));
}

#[test]
fn only_doors_and_hatches_open() {
    let door = BlockTag::Door { dir: Direction::West, is_open: false, connects_to: (3, 4) };
    assert_eq!(set_open(door, true), BlockTag::Door { dir: Direction::West, is_open: true, connects_to: (3, 4) });
    assert_eq!(set_open(set_open(door, true), false), door);
    assert_eq!(set_open(BlockTag::Hatch(false), true), BlockTag::Hatch(true));
    assert_eq!(set_open(BlockTag::Wall, true), BlockTag::Wall);
    assert_eq!(set_open(BlockTag::Pedestal(None), false), BlockTag::Pedestal(None));
}

#[test]
fn stray_door_entries_are_passed_over() {
    let mut room = Room::from_layout(ROOM_LAYOUT_START, (3, 5), TWO_DOORS, RoomTag::Start, 1);
    room.doors = vec![7, 7, 0, 4000];
    assert!(room.set_doors(false));
    assert!(!door_is_open(&room, 7));
    assert_eq!(room.obstacles[0].tag, BlockTag::Wall);
    assert!(!room.set_doors(true));
    assert!(door_is_open(&room, 7));
}

#[test]
fn removing_reported_positions_keeps_two_lists_in_step() {
    let flags = vec![true, false, false, true, true, false];
    let mut names = vec!["a", "b", "c", "d", "e", "f"];
    let mut sizes = vec![1, 2, 3, 4, 5, 6];
    let removed = prune(&mut names, &flags);
    remove_positions(&mut sizes, &removed);
    assert_eq!(names, vec!["b", "c", "f"]);
    assert_eq!(sizes, vec![2, 3, 6]);

    let mut sizes = vec![1, 2, 3];
    remove_positions(&mut sizes, &vec![2, 2, 7, 0]);
    assert_eq!(sizes, vec![2]);
    remove_positions(&mut sizes, &vec![]);
    assert_eq!(sizes, vec![2]);
}

#[test]
fn the_draws_decide_the_drop() {
    let mut room = Room::from_layout(ROOM_LAYOUTS_MOB[1], (3, 5), TWO_DOORS, RoomTag::Mob, 1);
    let obstacles = room.obstacles.clone();

    assert!(!room.spawn_collectable(false, 60, true));
    assert!(room.drops.is_empty());

    assert!(room.spawn_collectable(true, 60, true));
    assert!(room.spawn_collectable(true, 50, true));
    assert!(room.spawn_collectable(true, 0, false));
    assert!(room.spawn_collectable(true, 80, false));
    assert!(room.spawn_collectable(true, 81, false));
    assert!(!room.spawn_collectable(false, 0, false));
    let tile = (4, 6);
    assert_eq!(
        room.drops,
        vec![
            Collectable { tile, tag: CollectableTag::SpeedBoost(130), state: CollectableState::Base },
            Collectable { tile, tag: CollectableTag::RedHeart(100), state: CollectableState::Base },
            Collectable { tile, tag: CollectableTag::RedHeart(50), state: CollectableState::Base },
            Collectable { tile, tag: CollectableTag::DamageBoost(150), state: CollectableState::Base },
            Collectable { tile, tag: CollectableTag::ShootRateBoost(130), state: CollectableState::Base },
        ]
    );
    assert_eq!(room.obstacles, obstacles);
    assert_eq!(room.tag, RoomTag::Mob);
    assert_eq!(room.enemies.len(), 4);
}
