use puker::dungeon::{Block, BlockTag};
use puker::enemies::{burst_directions, find_path, uphill_direction, Action, ChaseTarget, Enemy, EnemyTag, Senses};
use puker::player::Player;
use puker::shots::{Shot, ShotTag};
use puker::utils::{ActorState, Direction};

const SCREEN: (f32, f32) = (1280., 720.);
const PLAYER_SHOOT_RATE: f32 = 2.5;
const ENEMY_SHOOT_RATE: f32 = 0.5;
const ENEMY_SHOOT_RANGE: f32 = 500.;
const ANIMATION_COOLDOWN: f32 = 0.5;

/// The timers that go with a shooting actor, kept beside the library's state.
struct Timers {
    shoot_rate: f32,
    shoot_timeout: f32,
    animation_cooldown: f32,
}

fn mask(state: ActorState) -> Enemy {
    Enemy { tag: EnemyTag::Shooter, tile: 16, state, damage: 100 }
}

/// Whether the segment from `a` to `b` crosses the box of a wall block that
/// is centred at `block`, one tile wide and high.
fn wall_between(a: (f32, f32), b: (f32, f32), block: (f32, f32)) -> bool {
    let (w, h) = (SCREEN.0 / 15., SCREEN.1 / 9.);
    let (x0, y0, x1, y1) = (block.0 - w / 2., block.1 - h / 2., block.0 + w / 2., block.1 + h / 2.);
    let steps = 1000;
    for k in 0..=steps {
        let t = k as f32 / steps as f32;
        let (x, y) = (a.0 + (b.0 - a.0) * t, a.1 + (b.1 - a.1) * t);
        if x >= x0 && x <= x1 && y >= y0 && y <= y1 {
            return true;
        }
    }
    false
}

#[test]
fn test_player_shoot() {
    let mut player = Player::default();
    let mut timers = Timers { shoot_rate: PLAYER_SHOOT_RATE, shoot_timeout: 0., animation_cooldown: 0. };
    let mut shots = Vec::new();

    if player.shoot(timers.shoot_timeout == 0., &mut shots) {
        timers.animation_cooldown = ANIMATION_COOLDOWN / timers.shoot_rate;
        timers.shoot_timeout = 1. / timers.shoot_rate;
    }

    assert_eq!(timers.shoot_timeout, 1. / timers.shoot_rate);
    assert_eq!(timers.animation_cooldown, ANIMATION_COOLDOWN / timers.shoot_rate);
    assert!(!shots.is_empty());
    assert_eq!(shots[0].tag, ShotTag::Player);
    assert_eq!(player.state, ActorState::Shoot);

    player.shoot(timers.shoot_timeout == 0., &mut shots);

    assert_eq!(shots.len(), 1);
}

#[test]
fn test_enemy_shooter() {
    let player_pos = (SCREEN.0 / 2., SCREEN.1 / 2.);
    let enemy_pos = (player_pos.0 - ENEMY_SHOOT_RANGE / 2., player_pos.1);
    let mut enemy = mask(ActorState::Base);
    let mut timers = Timers { shoot_rate: ENEMY_SHOOT_RATE, shoot_timeout: 0., animation_cooldown: 0. };
    let afterlock_cooldown = 0.;
    let mut shots: Vec<Shot> = Vec::new();
    let distance = ((player_pos.0 - enemy_pos.0).powi(2) + (player_pos.1 - enemy_pos.1).powi(2)).sqrt();
    let in_range = distance <= ENEMY_SHOOT_RANGE * 0.8;

    if enemy.shoot(afterlock_cooldown == 0., timers.shoot_timeout == 0., in_range, false, &mut shots) {
        timers.shoot_timeout = 1. / timers.shoot_rate;
        timers.animation_cooldown = ANIMATION_COOLDOWN / timers.shoot_rate;
    }

    assert_eq!(timers.shoot_timeout, 1. / timers.shoot_rate);
    assert_eq!(timers.animation_cooldown, ANIMATION_COOLDOWN / timers.shoot_rate);
    assert!(!shots.is_empty());
    assert_eq!(shots[0].tag, ShotTag::Enemy);
    assert_eq!(enemy.state, ActorState::Shoot);

    enemy.shoot(afterlock_cooldown == 0., timers.shoot_timeout == 0., in_range, false, &mut shots);

    assert_eq!(shots.len(), 1);

    timers.shoot_timeout = 0.;
    let obst = Block { tile: 0, tag: BlockTag::Wall };
    let obst_pos = (enemy_pos.0 + 100., enemy_pos.1);
    let blocked = matches!(obst.tag, BlockTag::Wall) && wall_between(enemy_pos, player_pos, obst_pos);

    enemy.shoot(afterlock_cooldown == 0., timers.shoot_timeout == 0., in_range, blocked, &mut shots);

    assert_eq!(shots.len(), 1);
}

#[test]
fn shooter_waits_out_its_first_lock() {
    let mut enemy = mask(ActorState::Base);
    let mut shots: Vec<Shot> = Vec::new();
    assert!(!enemy.shoot(false, true, true, false, &mut shots));
    assert!(!enemy.shoot(true, true, false, false, &mut shots));
    assert!(shots.is_empty());
    assert_eq!(enemy.state, ActorState::Base);
}

#[test]
fn damage_overrides_the_shooting_state() {
    let mut enemy = mask(ActorState::Shoot);
    enemy.damage();
    assert_eq!(enemy.state, ActorState::Damaged);
    assert_eq!(enemy.damage, 100);
}

#[test]
fn enemy_states_settle() {
    let mut enemy = mask(ActorState::Damaged);
    assert!(!enemy.update(false, false));
    assert_eq!(enemy.state, ActorState::Damaged);
    assert!(!enemy.update(true, false));
    assert_eq!(enemy.state, ActorState::Base);
    assert!(enemy.update(true, true));
    assert_eq!(enemy.state, ActorState::Dead);
    assert!(enemy.update(false, true));
    assert_eq!(enemy.state, ActorState::Dead);
}

#[test]
fn player_is_safe_while_the_hit_cooldown_runs() {
    let mut player = Player::default();
    assert!(player.damage(true));
    assert_eq!(player.state, ActorState::Damaged);
    assert!(!player.update(true, false));
    assert_eq!(player.state, ActorState::Base);
    assert!(!player.damage(false));
    assert_eq!(player.state, ActorState::Base);
    assert!(player.update(false, true));
    assert_eq!(player.state, ActorState::Dead);
}

#[test]
fn boss_burst_turns_by_quarters() {
    assert_eq!(burst_directions(true), [(1, 0), (0, 1), (-1, 0), (0, -1)]);
    assert_eq!(burst_directions(false), [(1, 1), (-1, 1), (-1, -1), (1, -1)]);
}

#[test]
fn boss_burst_adds_four_shots() {
    let mut boss = Enemy { tag: EnemyTag::Boss, tile: 67, state: ActorState::Base, damage: 200 };
    let mut shots = vec![Shot { tag: ShotTag::Player }];
    assert!(!boss.shoot_burst(true, false, &mut shots));
    assert!(!boss.shoot_burst(false, true, &mut shots));
    assert_eq!(shots.len(), 1);
    assert!(boss.shoot_burst(true, true, &mut shots));
    assert_eq!(shots.len(), 5);
    assert!(shots[1..].iter().all(|s| s.tag == ShotTag::Enemy));
    assert_eq!(boss.state, ActorState::Shoot);
}

#[test]
fn pathfinding_prefers_north_then_west_then_east_then_south() {
    let mut grid = [[0i32; 15]; 9];
    grid[3][3] = 5;
    assert_eq!(find_path(&grid, (3, 3)), None);
    grid[4][3] = 6;
    assert_eq!(find_path(&grid, (3, 3)), Some((4, 3)));
    assert_eq!(uphill_direction(&grid, (3, 3)), Some(Direction::South));
    grid[3][4] = 6;
    assert_eq!(find_path(&grid, (3, 3)), Some((3, 4)));
    grid[3][2] = 9;
    assert_eq!(find_path(&grid, (3, 3)), Some((3, 2)));
    grid[2][3] = 6;
    assert_eq!(find_path(&grid, (3, 3)), Some((2, 3)));
}

#[test]
fn pathfinding_stays_inside_the_room() {
    let mut grid = [[0i32; 15]; 9];
    grid[0][0] = -1;
    assert_eq!(find_path(&grid, (0, 0)), Some((0, 1)));
    grid[8][14] = 3;
    assert_eq!(find_path(&grid, (8, 14)), None);
    assert_eq!(find_path(&grid, (9, 0)), None);
    assert_eq!(find_path(&grid, (0, 15)), None);
}

#[test]
fn chaser_runs_at_what_it_sees() {
    let mut grid = [[0i32; 15]; 9];
    grid[4][8] = 7;
    assert_eq!(Enemy::chase(false, false, &grid, (4, 7)), None);
    assert_eq!(Enemy::chase(true, false, &grid, (4, 7)), Some(ChaseTarget::Player));
    assert_eq!(Enemy::chase(true, true, &grid, (4, 7)), Some(ChaseTarget::Tile((4, 8))));
    assert_eq!(Enemy::chase(true, true, &grid, (1, 1)), Some(ChaseTarget::Stay));
}

#[test]
fn wanderer_keeps_its_heading_until_the_wait_is_over() {
    let mut grid = [[0i32; 15]; 9];
    assert_eq!(Enemy::wander(false, Some(Direction::East), &grid, (4, 7), Direction::North), Some(Direction::East));
    assert_eq!(Enemy::wander(false, None, &grid, (4, 7), Direction::North), None);
    assert_eq!(Enemy::wander(true, Some(Direction::East), &grid, (4, 7), Direction::North), Some(Direction::North));
    grid[4][6] = 1;
    assert_eq!(Enemy::wander(true, Some(Direction::East), &grid, (4, 7), Direction::North), Some(Direction::West));
}

#[test]
fn each_enemy_acts_by_its_behaviour() {
    let keen = Senses { unlocked: true, ready: true, in_range: true, sight_blocked: false, wait_over: true };
    let idle = Action { fired: false, burst: false, chase: None, heading: Some(Direction::East) };
    let mut grid = [[0i32; 15]; 9];
    grid[3][7] = 4;
    let enemy = |tag| Enemy { tag, tile: 67, state: ActorState::Base, damage: 100 };

    let mut shots = Vec::new();
    let mut shooter = enemy(EnemyTag::Shooter);
    let action = shooter.act(keen, Some(Direction::East), &grid, (4, 7), Direction::South, &mut shots);
    assert_eq!(action, Action { fired: true, ..idle });
    assert_eq!(shots.len(), 1);
    assert_eq!(shooter.state, ActorState::Shoot);

    let mut chaser = enemy(EnemyTag::Chaser);
    let action = chaser.act(keen, Some(Direction::East), &grid, (4, 7), Direction::South, &mut shots);
    assert_eq!(action, Action { chase: Some(ChaseTarget::Player), ..idle });
    let blind = Senses { sight_blocked: true, ..keen };
    let action = chaser.act(blind, Some(Direction::East), &grid, (4, 7), Direction::South, &mut shots);
    assert_eq!(action, Action { chase: Some(ChaseTarget::Tile((3, 7))), ..idle });
    assert_eq!(shots.len(), 1);
    assert_eq!(chaser.state, ActorState::Base);

    let mut wanderer = enemy(EnemyTag::Wanderer);
    let action = wanderer.act(keen, Some(Direction::East), &grid, (4, 7), Direction::South, &mut shots);
    assert_eq!(action, Action { heading: Some(Direction::North), ..idle });
    let action = wanderer.act(keen, Some(Direction::East), &grid, (7, 2), Direction::South, &mut shots);
    assert_eq!(action, Action { heading: Some(Direction::South), ..idle });
    let waiting = Senses { wait_over: false, ..keen };
    let action = wanderer.act(waiting, Some(Direction::East), &grid, (4, 7), Direction::South, &mut shots);
    assert_eq!(action, idle);

    let mut boss = enemy(EnemyTag::Boss);
    let action = boss.act(keen, None, &grid, (4, 7), Direction::South, &mut shots);
    assert_eq!(action, Action { fired: false, burst: true, chase: None, heading: Some(Direction::North) });
    assert_eq!(shots.len(), 5);
    assert_eq!(boss.state, ActorState::Shoot);

    let locked = Senses { unlocked: false, ..keen };
    for tag in [EnemyTag::Shooter, EnemyTag::Chaser, EnemyTag::Wanderer, EnemyTag::Boss] {
        let mut sleeper = enemy(tag);
        let action = sleeper.act(locked, Some(Direction::East), &grid, (4, 7), Direction::South, &mut shots);
        assert_eq!(action, idle);
        assert_eq!(sleeper.state, ActorState::Base);
    }
    assert_eq!(shots.len(), 5);
}
