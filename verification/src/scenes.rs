use vstd::prelude::*;
use crate::consts::{ROOM_HEIGHT, ROOM_WIDTH};
use crate::dungeon::BlockTag;
use crate::enemies::EnemyTag;
use crate::items::{CollectableTag, Item, ItemPassive, ItemTag};
use crate::graph::as_cell;
use crate::shots::ShotTag;
use crate::utils::{ActorState, Direction, State};

verus! {

/// The keys and buttons that are held down in a tick. `mouse_aim` is the
/// direction from the player to the pointer while the left button is down.
#[derive(Clone, Copy, Debug, PartialEq, Eq)]
pub struct Keys {
    pub up: bool,
    pub down: bool,
    pub left: bool,
    pub right: bool,
    pub aim_up: bool,
    pub aim_down: bool,
    pub aim_left: bool,
    pub aim_right: bool,
    pub mouse_aim: Option<Direction>,
    pub use_item: bool,
}

/// What the player wants in a tick. The movement is a step of -1, 0 or 1
/// along each axis of the screen, the second axis pointing down. `shot` is
/// the direction of the shot that is asked for, `forward` the direction the
/// player faces at the end of the tick.
#[derive(Clone, Copy, Debug, PartialEq, Eq)]
pub struct Intent {
    pub move_x: i32,
    pub move_y: i32,
    pub shot: Option<Direction>,
    pub forward: Option<Direction>,
    pub use_item: bool,
}

/// The first aim that is held down, in the order in which they are read:
/// up, down, left, right, pointer.
pub open spec fn first_aim(keys: Keys) -> Option<Direction> {
    if keys.aim_up {
        Some(Direction::North)
    } else if keys.aim_down {
        Some(Direction::South)
    } else if keys.aim_left {
        Some(Direction::West)
    } else if keys.aim_right {
        Some(Direction::East)
    } else {
        keys.mouse_aim
    }
}

/// The last aim that is held down, in the same order.
pub open spec fn last_aim(keys: Keys) -> Option<Direction> {
    if keys.mouse_aim is Some {
        keys.mouse_aim
    } else if keys.aim_right {
        Some(Direction::East)
    } else if keys.aim_left {
        Some(Direction::West)
    } else if keys.aim_down {
        Some(Direction::South)
    } else if keys.aim_up {
        Some(Direction::North)
    } else {
        None
    }
}

/// The step along an axis that two opposite keys ask for: they cancel where
/// both are held down.
pub open spec fn axis(forth: bool, back: bool) -> i32 {
    if forth == back {
        0i32
    } else if forth {
        1i32
    } else {
        (-1i32) as i32
    }
}

/// What the keys of a tick ask for. The four movement keys add up; of the
/// aims the first one is the direction of the shot, since it is the one
/// that fires, and the last one is where the player faces.
pub open spec fn decoded(keys: Keys) -> Intent {
    Intent {
        move_x: axis(keys.right, keys.left),
        move_y: axis(keys.down, keys.up),
        shot: first_aim(keys),
        forward: last_aim(keys),
        use_item: keys.use_item,
    }
}

/// Reads the keys of a tick.
pub fn decode_input(keys: Keys) -> (intent: Intent)
    ensures
        intent == decoded(keys),
{
    let move_x: i32 = if keys.right == keys.left {
        0
    } else if keys.right {
        1
    } else {
        -1
    };
    let move_y: i32 = if keys.down == keys.up {
        0
    } else if keys.down {
        1
    } else {
        -1
    };
    let shot = if keys.aim_up {
        Some(Direction::North)
    } else if keys.aim_down {
        Some(Direction::South)
    } else if keys.aim_left {
        Some(Direction::West)
    } else if keys.aim_right {
        Some(Direction::East)
    } else {
        keys.mouse_aim
    };
    let forward = if keys.mouse_aim.is_some() {
        keys.mouse_aim
    } else if keys.aim_right {
        Some(Direction::East)
    } else if keys.aim_left {
        Some(Direction::West)
    } else if keys.aim_down {
        Some(Direction::South)
    } else if keys.aim_up {
        Some(Direction::North)
    } else {
        None
    };
    Intent { move_x, move_y, shot, forward, use_item: keys.use_item }
}

/// What touching an obstacle does to the player.
#[derive(Clone, Copy, Debug, PartialEq, Eq)]
pub enum Contact {
    /// Nothing.
    Pass,
    /// The player is pushed back out of the obstacle.
    PushBack,
    /// The player walks through the door into the room at `connects_to`.
    Enter { connects_to: (usize, usize), dir: Direction },
    /// The spikes hurt.
    Hurt,
    /// The player drops to the next level.
    Descend,
    /// The player takes what the pedestal holds, and is pushed back.
    Take,
}

/// What touching an obstacle of kind `tag` does. An open door lets the
/// player through once the player is near its middle (`near`); a closed
/// door, a wall, a stone, a closed hatch and an empty pedestal push back;
/// spikes hurt while the player stands on them (`inside`); an open hatch
/// leads down; a pedestal with an item gives it.
pub open spec fn contact_of(tag: BlockTag, near: bool, inside: bool) -> Contact {
    match tag {
        BlockTag::Door { dir, is_open, connects_to } => if !is_open {
            Contact::PushBack
        } else if near {
            Contact::Enter { connects_to, dir }
        } else {
            Contact::Pass
        },
        BlockTag::Wall => Contact::PushBack,
        BlockTag::Stone => Contact::PushBack,
        BlockTag::Spikes => if inside {
            Contact::Hurt
        } else {
            Contact::Pass
        },
        BlockTag::Hatch(is_open) => if is_open {
            Contact::Descend
        } else {
            Contact::PushBack
        },
        BlockTag::Pedestal(Some(_)) => Contact::Take,
        BlockTag::Pedestal(None) => Contact::PushBack,
    }
}

/// What touching an obstacle does to the player.
pub fn block_contact(tag: BlockTag, near: bool, inside: bool) -> (contact: Contact)
    ensures
        contact == contact_of(tag, near, inside),
{
    match tag {
        BlockTag::Door { dir, is_open, connects_to } => {
            if !is_open {
                Contact::PushBack
            } else if near {
                Contact::Enter { connects_to, dir }
            } else {
                Contact::Pass
            }
        },
        BlockTag::Wall => Contact::PushBack,
        BlockTag::Stone => Contact::PushBack,
        BlockTag::Spikes => {
            if inside {
                Contact::Hurt
            } else {
                Contact::Pass
            }
        },
        BlockTag::Hatch(is_open) => {
            if is_open {
                Contact::Descend
            } else {
                Contact::PushBack
            }
        },
        BlockTag::Pedestal(Some(_)) => Contact::Take,
        BlockTag::Pedestal(None) => Contact::PushBack,
    }
}

/// What a pedestal and the player's hand hold after the player took the
/// item `item` from the pedestal, and the effect that a passive item has
/// at once: a passive item is used up, an active one changes place with
/// what the hand held.
pub open spec fn taken(item: Item, hand: Option<Item>) -> (Option<Item>, Option<Item>, Option<
    ItemPassive,
>) {
    match item.tag {
        ItemTag::Passive(effect) => (None, hand, Some(effect)),
        ItemTag::Active(_) => (hand, Some(item), None),
    }
}

/// The player takes the item from a pedestal: gives what the pedestal holds
/// afterwards, what the hand holds, and the effect to apply at once.
pub fn take_item(item: Item, hand: Option<Item>) -> (r: (Option<Item>, Option<Item>, Option<
    ItemPassive,
>))
    ensures
        r == taken(item, hand),
{
    match item.tag {
        ItemTag::Passive(effect) => (None, hand, Some(effect)),
        ItemTag::Active(_) => (hand, Some(item), None),
    }
}

/// Enemies and drops are pushed out of every obstacle but a hatch.
pub fn blocks_actors(tag: BlockTag) -> (blocks: bool)
    ensures
        blocks == !(tag is Hatch),
{
    match tag {
        BlockTag::Hatch(_) => false,
        _ => true,
    }
}

/// Shots end on every obstacle but hatches and spikes.
pub fn stops_shots(tag: BlockTag) -> (stops: bool)
    ensures
        stops == !(tag is Hatch || tag is Spikes),
{
    match tag {
        BlockTag::Hatch(_) => false,
        BlockTag::Spikes => false,
        _ => true,
    }
}

/// The tile on which the player stands after walking through a door: in the
/// next room, on the side across from the way the player went, one tile in
/// from the wall where the door stood in a wall. `door` is the tile of the
/// door that was taken, as (row, column).
pub open spec fn entry_tile_of(dir: Direction, door: (usize, usize)) -> (int, int) {
    match dir {
        Direction::North => (
            if door.0 <= 7 {
                7 - door.0
            } else {
                0
            },
            door.1 as int,
        ),
        Direction::South => (
            if door.0 <= 9 {
                9 - door.0
            } else {
                0
            },
            door.1 as int,
        ),
        Direction::West => (
            door.0 as int,
            if door.1 <= 13 {
                13 - door.1
            } else {
                0
            },
        ),
        Direction::East => (
            door.0 as int,
            if door.1 <= 15 {
                15 - door.1
            } else {
                0
            },
        ),
    }
}

/// The tile on which the player stands after walking through a door.
pub fn entry_tile(dir: Direction, door: (usize, usize)) -> (tile: (usize, usize))
    ensures
        as_cell(tile) == entry_tile_of(dir, door),
{
    let (di, dj) = door;
    match dir {
        Direction::North => (
            if di <= ROOM_HEIGHT - 2 {
                ROOM_HEIGHT - 2 - di
            } else {
                0
            },
            dj,
        ),
        Direction::South => (
            if di <= ROOM_HEIGHT {
                ROOM_HEIGHT - di
            } else {
                0
            },
            dj,
        ),
        Direction::West => (
            di,
            if dj <= ROOM_WIDTH - 2 {
                ROOM_WIDTH - 2 - dj
            } else {
                0
            },
        ),
        Direction::East => (
            di,
            if dj <= ROOM_WIDTH {
                ROOM_WIDTH - dj
            } else {
                0
            },
        ),
    }
}

/// What becomes of a shot in a tick.
#[derive(Clone, Copy, Debug, PartialEq, Eq)]
pub enum ShotFate {
    /// It flies on.
    Flies,
    /// It hits the enemy at this position of the room's list, hurts it, pushes it, and ends.
    HitsEnemy(usize),
    /// It hits the player, hurts, and ends.
    HitsPlayer,
    /// It ends on an obstacle.
    HitsObstacle,
}

/// What becomes of a shot. A shot of the player hits the first enemy it
/// touches; a shot of an enemy hits the player if it touches the player;
/// a shot that hit no one ends on an obstacle that stops shots, if it
/// touches one.
pub open spec fn fate_of(
    tag: ShotTag,
    enemy_touched: Option<usize>,
    player_touched: bool,
    obstacle_touched: bool,
) -> ShotFate {
    if tag == ShotTag::Player && enemy_touched is Some {
        ShotFate::HitsEnemy(enemy_touched->0)
    } else if tag == ShotTag::Enemy && player_touched {
        ShotFate::HitsPlayer
    } else if obstacle_touched {
        ShotFate::HitsObstacle
    } else {
        ShotFate::Flies
    }
}

/// What becomes of a shot in a tick.
pub fn shot_fate(
    tag: ShotTag,
    enemy_touched: Option<usize>,
    player_touched: bool,
    obstacle_touched: bool,
) -> (fate: ShotFate)
    ensures
        fate == fate_of(tag, enemy_touched, player_touched, obstacle_touched),
        (fate is Flies) == !(obstacle_touched || (tag == ShotTag::Player && enemy_touched is Some)
            || (tag == ShotTag::Enemy && player_touched)),
{
    match tag {
        ShotTag::Player => {
            match enemy_touched {
                Some(k) => {
                    return ShotFate::HitsEnemy(k);
                },
                None => {},
            }
        },
        ShotTag::Enemy => {
            if player_touched {
                return ShotFate::HitsPlayer;
            }
        },
    }
    if obstacle_touched {
        ShotFate::HitsObstacle
    } else {
        ShotFate::Flies
    }
}

/// A sound that the game asks for.
#[derive(Clone, Copy, Debug, PartialEq, Eq, Structural)]
pub enum Cue {
    BubblePop,
    DoorOpen,
    DoorClose,
    EnemyDeath,
    BossDeath,
    PlayerDeath,
    PlayerDamaged,
    Heal,
    PowerUp,
    Wow,
}

/// The sound of an enemy's death: a boss has its own.
pub fn death_cue(tag: EnemyTag) -> (cue: Cue)
    ensures
        cue == if tag == EnemyTag::Boss {
            Cue::BossDeath
        } else {
            Cue::EnemyDeath
        },
{
    match tag {
        EnemyTag::Boss => Cue::BossDeath,
        _ => Cue::EnemyDeath,
    }
}

/// The sound of a drop being picked up: a heart heals, everything else is a power-up.
pub fn pickup_cue(tag: CollectableTag) -> (cue: Cue)
    ensures
        cue == if tag is RedHeart {
            Cue::Heal
        } else {
            Cue::PowerUp
        },
{
    match tag {
        CollectableTag::RedHeart(_) => Cue::Heal,
        _ => Cue::PowerUp,
    }
}

/// The scene after a tick of play: the death scene once the player is dead.
pub fn scene_after_tick(current: State, player: ActorState) -> (next: State)
    ensures
        next == if player == ActorState::Dead {
            State::Dead
        } else {
            current
        },
{
    match player {
        ActorState::Dead => State::Dead,
        _ => current,
    }
}

} // verus!
