use vstd::prelude::*;
use crate::consts::{DUNGEON_GRID_COLS, DUNGEON_GRID_ROWS, ITEM_COOLDOWN};
use crate::dungeon::{Dungeon, RoomState};
use crate::graph::Cell;
use crate::items::Item;
use crate::plan::in_plan;
use crate::utils::{change_scene, State};

verus! {

/// What an element of the interface is for.
#[derive(Debug, Clone, Copy, PartialEq, Eq, Structural)]
pub enum UIElementTag {
    Blank,
    WindowMode,
    Volume,
    State,
    Text,
}

/// What a button does when it is pressed: nothing, a change of scene (back
/// to the last one where no scene is named), or a step of the volume up or
/// down.
#[derive(Debug, Clone, Copy, PartialEq, Eq, Structural)]
pub enum ButtonAction {
    Blank,
    ChangeState(Option<State>),
    ChangeVolume(i8),
}

/// What the map shows of the slot `c`: the state of the room that stands
/// there, and an empty slot like an undiscovered room.
pub open spec fn shown_state(dungeon: Dungeon, c: Cell) -> RoomState {
    match dungeon.room_at(c) {
        Some(room) => room.state,
        None => RoomState::Undiscovered,
    }
}

/// The states that the map shows, one row for each row of the dungeon grid.
pub fn minimap_states(dungeon: &Dungeon) -> (states: Vec<Vec<RoomState>>)
    ensures
        states@.len() == 8,
        forall|i: int| 0 <= i < 8 ==> (#[trigger] states@[i])@.len() == 9,
        forall|i: int, j: int|
            0 <= i < 8 && 0 <= j < 9 ==> #[trigger] states@[i]@[j] == shown_state(*dungeon, (i, j)),
{
    let grid = dungeon.get_grid();
    let mut states: Vec<Vec<RoomState>> = Vec::new();
    let mut i: usize = 0;
    while i < DUNGEON_GRID_ROWS
        invariant
            0 <= i <= 8,
            *grid == dungeon.slots(),
            states@.len() == i,
            forall|a: int| 0 <= a < i ==> (#[trigger] states@[a])@.len() == 9,
            forall|a: int, b: int|
                0 <= a < i && 0 <= b < 9 ==> #[trigger] states@[a]@[b] == shown_state(
                    *dungeon,
                    (a, b),
                ),
        decreases 8 - i,
    {
        let mut row: Vec<RoomState> = Vec::new();
        let mut j: usize = 0;
        while j < DUNGEON_GRID_COLS
            invariant
                0 <= i < 8,
                0 <= j <= 9,
                *grid == dungeon.slots(),
                row@.len() == j,
                forall|b: int| 0 <= b < j ==> #[trigger] row@[b] == shown_state(*dungeon, (i as int, b)),
            decreases 9 - j,
        {
            let shown = match &grid[i][j] {
                Some(room) => room.state,
                None => RoomState::Undiscovered,
            };
            proof {
                assert(in_plan((i as int, j as int)));
            }
            row.push(shown);
            j += 1;
        }
        states.push(row);
        i += 1;
    }
    states
}

/// How far the item in hand is charged, from 0 to `ITEM_COOLDOWN`: the rooms
/// of its wait that are already cleared. An empty hand shows no charge.
pub fn item_charge(item: Option<Item>) -> (charge: u32)
    ensures
        charge == match item {
            Some(held) => if held.cooldown <= ITEM_COOLDOWN {
                (ITEM_COOLDOWN - held.cooldown) as u32
            } else {
                0
            },
            None => 0,
        },
{
    match item {
        Some(held) => {
            if held.cooldown <= ITEM_COOLDOWN {
                ITEM_COOLDOWN - held.cooldown
            } else {
                0
            }
        },
        None => 0,
    }
}

/// What pressing a button does to the pair of the current and the last
/// scene, and by how many steps it moves the volume.
pub fn press_button(action: ButtonAction, current: State, previous: State) -> (r: (
    State,
    State,
    i8,
))
    ensures
        r == match action {
            ButtonAction::Blank => (current, previous, 0i8),
            ButtonAction::ChangeState(Some(next)) => (next, current, 0i8),
            ButtonAction::ChangeState(None) => (previous, current, 0i8),
            ButtonAction::ChangeVolume(steps) => (current, previous, steps),
        },
{
    match action {
        ButtonAction::Blank => (current, previous, 0),
        ButtonAction::ChangeState(next) => {
            let (now, last) = change_scene(current, previous, next);
            (now, last, 0)
        },
        ButtonAction::ChangeVolume(steps) => (current, previous, steps),
    }
}

} // verus!
