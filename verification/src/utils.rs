use vstd::prelude::*;
use vstd::string::StringSliceAdditionalSpecFns;

verus! {

/// The scene that is shown.
#[derive(Clone, Copy, Hash, Debug, PartialEq, Eq, Structural)]
pub enum State {
    Play,
    MainMenu,
    New,
    PauseMenu,
    Options,
    Quit,
    Dead,
}

/// What a lookup or a generation can fail with.
#[derive(Debug, PartialEq, Eq)]
pub enum Errors {
    UnknownRoomIndex(usize),
    UnknownGridCoords((usize, usize)),
    StateParse(String),
    /// No valid dungeon came out of the allowed number of attempts at this level.
    GenerationFailed(u32),
}

#[derive(Clone, Copy, Hash, Debug, PartialEq, Eq, Structural)]
pub enum Direction {
    North,
    South,
    East,
    West,
}

#[derive(Clone, Copy, Debug, PartialEq, Eq, Structural)]
pub enum ActorState {
    Base,
    Shoot,
    Dead,
    Damaged,
}

#[derive(Clone, Copy, Debug, PartialEq, Eq, Structural)]
pub enum ActorTag {
    Player,
    Enemy,
}

impl Direction {
    /// The row and column steps of one move in this direction.
    pub open spec fn offset(self) -> (int, int) {
        match self {
            Direction::North => (-1, 0),
            Direction::South => (1, 0),
            Direction::East => (0, 1),
            Direction::West => (0, -1),
        }
    }

    /// The direction that undoes this one.
    pub fn opposite(self) -> (r: Direction)
        ensures
            r.offset().0 == -self.offset().0,
            r.offset().1 == -self.offset().1,
    {
        match self {
            Direction::North => Direction::South,
            Direction::South => Direction::North,
            Direction::East => Direction::West,
            Direction::West => Direction::East,
        }
    }
}

/// The scene pair after a change: the new current scene, and the one that was left.
/// With no scene named the previous one comes back.
pub fn change_scene(current: State, previous: State, new_state: Option<State>) -> (r: (State, State))
    ensures
        r.0 == (match new_state {
            Some(s) => s,
            None => previous,
        }),
        r.1 == current,
{
    match new_state {
        Some(s) => (s, current),
        None => (previous, current),
    }
}

/// Whether two byte strings are the same.
pub fn same_bytes(a: &[u8], b: &[u8]) -> (same: bool)
    ensures
        same == (a@ == b@),
{
    if a.len() != b.len() {
        return false;
    }
    let mut k: usize = 0;
    while k < a.len()
        invariant
            0 <= k <= a.len(),
            a.len() == b.len(),
            forall|m: int| 0 <= m < k ==> a[m] == b[m],
        decreases a.len() - k,
    {
        if a[k] != b[k] {
            return false;
        }
        k += 1;
    }
    assert(a@ =~= b@);
    true
}

impl State {
    /// The name of the scene.
    pub open spec fn name_of(self) -> &'static str {
        match self {
            State::Play => "Play",
            State::MainMenu => "MainMenu",
            State::New => "New",
            State::PauseMenu => "PauseMenu",
            State::Options => "Options",
            State::Quit => "Quit",
            State::Dead => "Dead",
        }
    }

    /// The name of the scene.
    pub fn name(self) -> (name: &'static str)
        ensures
            name == self.name_of(),
    {
        match self {
            State::Play => "Play",
            State::MainMenu => "MainMenu",
            State::New => "New",
            State::PauseMenu => "PauseMenu",
            State::Options => "Options",
            State::Quit => "Quit",
            State::Dead => "Dead",
        }
    }

    /// A scene can be asked for by its name; the options scene cannot.
    pub open spec fn is_named(self) -> bool {
        self != State::Options
    }

    /// Reads the name of a scene. The names of all scenes but the options
    /// scene are read; any other text is an error that carries the text.
    pub fn from_str(input: &str) -> (r: Result<State, Errors>)
        ensures
            match r {
                Ok(state) => state.is_named() && input.spec_bytes() == state.name_of().spec_bytes(),
                Err(e) => {
                    &&& e matches Errors::StateParse(text) && text@ == input@
                    &&& forall|state: State|
                        state.is_named() ==> input.spec_bytes() != (
                        #[trigger] state.name_of()).spec_bytes()
                },
            },
    {
        let bytes = input.as_bytes();
        if same_bytes(bytes, State::Play.name().as_bytes()) {
            Ok(State::Play)
        } else if same_bytes(bytes, State::MainMenu.name().as_bytes()) {
            Ok(State::MainMenu)
        } else if same_bytes(bytes, State::New.name().as_bytes()) {
            Ok(State::New)
        } else if same_bytes(bytes, State::PauseMenu.name().as_bytes()) {
            Ok(State::PauseMenu)
        } else if same_bytes(bytes, State::Quit.name().as_bytes()) {
            Ok(State::Quit)
        } else if same_bytes(bytes, State::Dead.name().as_bytes()) {
            Ok(State::Dead)
        } else {
            Err(Errors::StateParse(input.to_owned()))
        }
    }
}

} // verus!
