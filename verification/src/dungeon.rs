use vstd::prelude::*;
use vstd::string::StringSliceAdditionalSpecFns;
use crate::consts::{
    DUNGEON_GRID_COLS, DUNGEON_GRID_ROWS, ROOM_HEIGHT, ROOM_WIDTH, START_COL, START_ROW,
};
use crate::enemies::Enemy;
use crate::graph::{as_cell, connected_from, count_set, Cell};
use crate::items::{Collectable, Item};
use crate::chance::gen_ratio;
use crate::layout::{layout_count, layout_of, made_from};
use crate::plan::{
    cardinals, generate_plan, in_plan, min_room_count, neighbour, occupied, plan_cells,
    plan_wf, room_cell, start_cell, step_cell, Admitted, RoomGrid,
};
use crate::shots::Shot;
use crate::utils::{Direction, Errors};

verus! {

/// The role of a room in its level.
#[derive(Debug, Clone, Copy, PartialEq, Eq, Structural)]
pub enum RoomTag {
    Start,
    Empty,
    Mob,
    Boss,
    Item,
}

/// What the player knows of a room.
#[derive(Debug, Clone, Copy, PartialEq, Eq, Structural)]
pub enum RoomState {
    Undiscovered,
    Discovered,
    Cleared,
}

/// The kind of an obstacle. A door leads to the room at `connects_to`.
#[derive(Debug, Copy, Clone, PartialEq, Eq)]
pub enum BlockTag {
    Door { dir: Direction, is_open: bool, connects_to: (usize, usize) },
    Wall,
    Stone,
    Spikes,
    Hatch(bool),
    Pedestal(Option<Item>),
}

/// An obstacle, on the tile with index `tile`, counted row by row.
#[derive(Debug, Clone, Copy, PartialEq, Eq)]
pub struct Block {
    pub tile: usize,
    pub tag: BlockTag,
}

/// One number for each tile of a room: 0 for a free tile, `i32::MIN` for a
/// blocked one, and in a distance field the value of a tile that was reached.
pub type TileGrid = [[i32; ROOM_WIDTH]; ROOM_HEIGHT];

/// For the doors of a room, in the order north, west, east, south: the slot
/// that the door leads to and its direction, where a room stands there.
pub type DoorConnects = [Option<((usize, usize), Direction)>; 4];

/// A room of a level: its role, what the player knows of it, its size in
/// tiles, the grid of its blocked tiles, its slot in the dungeon, and what
/// stands and moves in it. `doors` lists the positions that the room's
/// doors and hatches have among the obstacles.
#[derive(Debug)]
pub struct Room {
    pub tag: RoomTag,
    pub state: RoomState,
    pub width: usize,
    pub height: usize,
    pub grid: TileGrid,
    pub dungeon_coords: (usize, usize),
    pub doors: Vec<usize>,
    pub obstacles: Vec<Block>,
    pub enemies: Vec<Enemy>,
    pub shots: Vec<Shot>,
    pub drops: Vec<Collectable>,
}

/// The rooms of a level, each in its slot of the grid.
pub type RoomSlots = [[Option<Room>; DUNGEON_GRID_COLS]; DUNGEON_GRID_ROWS];

/// A level: its rooms, each in its slot of the grid, and its number.
#[derive(Debug)]
pub struct Dungeon {
    grid: RoomSlots,
    level: u32,
}

/// What a visit does to what the player knows of a room: an undiscovered
/// room becomes discovered, every other state stays.
pub open spec fn discovered(state: RoomState) -> RoomState {
    if state == RoomState::Undiscovered {
        RoomState::Discovered
    } else {
        state
    }
}

/// A room after the player came to it or to a room next to it: only its
/// state can have changed, as `discovered` says.
pub open spec fn room_revealed(before: Room, after: Room) -> bool {
    &&& after.state == discovered(before.state)
    &&& after.tag == before.tag
    &&& after.width == before.width
    &&& after.height == before.height
    &&& after.grid == before.grid
    &&& after.dungeon_coords == before.dungeon_coords
    &&& after.doors == before.doors
    &&& after.obstacles == before.obstacles
    &&& after.enemies == before.enemies
    &&& after.shots == before.shots
    &&& after.drops == before.drops
}

/// The slot `c` is `at` or stands next to it.
pub open spec fn in_sight(at: Cell, c: Cell) -> bool {
    c == at || crate::graph::adjacent(at, c)
}

/// Room `a` of the list is given its role before room `b`: the deeper room
/// first; of two equally deep ones the one with fewer neighbours; of two
/// with as many the one admitted earlier.
pub open spec fn outranks(grid: RoomGrid, rooms: Seq<Admitted>, a: int, b: int) -> bool {
    let depth_a = rooms[a].1;
    let depth_b = rooms[b].1;
    let doors_a = cardinals(grid, room_cell(rooms[a]));
    let doors_b = cardinals(grid, room_cell(rooms[b]));
    depth_a > depth_b || (depth_a == depth_b && (doors_a < doors_b || (doors_a == doors_b && a
        < b)))
}

/// Room `best` comes first among the rooms of the list, the start room and
/// room `skip` left aside.
pub open spec fn leads(grid: RoomGrid, rooms: Seq<Admitted>, best: int, skip: int) -> bool {
    &&& 1 <= best < rooms.len()
    &&& best != skip
    &&& forall|k: int|
        1 <= k < rooms.len() && k != skip && k != best ==> #[trigger] outranks(
            grid,
            rooms,
            best,
            k,
        )
}

/// The role of room `k` of the list: the first room is the start, the rooms
/// `boss` and `item` are what their names say, and each other room is a mob
/// room or an empty one.
pub open spec fn role_fits(tag: RoomTag, k: int, boss: int, item: int) -> bool {
    if k == 0 {
        tag == RoomTag::Start
    } else if k == boss {
        tag == RoomTag::Boss
    } else if k == item {
        tag == RoomTag::Item
    } else {
        tag == RoomTag::Mob || tag == RoomTag::Empty
    }
}

/// Where the door of the room in slot `c` in direction `dir` leads, if a room stands there.
pub open spec fn connect_to(grid: RoomGrid, c: Cell, dir: Direction) -> Option<
    ((usize, usize), Direction),
> {
    let n = step_cell(c, dir);
    if occupied(grid, n) {
        Some(((n.0 as usize, n.1 as usize), dir))
    } else {
        None
    }
}

/// The connections are those of the room in slot `c`, in the order north,
/// west, east, south.
pub open spec fn connects_match(connects: DoorConnects, grid: RoomGrid, c: Cell) -> bool {
    &&& connects[0] == connect_to(grid, c, Direction::North)
    &&& connects[1] == connect_to(grid, c, Direction::West)
    &&& connects[2] == connect_to(grid, c, Direction::East)
    &&& connects[3] == connect_to(grid, c, Direction::South)
}

/// `room` is what generation makes of room `k` of the list: it has the role
/// of its rank and is made from one of the layouts of that role, with doors
/// to the rooms next to it.
pub open spec fn room_built(
    room: Room,
    grid: RoomGrid,
    rooms: Seq<Admitted>,
    k: int,
    boss: int,
    item: int,
    level: u32,
) -> bool {
    &&& role_fits(room.tag, k, boss, item)
    &&& exists|index: int, connects: DoorConnects|
        {
            &&& 0 <= index < layout_count(room.tag)
            &&& connects_match(connects, grid, room_cell(rooms[k]))
            &&& #[trigger] made_from(
                room,
                layout_of(room.tag, index).spec_bytes(),
                rooms[k].0,
                connects,
                room.tag,
                level,
            )
        }
}

/// The slots hold, for the first `done` rooms of the list, what generation
/// makes of them, and nothing else.
pub open spec fn slots_built(
    slots: RoomSlots,
    grid: RoomGrid,
    rooms: Seq<Admitted>,
    done: int,
    boss: int,
    item: int,
    level: u32,
) -> bool {
    forall|c: Cell|
        in_plan(c) ==> match #[trigger] slots[c.0][c.1] {
            Some(room) => occupied(grid, c) && grid[c.0][c.1] <= done && room_built(
                room,
                grid,
                rooms,
                grid[c.0][c.1] - 1,
                boss,
                item,
                level,
            ),
            None => !(occupied(grid, c) && grid[c.0][c.1] <= done),
        }
}


impl Dungeon {
    /// The rooms of the level, each in its slot.
    pub closed spec fn slots(self) -> RoomSlots {
        self.grid
    }

    /// The number of the level.
    pub closed spec fn level_number(self) -> u32 {
        self.level
    }

    /// The room in slot `c`, where one stands there.
    pub open spec fn room_at(self, c: Cell) -> Option<Room> {
        if in_plan(c) {
            self.slots()[c.0][c.1]
        } else {
            None
        }
    }

    /// The slots that hold a room.
    pub open spec fn room_cells(self) -> Set<Cell> {
        Set::new(|c: Cell| self.room_at(c) is Some)
    }

    /// Every room can be walked to from the start slot through rooms.
    pub open spec fn connected(self) -> bool {
        connected_from(self.room_cells(), start_cell())
    }

    /// For each slot, row by row, whether it holds a room.
    pub open spec fn occupancy(self) -> Seq<bool> {
        Seq::new(72, |k: int| self.slots()[k / 9][k % 9] is Some)
    }

    /// How many rooms the level holds.
    pub open spec fn room_count(self) -> nat {
        count_set(self.occupancy(), 72)
    }

    /// Exactly one room of the level has the role `tag`.
    pub open spec fn exactly_one(self, tag: RoomTag) -> bool {
        exists|c: Cell|
            {
                &&& #[trigger] self.room_at(c) is Some
                &&& self.room_at(c)->0.tag == tag
                &&& forall|other: Cell|
                    (#[trigger] self.room_at(other)) is Some && self.room_at(other)->0.tag == tag
                        ==> other == c
            }
    }

    /// The room in a slot of the grid. A slot outside the grid is an error; an
    /// empty slot inside it is not.
    pub fn get_room(&self, dungeon_coords: (usize, usize)) -> (r: Result<Option<&Room>, Errors>)
        ensures
            in_plan(as_cell(dungeon_coords)) <==> r is Ok,
            match r {
                Ok(Some(room)) => self.room_at(as_cell(dungeon_coords)) == Some(*room),
                Ok(None) => self.room_at(as_cell(dungeon_coords)) is None,
                Err(e) => e == Errors::UnknownGridCoords(dungeon_coords),
            },
    {
        if dungeon_coords.0 >= DUNGEON_GRID_ROWS {
            return Err(Errors::UnknownGridCoords(dungeon_coords));
        }
        if dungeon_coords.1 >= DUNGEON_GRID_COLS {
            return Err(Errors::UnknownGridCoords(dungeon_coords));
        }
        Ok(self.grid[dungeon_coords.0][dungeon_coords.1].as_ref())
    }

    /// The room in a slot of the grid, to be changed. A slot outside the grid
    /// is an error. Whatever is done to the room, the level keeps its number
    /// and every other slot, and the slot still holds a room.
    pub fn get_room_mut(&mut self, dungeon_coords: (usize, usize)) -> (r: Result<
        Option<&mut Room>,
        Errors,
    >)
        ensures
            in_plan(as_cell(dungeon_coords)) <==> r is Ok,
            final(self).level_number() == old(self).level_number(),
            forall|c: Cell|
                c != as_cell(dungeon_coords) ==> final(self).room_at(c) == old(self).room_at(c),
            match r {
                Ok(Some(room)) => {
                    &&& old(self).room_at(as_cell(dungeon_coords)) == Some(*room)
                    &&& final(self).room_at(as_cell(dungeon_coords)) == Some(*final(room))
                },
                Ok(None) => *final(self) == *old(self) && old(self).room_at(
                    as_cell(dungeon_coords),
                ) is None,
                Err(e) => *final(self) == *old(self) && e == Errors::UnknownGridCoords(
                    dungeon_coords,
                ),
            },
    {
        if dungeon_coords.0 >= DUNGEON_GRID_ROWS {
            return Err(Errors::UnknownGridCoords(dungeon_coords));
        }
        if dungeon_coords.1 >= DUNGEON_GRID_COLS {
            return Err(Errors::UnknownGridCoords(dungeon_coords));
        }
        if self.grid[dungeon_coords.0][dungeon_coords.1].is_none() {
            return Ok(None);
        }
        match &mut self.grid[dungeon_coords.0][dungeon_coords.1] {
            Some(room) => Ok(Some(room)),
            None => Ok(None),
        }
    }

    pub fn get_grid(&self) -> (grid: &RoomSlots)
        ensures
            *grid == self.slots(),
    {
        &self.grid
    }

    pub fn get_level(&self) -> (level: u32)
        ensures
            level == self.level_number(),
    {
        self.level
    }

    /// The slot where the player enters a level.
    pub fn get_start_room_coords() -> (start: (usize, usize))
        ensures
            as_cell(start) == start_cell(),
    {
        (START_ROW, START_COL)
    }

    /// The level is what generation makes of a plan and the list of its
    /// rooms: the two rooms that lead the list are the boss room and the
    /// item room, and every slot holds the room of the plan, or none.
    pub open spec fn built_from(self, grid: RoomGrid, rooms: Seq<Admitted>, level: u32) -> bool {
        &&& self.level_number() == level
        &&& exists|boss: int, item: int|
            {
                &&& leads(grid, rooms, boss, 0)
                &&& leads(grid, rooms, item, boss)
                &&& #[trigger] slots_built(
                    self.slots(),
                    grid,
                    rooms,
                    rooms.len() as int,
                    boss,
                    item,
                    level,
                )
            }
    }

    /// Marks the room in a slot as discovered, if one stands there that was not.
    fn discover(&mut self, i: usize, j: usize)
        requires
            i < 8,
            j < 9,
        ensures
            final(self).level_number() == old(self).level_number(),
            forall|c: Cell|
                c != (i as int, j as int) ==> final(self).room_at(c) == old(self).room_at(c),
            match old(self).room_at((i as int, j as int)) {
                Some(before) => final(self).room_at((i as int, j as int)) is Some && room_revealed(
                    before,
                    final(self).room_at((i as int, j as int))->0,
                ),
                None => *final(self) == *old(self),
            },
    {
        if self.grid[i][j].is_none() {
            return ;
        }
        match &mut self.grid[i][j] {
            Some(room) => {
                match room.state {
                    RoomState::Undiscovered => {
                        room.state = RoomState::Discovered;
                    },
                    _ => {},
                }
            },
            None => {},
        }
    }

    /// Lifts the fog round the player: the room in slot `at` and the rooms
    /// next to it become discovered where they were undiscovered. Nothing
    /// else changes. A slot outside the grid is an error.
    pub fn update_rooms_state(&mut self, at: (usize, usize)) -> (r: Result<(), Errors>)
        ensures
            in_plan(as_cell(at)) <==> r is Ok,
            r is Err ==> *final(self) == *old(self) && r->Err_0 == Errors::UnknownGridCoords(at),
            final(self).level_number() == old(self).level_number(),
            final(self).room_cells() == old(self).room_cells(),
            final(self).connected() == old(self).connected(),
            r is Ok ==> forall|c: Cell|
                match #[trigger] old(self).room_at(c) {
                    Some(before) => final(self).room_at(c) is Some && (if in_sight(as_cell(at), c) {
                        room_revealed(before, final(self).room_at(c)->0)
                    } else {
                        final(self).room_at(c)->0 == before
                    }),
                    None => final(self).room_at(c) is None,
                },
    {
        let (i, j) = at;
        if i >= DUNGEON_GRID_ROWS || j >= DUNGEON_GRID_COLS {
            return Err(Errors::UnknownGridCoords(at));
        }
        self.discover(i, j);
        if i > 0 {
            self.discover(i - 1, j);
        }
        if j > 0 {
            self.discover(i, j - 1);
        }
        if j < DUNGEON_GRID_COLS - 1 {
            self.discover(i, j + 1);
        }
        if i < DUNGEON_GRID_ROWS - 1 {
            self.discover(i + 1, j);
        }
        proof {
            assert forall|c: Cell| self.room_at(c) is Some <==> old(self).room_at(c) is Some by {}
            assert(self.room_cells() =~= old(self).room_cells());
        }
        Ok(())
    }

    /// Whether room `a` of the list is given its role before room `b`.
    pub fn ranks_before(grid: &RoomGrid, rooms: &Vec<Admitted>, a: usize, b: usize) -> (r: bool)
        requires
            a < rooms.len(),
            b < rooms.len(),
        ensures
            r == outranks(*grid, rooms@, a as int, b as int),
    {
        let depth_a = rooms[a].1;
        let depth_b = rooms[b].1;
        if depth_a != depth_b {
            return depth_a > depth_b;
        }
        let doors_a = Dungeon::check_room_cardinals(grid, rooms[a].0);
        let doors_b = Dungeon::check_room_cardinals(grid, rooms[b].0);
        if doors_a != doors_b {
            return doors_a < doors_b;
        }
        a < b
    }

    /// The room that is given its role first, the start room and room `skip` left aside.
    pub fn leader(grid: &RoomGrid, rooms: &Vec<Admitted>, skip: usize) -> (best: usize)
        requires
            rooms.len() >= 3,
        ensures
            leads(*grid, rooms@, best as int, skip as int),
    {
        let mut best: usize = if skip == 1 {
            2
        } else {
            1
        };
        let mut k: usize = best + 1;
        while k < rooms.len()
            invariant
                1 <= best < k <= rooms.len(),
                best != skip,
                forall|m: int|
                    1 <= m < k && m != skip && m != best ==> #[trigger] outranks(
                        *grid,
                        rooms@,
                        best as int,
                        m,
                    ),
            decreases rooms.len() - k,
        {
            let ghost best_before = best;
            if k != skip && Dungeon::ranks_before(grid, rooms, k, best) {
                best = k;
            }
            proof {
                assert forall|m: int| 1 <= m < k + 1 && m != skip && m != best implies #[trigger] outranks(
                    *grid,
                    rooms@,
                    best as int,
                    m,
                ) by {
                    if m < k && m != best_before {
                        assert(outranks(*grid, rooms@, best_before as int, m));
                    }
                }
            }
            k += 1;
        }
        best
    }

    /// Where the door in direction `dir` of the room in slot `at` leads, if a
    /// room stands there.
    pub fn door_connect(grid: &RoomGrid, at: (usize, usize), dir: Direction) -> (connect: Option<
        ((usize, usize), Direction),
    >)
        ensures
            connect == connect_to(*grid, as_cell(at), dir),
    {
        match neighbour(at, dir) {
            Some(n) => {
                if grid[n.0][n.1] != 0 {
                    Some((n, dir))
                } else {
                    None
                }
            },
            None => None,
        }
    }

    /// The connections of the doors of the room in slot `at`, in the order
    /// north, west, east, south.
    pub fn door_connects(grid: &RoomGrid, at: (usize, usize)) -> (connects: DoorConnects)
        ensures
            connects_match(connects, *grid, as_cell(at)),
    {
        [
            Dungeon::door_connect(grid, at, Direction::North),
            Dungeon::door_connect(grid, at, Direction::West),
            Dungeon::door_connect(grid, at, Direction::East),
            Dungeon::door_connect(grid, at, Direction::South),
        ]
    }

    /// The role of room `k` of the list, given the coin that was tossed for
    /// it: the coin decides between a mob room and an empty one where the
    /// rank of the room does not decide.
    pub fn assign_role(k: usize, boss: usize, item: usize, mob: bool) -> (tag: RoomTag)
        ensures
            role_fits(tag, k as int, boss as int, item as int),
            k != 0 && k != boss && k != item ==> tag == if mob {
                RoomTag::Mob
            } else {
                RoomTag::Empty
            },
    {
        if k == 0 {
            RoomTag::Start
        } else if k == boss {
            RoomTag::Boss
        } else if k == item {
            RoomTag::Item
        } else if mob {
            RoomTag::Mob
        } else {
            RoomTag::Empty
        }
    }

    /// Builds the rooms of a plan. The room that leads the list becomes the
    /// boss room and the next one the item room; for each other room, the
    /// start apart, a coin that shows mob four times in five decides.
    pub fn from_plan(grid: &RoomGrid, rooms: &Vec<Admitted>, level: u32) -> (dungeon: Dungeon)
        requires
            plan_wf(*grid, rooms@),
            rooms.len() >= 3,
        ensures
            dungeon.built_from(*grid, rooms@, level),
    {
        let boss = Dungeon::leader(grid, rooms, 0);
        let item = Dungeon::leader(grid, rooms, boss);
        let mut slots: RoomSlots = [
            [None, None, None, None, None, None, None, None, None],
            [None, None, None, None, None, None, None, None, None],
            [None, None, None, None, None, None, None, None, None],
            [None, None, None, None, None, None, None, None, None],
            [None, None, None, None, None, None, None, None, None],
            [None, None, None, None, None, None, None, None, None],
            [None, None, None, None, None, None, None, None, None],
            [None, None, None, None, None, None, None, None, None],
        ];
        let mut k: usize = 0;
        while k < rooms.len()
            invariant
                plan_wf(*grid, rooms@),
                0 <= k <= rooms.len(),
                slots_built(slots, *grid, rooms@, k as int, boss as int, item as int, level),
            decreases rooms.len() - k,
        {
            let (at, _) = rooms[k];
            let connects = Dungeon::door_connects(grid, at);
            let mob = gen_ratio(4, 5);
            let tag = Dungeon::assign_role(k, boss, item, mob);
            let room = Room::generate_room(at, connects, tag, level);
            let ghost slots_before = slots;
            proof {
                assert(room_built(room, *grid, rooms@, k as int, boss as int, item as int, level));
                assert(occupied(*grid, as_cell(at)));
            }
            slots[at.0][at.1] = Some(room);
            proof {
                assert forall|c: Cell| in_plan(c) implies match #[trigger] slots[c.0][c.1] {
                    Some(room) => occupied(*grid, c) && grid[c.0][c.1] <= k + 1 && room_built(
                        room,
                        *grid,
                        rooms@,
                        grid[c.0][c.1] - 1,
                        boss as int,
                        item as int,
                        level,
                    ),
                    None => !(occupied(*grid, c) && grid[c.0][c.1] <= k + 1),
                } by {
                    if c != as_cell(at) {
                        assert(slots[c.0][c.1] == slots_before[c.0][c.1]);
                        if occupied(*grid, c) && grid[c.0][c.1] == k + 1 {
                            assert(room_cell(rooms@[grid[c.0][c.1] - 1]) == c);
                        }
                    }
                }
            }
            k += 1;
        }
        let dungeon = Dungeon { grid: slots, level };
        proof {
            assert(dungeon.slots() == slots);
            assert(slots_built(
                dungeon.slots(),
                *grid,
                rooms@,
                rooms@.len() as int,
                boss as int,
                item as int,
                level,
            ));
        }
        dungeon
    }

    /// Generates the dungeon of a level: draws a plan, then builds its rooms.
    ///
    /// A dungeon that comes back is what `from_plan` makes of a well-formed
    /// plan with 5 rooms, two more for each level, and at most one more.
    /// Every one of its rooms can be walked to from the start slot, which
    /// holds the start room; exactly one room is the boss room and one the
    /// item room. From level 34 on the grid is too small and the answer is
    /// the error; below that it is the error only where the allowed number
    /// of draws gave no plan.
    pub fn generate_dungeon(level: u32) -> (r: Result<Dungeon, Errors>)
        ensures
            match r {
                Ok(dungeon) => {
                    &&& exists|grid: RoomGrid, rooms: Seq<Admitted>|
                        {
                            &&& plan_wf(grid, rooms)
                            &&& rooms.len() == dungeon.room_count()
                            &&& #[trigger] dungeon.built_from(grid, rooms, level)
                        }
                    &&& dungeon.level_number() == level
                    &&& dungeon.connected()
                    &&& dungeon.exactly_one(RoomTag::Start)
                    &&& dungeon.exactly_one(RoomTag::Boss)
                    &&& dungeon.exactly_one(RoomTag::Item)
                    &&& min_room_count(level) <= dungeon.room_count() <= min_room_count(level) + 1
                },
                Err(e) => e == Errors::GenerationFailed(level),
            },
            level >= 34 ==> r is Err,
    {
        match generate_plan(level) {
            Ok((grid, rooms)) => {
                let dungeon = Dungeon::from_plan(&grid, &rooms, level);
                proof {
                    lemma_built_is_connected(dungeon, grid, rooms@, level);
                    lemma_built_has_one_of_each(dungeon, grid, rooms@, level);
                    lemma_built_room_count(dungeon, grid, rooms@, level);
                }
                Ok(dungeon)
            },
            Err(e) => Err(e),
        }
    }
}

/// A level built from a plan has its rooms where the plan has them.
pub proof fn lemma_built_cells(dungeon: Dungeon, grid: RoomGrid, rooms: Seq<Admitted>, level: u32)
    requires
        plan_wf(grid, rooms),
        dungeon.built_from(grid, rooms, level),
    ensures
        dungeon.room_cells() == plan_cells(grid),
        forall|c: Cell| #[trigger] dungeon.room_at(c) is Some <==> occupied(grid, c),
{
    assert forall|c: Cell| #[trigger] dungeon.room_at(c) is Some <==> occupied(grid, c) by {
        if in_plan(c) {
            let slot = dungeon.slots()[c.0][c.1];
            assert(dungeon.room_at(c) == slot);
        }
    }
    assert forall|c: Cell| dungeon.room_cells().contains(c) <==> plan_cells(grid).contains(c) by {
        assert(dungeon.room_at(c) is Some <==> occupied(grid, c));
    }
    assert(dungeon.room_cells() =~= plan_cells(grid));
}

/// In a level built from a plan every room can be walked to from the start
/// slot without leaving the rooms.
pub proof fn lemma_built_is_connected(
    dungeon: Dungeon,
    grid: RoomGrid,
    rooms: Seq<Admitted>,
    level: u32,
)
    requires
        plan_wf(grid, rooms),
        dungeon.built_from(grid, rooms, level),
    ensures
        dungeon.connected(),
{
    lemma_built_cells(dungeon, grid, rooms, level);
}

/// A level built from a plan holds as many rooms as the plan lists.
pub proof fn lemma_built_room_count(
    dungeon: Dungeon,
    grid: RoomGrid,
    rooms: Seq<Admitted>,
    level: u32,
)
    requires
        plan_wf(grid, rooms),
        dungeon.built_from(grid, rooms, level),
    ensures
        dungeon.room_count() == rooms.len(),
{
    lemma_built_cells(dungeon, grid, rooms, level);
    assert forall|k: int| 0 <= k < 72 implies dungeon.occupancy()[k] == crate::plan::occupancy(
        grid,
    )[k] by {
        let c: Cell = (k / 9, k % 9);
        assert(in_plan(c));
        assert(dungeon.room_at(c) is Some <==> occupied(grid, c));
    }
    assert(dungeon.occupancy() =~= crate::plan::occupancy(grid));
}

/// A level built from a plan has exactly one start room, one boss room and
/// one item room.
pub proof fn lemma_built_has_one_of_each(
    dungeon: Dungeon,
    grid: RoomGrid,
    rooms: Seq<Admitted>,
    level: u32,
)
    requires
        plan_wf(grid, rooms),
        dungeon.built_from(grid, rooms, level),
    ensures
        dungeon.exactly_one(RoomTag::Start),
        dungeon.exactly_one(RoomTag::Boss),
        dungeon.exactly_one(RoomTag::Item),
        dungeon.room_at(start_cell()) is Some,
        dungeon.room_at(start_cell())->0.tag == RoomTag::Start,
{
    lemma_built_cells(dungeon, grid, rooms, level);
    let (boss, item) = choose|boss: int, item: int|
        {
            &&& leads(grid, rooms, boss, 0)
            &&& leads(grid, rooms, item, boss)
            &&& #[trigger] slots_built(
                dungeon.slots(),
                grid,
                rooms,
                rooms.len() as int,
                boss,
                item,
                level,
            )
        };
    lemma_role_is_unique(dungeon, grid, rooms, level, boss, item, 0, RoomTag::Start);
    lemma_role_is_unique(dungeon, grid, rooms, level, boss, item, boss, RoomTag::Boss);
    lemma_role_is_unique(dungeon, grid, rooms, level, boss, item, item, RoomTag::Item);
    let c = room_cell(rooms[0]);
    assert(occupied(grid, c));
    assert(dungeon.room_at(c) == dungeon.slots()[c.0][c.1]);
}

proof fn lemma_role_is_unique(
    dungeon: Dungeon,
    grid: RoomGrid,
    rooms: Seq<Admitted>,
    level: u32,
    boss: int,
    item: int,
    k: int,
    tag: RoomTag,
)
    requires
        plan_wf(grid, rooms),
        leads(grid, rooms, boss, 0),
        leads(grid, rooms, item, boss),
        slots_built(dungeon.slots(), grid, rooms, rooms.len() as int, boss, item, level),
        0 <= k < rooms.len(),
        role_fits(tag, k, boss, item),
        tag == RoomTag::Start || tag == RoomTag::Boss || tag == RoomTag::Item,
    ensures
        dungeon.exactly_one(tag),
{
    let c = room_cell(rooms[k]);
    assert(occupied(grid, c));
    assert(in_plan(c));
    assert(dungeon.room_at(c) == dungeon.slots()[c.0][c.1]);
    assert(dungeon.room_at(c) is Some);
    assert(dungeon.room_at(c)->0.tag == tag);
    assert forall|other: Cell|
        (#[trigger] dungeon.room_at(other)) is Some && dungeon.room_at(other)->0.tag
            == tag implies other == c by {
        assert(in_plan(other));
        assert(dungeon.room_at(other) == dungeon.slots()[other.0][other.1]);
        assert(occupied(grid, other));
        let m = grid[other.0][other.1] - 1;
        assert(room_cell(rooms[m]) == other);
        assert(role_fits(tag, m, boss, item));
        assert(m == k);
    }
}

} // verus!
