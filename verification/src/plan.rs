use vstd::prelude::*;
use std::collections::VecDeque;
use crate::consts::{
    BASE_ROOM_COUNT, DUNGEON_GRID_COLS, DUNGEON_GRID_ROWS, MAX_GENERATION_ATTEMPTS, START_COL,
    START_ROW,
};
use crate::chance::{gen_below, gen_ratio};
use crate::dungeon::Dungeon;
use crate::graph::{
    adjacent, as_cell, connected_from, count_set, lemma_closed_holds_reachable,
    lemma_count_set_bound, lemma_count_set_none, lemma_count_set_update,
    lemma_queued_after_pop, lemma_queued_after_push, lemma_reachable_grows, lemma_reachable_self,
    lemma_reachable_step, queued, reachable, Cell,
};
use crate::utils::{Direction, Errors};

verus! {

/// The floor plan of a level: for each slot of the dungeon grid the number of
/// the room that stands there, counted from 1, or 0 for an empty slot.
pub type RoomGrid = [[usize; DUNGEON_GRID_COLS]; DUNGEON_GRID_ROWS];

/// One flag for each slot of the dungeon grid.
pub type SlotFlags = [[bool; DUNGEON_GRID_COLS]; DUNGEON_GRID_ROWS];

/// The slot where every level starts.
pub open spec fn start_cell() -> Cell {
    (3, 5)
}

pub open spec fn in_plan(c: Cell) -> bool {
    0 <= c.0 < 8 && 0 <= c.1 < 9
}

/// The slots of the plan that hold a room.
pub open spec fn plan_cells(grid: RoomGrid) -> Set<Cell> {
    Set::new(|c: Cell| in_plan(c) && grid[c.0][c.1] != 0)
}

pub open spec fn occupied(grid: RoomGrid, c: Cell) -> bool {
    in_plan(c) && grid[c.0][c.1] != 0
}

/// How many of the four neighbours of `c` hold a room.
pub open spec fn cardinals(grid: RoomGrid, c: Cell) -> int {
    (if occupied(grid, (c.0 + 1, c.1)) { 1int } else { 0int })
    + (if occupied(grid, (c.0 - 1, c.1)) { 1int } else { 0int })
    + (if occupied(grid, (c.0, c.1 + 1)) { 1int } else { 0int })
    + (if occupied(grid, (c.0, c.1 - 1)) { 1int } else { 0int })
}

/// A room with number `k` can be walked to from the start through rooms.
pub open spec fn number_reachable(grid: RoomGrid, k: int) -> bool {
    exists|c: Cell| #[trigger]
        reachable(plan_cells(grid), start_cell(), c) && in_plan(c) && grid[c.0][c.1] == k
}

/// Each of the numbers 1 to `rooms_len` belongs to a room that can be walked
/// to from the start.
pub open spec fn numbers_reachable(grid: RoomGrid, rooms_len: int) -> bool {
    forall|k: int| 1 <= k <= rooms_len ==> #[trigger] number_reachable(grid, k)
}

/// For each slot, row by row, whether it holds a room.
pub open spec fn occupancy(grid: RoomGrid) -> Seq<bool> {
    Seq::new(72, |k: int| grid[k / 9][k % 9] != 0)
}

/// The flags row by row, as one sequence of 72.
pub open spec fn flat(flags: SlotFlags) -> Seq<bool> {
    Seq::new(72, |k: int| flags[k / 9][k % 9])
}

spec fn flagged(flags: SlotFlags, c: Cell) -> bool {
    in_plan(c) && flags[c.0][c.1]
}

spec fn number_flagged(grid: RoomGrid, flags: SlotFlags, k: int) -> bool {
    exists|c: Cell| #[trigger] flagged(flags, c) && grid[c.0][c.1] == k
}

spec fn search_inv(
    grid: RoomGrid,
    flags: SlotFlags,
    q: Seq<(usize, usize)>,
    checked: Seq<bool>,
) -> bool {
    &&& forall|c: Cell| #[trigger]
        flagged(flags, c) ==> reachable(plan_cells(grid), start_cell(), c)
    &&& forall|n: int|
        0 <= n < q.len() ==> in_plan(as_cell(#[trigger] q[n])) && reachable(
            plan_cells(grid),
            start_cell(),
            as_cell(q[n]),
        )
    &&& forall|x: Cell, y: Cell|
        flagged(flags, x) && occupied(grid, y) && #[trigger] adjacent(x, y) ==> flagged(flags, y)
            || queued(q, y)
    &&& flagged(flags, start_cell()) || queued(q, start_cell())
    &&& forall|k: int|
        0 <= k < checked.len() ==> (#[trigger] checked[k] <==> number_flagged(grid, flags, k + 1))
}

proof fn lemma_flag_counts(before: SlotFlags, after: SlotFlags, i: int, j: int)
    requires
        in_plan((i, j)),
        !before[i][j],
        after[i][j],
        forall|a: int, b: int| in_plan((a, b)) && !(a == i && b == j) ==> after[a][b] == before[a][b],
    ensures
        count_set(flat(after), 72) == count_set(flat(before), 72) + 1,
        count_set(flat(after), 72) <= 72,
{
    let at = i * 9 + j;
    assert(at / 9 == i && at % 9 == j);
    assert forall|k: int| 0 <= k < 72 && k != at implies flat(before)[k] == flat(after)[k] by {
        assert(in_plan((k / 9, k % 9)));
    }
    lemma_count_set_update(flat(before), flat(after), at, 72);
    lemma_count_set_bound(flat(after), 72);
}

proof fn lemma_occupancy_grows(before: RoomGrid, after: RoomGrid, at: Cell)
    requires
        in_plan(at),
        before[at.0][at.1] == 0,
        after[at.0][at.1] != 0,
        forall|c: Cell| in_plan(c) && c != at ==> after[c.0][c.1] == before[c.0][c.1],
    ensures
        count_set(occupancy(after), 72) == count_set(occupancy(before), 72) + 1,
{
    let k = at.0 * 9 + at.1;
    assert(k / 9 == at.0 && k % 9 == at.1);
    assert forall|m: int| 0 <= m < 72 && m != k implies occupancy(before)[m] == occupancy(
        after,
    )[m] by {
        assert(in_plan((m / 9, m % 9)));
    }
    lemma_count_set_update(occupancy(before), occupancy(after), k, 72);
}

proof fn lemma_occupancy_of_start(grid: RoomGrid)
    requires
        forall|c: Cell| in_plan(c) ==> (grid[c.0][c.1] != 0 <==> c == start_cell()),
    ensures
        count_set(occupancy(grid), 72) == 1,
{
    let none = Seq::new(72, |k: int| false);
    lemma_count_set_none(none, 72);
    assert forall|m: int| 0 <= m < 72 && m != 32 implies none[m] == occupancy(grid)[m] by {
        assert(in_plan((m / 9, m % 9)));
    }
    assert(32int / 9 == 3 && 32int % 9 == 5);
    assert(in_plan(start_cell()));
    assert(grid[3][5] != 0);
    assert(occupancy(grid)[32]);
    lemma_count_set_update(none, occupancy(grid), 32, 72);
}

impl Dungeon {
    /// How many of the four neighbours of `room` hold a room.
    pub fn check_room_cardinals(grid: &RoomGrid, room: (usize, usize)) -> (result: usize)
        ensures
            result == cardinals(*grid, (room.0 as int, room.1 as int)),
    {
        let (i, j) = room;
        let mut result: usize = 0;
        if j < DUNGEON_GRID_COLS {
            if i < DUNGEON_GRID_ROWS - 1 && grid[i + 1][j] != 0 {
                result += 1;
            }
            if i > 0 && i <= DUNGEON_GRID_ROWS && grid[i - 1][j] != 0 {
                result += 1;
            }
        }
        if i < DUNGEON_GRID_ROWS {
            if j < DUNGEON_GRID_COLS - 1 && grid[i][j + 1] != 0 {
                result += 1;
            }
            if j > 0 && j <= DUNGEON_GRID_COLS && grid[i][j - 1] != 0 {
                result += 1;
            }
        }
        result
    }

    /// Walks the plan from the start slot over the slots that hold a room, and
    /// says whether every room number from 1 to `rooms_len` was met on the way.
    #[verifier::rlimit(30)]
    pub fn check_dungeon_consistency(grid: &RoomGrid, rooms_len: usize) -> (consistent: bool)
        ensures
            consistent == numbers_reachable(*grid, rooms_len as int),
    {
        let mut checked: Vec<bool> = Vec::new();
        while checked.len() < rooms_len
            invariant
                checked.len() <= rooms_len,
                forall|k: int| 0 <= k < checked.len() ==> !checked[k],
            decreases rooms_len - checked.len(),
        {
            checked.push(false);
        }
        let mut flags: SlotFlags = [[false; DUNGEON_GRID_COLS]; DUNGEON_GRID_ROWS];
        let mut q: VecDeque<(usize, usize)> = VecDeque::new();
        if grid[START_ROW][START_COL] != 0 {
            q.push_back((START_ROW, START_COL));
            proof {
                lemma_reachable_self(plan_cells(*grid), start_cell());
                assert(q@[0].0 == start_cell().0 && q@[0].1 == start_cell().1);
                assert(queued(q@, start_cell()));
            }
        }
        proof {
            lemma_count_set_bound(flat(flags), 72);
            assert forall|k: int| 0 <= k < checked@.len() implies (#[trigger] checked@[k]
                <==> number_flagged(*grid, flags, k + 1)) by {
                if number_flagged(*grid, flags, k + 1) {
                    let c = choose|c: Cell| #[trigger] flagged(flags, c) && grid[c.0][c.1] == k + 1;
                    assert(false);
                }
            }
        }
        while q.len() > 0
            invariant
                checked.len() == rooms_len,
                occupied(*grid, start_cell()) ==> search_inv(*grid, flags, q@, checked@),
                !occupied(*grid, start_cell()) ==> q@.len() == 0 && forall|c: Cell| !flagged(flags, c),
                !occupied(*grid, start_cell()) ==> forall|k: int| 0 <= k < checked.len() ==> !checked[k],
                count_set(flat(flags), 72) <= 72,
            decreases 72 - count_set(flat(flags), 72), q@.len(),
        {
            let ghost q_before = q@;
            let ghost flags_before = flags;
            let ghost checked_before = checked@;
            let front = q.pop_front();
            let (i, j) = front.unwrap();
            let ghost here: Cell = (i as int, j as int);
            assert(in_plan(here));
            assert(q_before[0].0 == i && q_before[0].1 == j);
            if flags[i][j] {
                proof {
                    assert(flagged(flags, here));
                    assert forall|x: Cell, y: Cell|
                        flagged(flags, x) && occupied(*grid, y) && #[trigger] adjacent(x, y)
                        implies flagged(flags, y) || queued(q@, y) by {
                        if !flagged(flags, y) {
                            assert(queued(q_before, y));
                            lemma_queued_after_pop(q_before, y);
                        }
                    }
                    if !flagged(flags, start_cell()) {
                        lemma_queued_after_pop(q_before, start_cell());
                    }
                    assert forall|n: int| 0 <= n < q@.len() implies in_plan(
                        (#[trigger] q@[n].0 as int, q@[n].1 as int),
                    ) && reachable(plan_cells(*grid), start_cell(), (q@[n].0 as int, q@[n].1 as int)) by {
                        assert(q@[n] == q_before[n + 1]);
                    }
                }
            } else {
                flags[i][j] = true;
                let number: usize = grid[i][j];
                proof {
                    lemma_flag_counts(flags_before, flags, i as int, j as int);
                    assert(reachable(plan_cells(*grid), start_cell(), here));
                    assert(plan_cells(*grid).contains(here)) by {
                        let p = choose|p: Seq<Cell>|
                            crate::graph::is_path(plan_cells(*grid), p) && p[0] == start_cell() && p[p.len()
                                - 1] == here;
                        assert(plan_cells(*grid).contains(p[p.len() - 1]));
                    }
                }
                if number - 1 < rooms_len {
                    checked.set(number - 1, true);
                }
                let ghost q_popped = q@;
                if i < DUNGEON_GRID_ROWS - 1 && grid[i + 1][j] != 0 {
                    q.push_back((i + 1, j));
                }
                let ghost q_south = q@;
                if i > 0 && grid[i - 1][j] != 0 {
                    q.push_back((i - 1, j));
                }
                let ghost q_north = q@;
                if j < DUNGEON_GRID_COLS - 1 && grid[i][j + 1] != 0 {
                    q.push_back((i, j + 1));
                }
                let ghost q_east = q@;
                if j > 0 && grid[i][j - 1] != 0 {
                    q.push_back((i, j - 1));
                }
                proof {
                    let cells = plan_cells(*grid);
                    // what was flagged stays flagged, and the new flag is reachable
                    assert forall|c: Cell| #[trigger] flagged(flags, c) implies reachable(
                        cells,
                        start_cell(),
                        c,
                    ) by {
                        if c != here {
                            assert(flagged(flags_before, c));
                        }
                    }
                    // queue members carry over through the four pushes
                    assert forall|c: Cell| queued(q_popped, c) implies queued(q@, c) by {
                        lemma_queued_after_push(q_popped, ((i + 1) as usize, j), c);
                        lemma_queued_after_push(q_south, ((i - 1) as usize, j), c);
                        lemma_queued_after_push(q_north, (i, (j + 1) as usize), c);
                        lemma_queued_after_push(q_east, (i, (j - 1) as usize), c);
                    }
                    assert forall|n: int| 0 <= n < q@.len() implies in_plan(
                        (#[trigger] q@[n].0 as int, q@[n].1 as int),
                    ) && reachable(cells, start_cell(), (q@[n].0 as int, q@[n].1 as int)) by {
                        let c: Cell = (q@[n].0 as int, q@[n].1 as int);
                        if n < q_popped.len() {
                            assert(q@[n] == q_popped[n]);
                            assert(q_popped[n] == q_before[n + 1]);
                        } else {
                            assert(adjacent(here, c));
                            assert(cells.contains(c));
                            lemma_reachable_step(cells, start_cell(), here, c);
                        }
                    }
                    assert forall|x: Cell, y: Cell|
                        flagged(flags, x) && occupied(*grid, y) && #[trigger] adjacent(x, y)
                        implies flagged(flags, y) || queued(q@, y) by {
                        if !flagged(flags, y) {
                            if x == here {
                                lemma_queued_after_push(q_popped, ((i + 1) as usize, j), y);
                                lemma_queued_after_push(q_south, ((i - 1) as usize, j), y);
                                lemma_queued_after_push(q_north, (i, (j + 1) as usize), y);
                                lemma_queued_after_push(q_east, (i, (j - 1) as usize), y);
                            } else {
                                assert(flagged(flags_before, x));
                                assert(!flagged(flags_before, y));
                                assert(queued(q_before, y));
                                lemma_queued_after_pop(q_before, y);
                            }
                        }
                    }
                    if !flagged(flags, start_cell()) {
                        assert(queued(q_before, start_cell()));
                        lemma_queued_after_pop(q_before, start_cell());
                    }
                    assert forall|k: int| 0 <= k < checked@.len() implies (#[trigger] checked@[k]
                        <==> number_flagged(*grid, flags, k + 1)) by {
                        if number_flagged(*grid, flags_before, k + 1) {
                            let c = choose|c: Cell| #[trigger]
                                flagged(flags_before, c) && grid[c.0][c.1] == k + 1;
                            assert(flagged(flags, c));
                        }
                        if k == number - 1 {
                            assert(flagged(flags, here));
                        }
                        if number_flagged(*grid, flags, k + 1) && k != number - 1 {
                            let c = choose|c: Cell| #[trigger]
                                flagged(flags, c) && grid[c.0][c.1] == k + 1;
                            assert(flagged(flags_before, c));
                        }
                    }
                }
            }
        }
        let mut all_checked = true;
        let mut k: usize = 0;
        while k < checked.len()
            invariant
                k <= checked.len(),
                all_checked <==> forall|m: int| 0 <= m < k ==> checked[m],
            decreases checked.len() - k,
        {
            if !checked[k] {
                all_checked = false;
            }
            k += 1;
        }
        proof {
            let cells = plan_cells(*grid);
            if occupied(*grid, start_cell()) {
                let closed = Set::new(|c: Cell| flagged(flags, c));
                assert(queued(q@, start_cell()) ==> false);
                assert forall|x: Cell, y: Cell|
                    closed.contains(x) && cells.contains(y) && adjacent(x, y) implies closed.contains(
                    y,
                ) by {
                    assert(occupied(*grid, y));
                    assert(!queued(q@, y));
                }
                assert forall|m: int| 1 <= m <= rooms_len implies (checked@[m - 1]
                    <==> #[trigger] number_reachable(*grid, m)) by {
                    if number_reachable(*grid, m) {
                        let c = choose|c: Cell| #[trigger]
                            reachable(cells, start_cell(), c) && in_plan(c) && grid[c.0][c.1] == m;
                        lemma_closed_holds_reachable(cells, closed, start_cell(), c);
                        assert(flagged(flags, c));
                    }
                    if number_flagged(*grid, flags, m) {
                        let c = choose|c: Cell| #[trigger] flagged(flags, c) && grid[c.0][c.1] == m;
                        assert(reachable(cells, start_cell(), c));
                    }
                }
                if all_checked {
                    assert forall|m: int| 1 <= m <= rooms_len implies #[trigger] number_reachable(
                        *grid,
                        m,
                    ) by {
                        assert(checked@[m - 1]);
                    }
                } else {
                    let m = choose|m: int| 0 <= m < rooms_len && !checked@[m];
                    assert(!number_reachable(*grid, m + 1));
                }
            } else {
                assert forall|c: Cell| !reachable(cells, start_cell(), c) by {
                    if reachable(cells, start_cell(), c) {
                        let p = choose|p: Seq<Cell>|
                            crate::graph::is_path(cells, p) && p[0] == start_cell() && p[p.len() - 1]
                                == c;
                        assert(cells.contains(p[0]));
                    }
                }
                if rooms_len > 0 {
                    assert(!checked@[0]);
                    assert(!number_reachable(*grid, 1));
                }
            }
        }
        all_checked
    }
}

/// A room of the plan: its slot, and how many steps from the start it was admitted.
pub type Admitted = ((usize, usize), usize);

pub open spec fn room_cell(r: Admitted) -> Cell {
    as_cell(r.0)
}

/// Room `k` of the list stands next to a room admitted before it, one step
/// further from the start.
pub open spec fn has_parent(rooms: Seq<Admitted>, k: int) -> bool {
    exists|p: int|
        0 <= p < k && #[trigger] adjacent(room_cell(rooms[p]), room_cell(rooms[k])) && rooms[k].1
            == rooms[p].1 + 1
}

/// `r` is one of the rooms of the list.
pub open spec fn is_room(rooms: Seq<Admitted>, r: Admitted) -> bool {
    exists|k: int| 0 <= k < rooms.len() && #[trigger] rooms[k] == r
}

/// A plan and the list of its rooms agree. The list starts with the start
/// room; room `k` of the list carries the number `k + 1` in the plan and no
/// other slot does; every room can be walked to from the start; every room
/// but the first hangs on an earlier one; and the plan holds as many rooms as
/// the list.
pub open spec fn plan_wf(grid: RoomGrid, rooms: Seq<Admitted>) -> bool {
    &&& rooms.len() >= 1
    &&& rooms[0] == ((3usize, 5usize), 0usize)
    &&& forall|k: int|
        0 <= k < rooms.len() ==> in_plan(room_cell(#[trigger] rooms[k])) && grid[room_cell(
            rooms[k],
        ).0][room_cell(rooms[k]).1] == k + 1 && rooms[k].1 <= k
    &&& forall|c: Cell| #[trigger]
        occupied(grid, c) ==> 1 <= grid[c.0][c.1] <= rooms.len() && room_cell(
            rooms[grid[c.0][c.1] - 1],
        ) == c
    &&& connected_from(plan_cells(grid), start_cell())
    &&& forall|k: int| 1 <= k < rooms.len() ==> #[trigger] has_parent(rooms, k)
    &&& count_set(occupancy(grid), 72) == rooms.len()
}

/// The slot one step from `from` in direction `dir`.
pub open spec fn step_cell(from: Cell, dir: Direction) -> Cell {
    (from.0 + dir.offset().0, from.1 + dir.offset().1)
}

/// Whether the neighbour of `from` in direction `dir` becomes a room: the coin
/// came up, the level still lacks rooms, the slot is on the grid and empty,
/// and at most one of its own neighbours holds a room.
pub open spec fn admits(
    grid: RoomGrid,
    rooms_len: int,
    from: Cell,
    dir: Direction,
    coin: bool,
    room_count: int,
) -> bool {
    let n = step_cell(from, dir);
    coin && rooms_len < room_count && in_plan(n) && grid[n.0][n.1] == 0 && cardinals(grid, n) <= 1
}

/// The slot one step from `cell` in direction `dir`, where the grid has one.
pub fn neighbour(cell: (usize, usize), dir: Direction) -> (r: Option<(usize, usize)>)
    ensures
        r is Some <==> in_plan(step_cell(as_cell(cell), dir)),
        r is Some ==> as_cell(r->0) == step_cell(as_cell(cell), dir),
{
    let (i, j) = cell;
    match dir {
        Direction::North => if i > 0 && i <= DUNGEON_GRID_ROWS && j < DUNGEON_GRID_COLS {
            Some((i - 1, j))
        } else {
            None
        },
        Direction::South => if i < DUNGEON_GRID_ROWS - 1 && j < DUNGEON_GRID_COLS {
            Some((i + 1, j))
        } else {
            None
        },
        Direction::East => if j < DUNGEON_GRID_COLS - 1 && i < DUNGEON_GRID_ROWS {
            Some((i, j + 1))
        } else {
            None
        },
        Direction::West => if j > 0 && j <= DUNGEON_GRID_COLS && i < DUNGEON_GRID_ROWS {
            Some((i, j - 1))
        } else {
            None
        },
    }
}

/// Decides on one neighbour of the room `from`, given the coin that was
/// tossed for it, and admits it to the plan where `admits` says so: the new
/// room gets the next number, is appended to the list one step deeper than
/// `from`, and joins the queue of rooms to grow from.
#[verifier::rlimit(30)]
pub fn try_admit(
    grid: &mut RoomGrid,
    rooms: &mut Vec<Admitted>,
    q: &mut VecDeque<Admitted>,
    from: Admitted,
    dir: Direction,
    coin: bool,
    room_count: usize,
) -> (admitted: bool)
    requires
        plan_wf(*old(grid), old(rooms)@),
        is_room(old(rooms)@, from),
    ensures
        admitted == admits(*old(grid), old(rooms)@.len() as int, room_cell(from), dir, coin, room_count as int),
        plan_wf(*final(grid), final(rooms)@),
        !admitted ==> *final(grid) == *old(grid) && final(rooms)@ == old(rooms)@ && final(q)@ == old(
            q,
        )@,
        admitted ==> {
            let n = step_cell(room_cell(from), dir);
            let room = ((n.0 as usize, n.1 as usize), (from.1 + 1) as usize);
            &&& final(rooms)@ == old(rooms)@.push(room)
            &&& final(q)@ == old(q)@.push(room)
            &&& final(grid)[n.0][n.1] == old(rooms)@.len() + 1
            &&& forall|c: Cell| in_plan(c) && c != n ==> final(grid)[c.0][c.1] == old(grid)[c.0][c.1]
        },
{
    let ghost grid_before = *grid;
    let ghost rooms_before = rooms@;
    let ghost parent = choose|k: int| 0 <= k < rooms@.len() && #[trigger] rooms@[k] == from;
    let target = neighbour(from.0, dir);
    if !coin || rooms.len() >= room_count {
        return false;
    }
    match target {
        None => false,
        Some(n) => {
            if grid[n.0][n.1] != 0 || Dungeon::check_room_cardinals(grid, n) > 1 {
                false
            } else {
                let room: Admitted = (n, from.1 + 1);
                rooms.push(room);
                grid[n.0][n.1] = rooms.len();
                q.push_back(room);
                proof {
                    let here: Cell = (n.0 as int, n.1 as int);
                    lemma_occupancy_grows(grid_before, *grid, here);
                    let cells_before = plan_cells(grid_before);
                    let cells = plan_cells(*grid);
                    assert(cells_before.subset_of(cells));
                    assert(!occupied(grid_before, here));
                    assert forall|k: int| 0 <= k < rooms@.len() implies in_plan(
                        room_cell(#[trigger] rooms@[k]),
                    ) && grid[room_cell(rooms@[k]).0][room_cell(rooms@[k]).1] == k + 1
                        && rooms@[k].1 <= k by {
                        if k < rooms_before.len() {
                            assert(rooms@[k] == rooms_before[k]);
                            assert(occupied(grid_before, room_cell(rooms_before[k])));
                        }
                    }
                    assert forall|c: Cell| #[trigger] occupied(*grid, c) implies 1 <= grid[c.0][c.1]
                        <= rooms@.len() && room_cell(rooms@[grid[c.0][c.1] - 1]) == c by {
                        if c != here {
                            assert(occupied(grid_before, c));
                            assert(rooms@[grid[c.0][c.1] - 1] == rooms_before[grid[c.0][c.1] - 1]);
                        }
                    }
                    assert(occupied(grid_before, room_cell(from)));
                    assert(cells_before.contains(room_cell(from)));
                    assert forall|c: Cell| cells.contains(c) implies reachable(
                        cells,
                        start_cell(),
                        c,
                    ) by {
                        if c == here {
                            lemma_reachable_grows(
                                cells_before,
                                cells,
                                start_cell(),
                                room_cell(from),
                            );
                            lemma_reachable_step(cells, start_cell(), room_cell(from), here);
                        } else {
                            assert(cells_before.contains(c));
                            lemma_reachable_grows(cells_before, cells, start_cell(), c);
                        }
                    }
                    assert forall|k: int| 1 <= k < rooms@.len() implies #[trigger] has_parent(
                        rooms@,
                        k,
                    ) by {
                        if k < rooms_before.len() {
                            assert(has_parent(rooms_before, k));
                            let p = choose|p: int|
                                0 <= p < k && #[trigger] adjacent(
                                    room_cell(rooms_before[p]),
                                    room_cell(rooms_before[k]),
                                ) && rooms_before[k].1 == rooms_before[p].1 + 1;
                            assert(rooms@[p] == rooms_before[p]);
                            assert(rooms@[k] == rooms_before[k]);
                            assert(adjacent(room_cell(rooms@[p]), room_cell(rooms@[k])));
                        } else {
                            assert(rooms@[parent] == from);
                            assert(adjacent(room_cell(rooms@[parent]), room_cell(rooms@[k])));
                        }
                    }
                }
                true
            }
        },
    }
}

/// The most rooms a plan grown for `room_count` rooms can hold.
pub open spec fn room_budget(room_count: int) -> int {
    if room_count >= 1 {
        room_count
    } else {
        1
    }
}

proof fn lemma_is_room_after_push(rooms: Seq<Admitted>, added: Admitted, r: Admitted)
    ensures
        is_room(rooms, r) ==> is_room(rooms.push(added), r),
        is_room(rooms.push(added), added),
{
    let grown = rooms.push(added);
    if is_room(rooms, r) {
        let k = choose|k: int| 0 <= k < rooms.len() && #[trigger] rooms[k] == r;
        assert(grown[k] == r);
    }
    assert(grown[rooms.len() as int] == added);
}

spec fn queue_of_rooms(rooms: Seq<Admitted>, q: Seq<Admitted>) -> bool {
    forall|n: int| 0 <= n < q.len() ==> is_room(rooms, #[trigger] q[n])
}

proof fn lemma_queue_after_admit(
    rooms_before: Seq<Admitted>,
    q_before: Seq<Admitted>,
    rooms: Seq<Admitted>,
    q: Seq<Admitted>,
    from: Admitted,
)
    requires
        queue_of_rooms(rooms_before, q_before),
        is_room(rooms_before, from),
        (rooms == rooms_before && q == q_before) || (exists|added: Admitted|
            rooms == rooms_before.push(added) && q == q_before.push(added)),
    ensures
        queue_of_rooms(rooms, q),
        is_room(rooms, from),
{
    if !(rooms == rooms_before && q == q_before) {
        let added = choose|added: Admitted|
            rooms == rooms_before.push(added) && q == q_before.push(added);
        lemma_is_room_after_push(rooms_before, added, from);
        assert forall|n: int| 0 <= n < q.len() implies is_room(rooms, #[trigger] q[n]) by {
            if n < q_before.len() {
                assert(q[n] == q_before[n]);
                lemma_is_room_after_push(rooms_before, added, q_before[n]);
            } else {
                assert(q[n] == added);
                lemma_is_room_after_push(rooms_before, added, added);
            }
        }
    }
}

/// Grows a plan from the start room, breadth first. For each room taken from
/// the queue a coin is tossed for each of its neighbours to the south, north,
/// east and west, in this order, and `try_admit` decides on it. Whatever the
/// coins show, the plan that comes back is well formed and holds at most
/// `room_count` rooms (one, where `room_count` is 0).
pub fn expand_plan(room_count: usize) -> (plan: (RoomGrid, Vec<Admitted>))
    ensures
        plan_wf(plan.0, plan.1@),
        plan.1@.len() <= room_budget(room_count as int),
{
    let mut grid: RoomGrid = [[0usize; DUNGEON_GRID_COLS]; DUNGEON_GRID_ROWS];
    let mut rooms: Vec<Admitted> = Vec::new();
    let mut q: VecDeque<Admitted> = VecDeque::new();
    let start: Admitted = ((START_ROW, START_COL), 0);
    q.push_back(start);
    rooms.push(start);
    grid[START_ROW][START_COL] = 1;
    proof {
        let cells = plan_cells(grid);
        assert forall|c: Cell| cells.contains(c) implies reachable(cells, start_cell(), c) by {
            assert(c == start_cell());
            lemma_reachable_self(cells, start_cell());
        }
        lemma_occupancy_of_start(grid);
        assert(rooms@[0] == start);
        assert(is_room(rooms@, q@[0]));
    }
    while q.len() > 0
        invariant
            plan_wf(grid, rooms@),
            queue_of_rooms(rooms@, q@),
            rooms@.len() <= room_budget(room_count as int),
        decreases 2 * (room_budget(room_count as int) - rooms@.len()) + q@.len(),
    {
        let ghost q_full = q@;
        let front = q.pop_front();
        let from = front.unwrap();
        proof {
            assert(is_room(rooms@, q_full[0]));
            assert forall|n: int| 0 <= n < q@.len() implies is_room(rooms@, #[trigger] q@[n]) by {
                assert(q@[n] == q_full[n + 1]);
            }
        }
        let ghost rooms_0 = rooms@;
        let ghost q_0 = q@;
        let coin = gen_ratio(1, 2);
        try_admit(&mut grid, &mut rooms, &mut q, from, Direction::South, coin, room_count);
        proof {
            lemma_queue_after_admit(rooms_0, q_0, rooms@, q@, from);
        }
        let ghost rooms_1 = rooms@;
        let ghost q_1 = q@;
        let coin = gen_ratio(1, 2);
        try_admit(&mut grid, &mut rooms, &mut q, from, Direction::North, coin, room_count);
        proof {
            lemma_queue_after_admit(rooms_1, q_1, rooms@, q@, from);
        }
        let ghost rooms_2 = rooms@;
        let ghost q_2 = q@;
        let coin = gen_ratio(1, 2);
        try_admit(&mut grid, &mut rooms, &mut q, from, Direction::East, coin, room_count);
        proof {
            lemma_queue_after_admit(rooms_2, q_2, rooms@, q@, from);
        }
        let ghost rooms_3 = rooms@;
        let ghost q_3 = q@;
        let coin = gen_ratio(1, 2);
        try_admit(&mut grid, &mut rooms, &mut q, from, Direction::West, coin, room_count);
        proof {
            lemma_queue_after_admit(rooms_3, q_3, rooms@, q@, from);
        }
    }
    (grid, rooms)
}

/// The fewest rooms a level holds.
pub open spec fn min_room_count(level: u32) -> int {
    5 + 2 * level
}

/// Every room of a well-formed plan is met by the walk from the start.
pub proof fn lemma_plan_numbers_reachable(grid: RoomGrid, rooms: Seq<Admitted>)
    requires
        plan_wf(grid, rooms),
    ensures
        numbers_reachable(grid, rooms.len() as int),
{
    assert forall|k: int| 1 <= k <= rooms.len() implies #[trigger] number_reachable(grid, k) by {
        let c = room_cell(rooms[k - 1]);
        assert(occupied(grid, c));
        assert(plan_cells(grid).contains(c));
        assert(reachable(plan_cells(grid), start_cell(), c) && in_plan(c) && grid[c.0][c.1] == k);
    }
}

/// A well-formed plan holds at most as many rooms as the grid has slots, so
/// no plan exists for a level that asks for more.
pub proof fn lemma_plan_fits_grid(grid: RoomGrid, rooms: Seq<Admitted>, level: u32)
    requires
        plan_wf(grid, rooms),
    ensures
        rooms.len() <= 72,
        level >= 34 ==> rooms.len() < min_room_count(level),
{
    lemma_count_set_bound(occupancy(grid), 72);
}

/// Draws the plan of a level. The number of rooms aimed at is 5, plus two for
/// each level, plus a drawn 0 or 1. A plan that ends with fewer rooms, or one
/// that the walk from the start finds inconsistent, is thrown away and the
/// drawing starts over, `MAX_GENERATION_ATTEMPTS` times at most.
///
/// A plan that comes back is well formed and holds exactly the number of
/// rooms aimed at. The grid has 72 slots, so from level 34 on no plan can
/// exist and the answer is the error at once.
pub fn generate_plan(level: u32) -> (r: Result<(RoomGrid, Vec<Admitted>), Errors>)
    ensures
        match r {
            Ok(plan) => {
                &&& plan_wf(plan.0, plan.1@)
                &&& min_room_count(level) <= plan.1@.len() <= min_room_count(level) + 1
                &&& numbers_reachable(plan.0, plan.1@.len() as int)
            },
            Err(e) => e == Errors::GenerationFailed(level),
        },
        level >= 34 ==> r is Err,
{
    if level >= 34 {
        return Err(Errors::GenerationFailed(level));
    }
    let mut attempt: u32 = 0;
    while attempt < MAX_GENERATION_ATTEMPTS
        invariant
            level < 34,
        decreases MAX_GENERATION_ATTEMPTS - attempt,
    {
        attempt += 1;
        let jitter = gen_below(2);
        let level_rooms: usize = level as usize;
        let room_count: usize = jitter + BASE_ROOM_COUNT + level_rooms * 2;
        let (grid, rooms) = expand_plan(room_count);
        if rooms.len() >= room_count {
            if Dungeon::check_dungeon_consistency(&grid, room_count) {
                return Ok((grid, rooms));
            }
        }
    }
    Err(Errors::GenerationFailed(level))
}

} // verus!
