use vstd::prelude::*;
use std::collections::VecDeque;
use crate::chance::{gen_below, gen_ratio};
use crate::consts::{ROOM_HEIGHT, ROOM_WIDTH};
use crate::dungeon::{Block, BlockTag, Room, RoomState, RoomTag, TileGrid};
use crate::field::in_room;
use crate::graph::{
    adjacent, as_cell, count_set, lemma_count_set_bound, lemma_count_set_update,
    lemma_queued_after_pop, lemma_queued_after_push, queued, Cell,
};
use crate::enemies::Enemy;
use crate::items::{Collectable, CollectableState, CollectableTag};
use crate::player::Player;
use crate::utils::ActorState;

verus! {

/// The flag of position `k`; a position that has no flag counts as clear.
pub open spec fn flag_at(flags: Seq<bool>, k: int) -> bool {
    0 <= k < flags.len() && flags[k]
}

/// The first `n` items without those whose position is flagged, in their order.
pub open spec fn unflagged<T>(items: Seq<T>, flags: Seq<bool>, n: int) -> Seq<T>
    decreases n,
{
    if n <= 0 {
        Seq::empty()
    } else if flag_at(flags, n - 1) {
        unflagged(items, flags, n - 1)
    } else {
        unflagged(items, flags, n - 1).push(items[n - 1])
    }
}

/// The flagged positions below `n`, in rising order.
pub open spec fn flagged_positions(flags: Seq<bool>, n: int) -> Seq<usize>
    decreases n,
{
    if n <= 0 {
        Seq::empty()
    } else if flag_at(flags, n - 1) {
        flagged_positions(flags, n - 1).push((n - 1) as usize)
    } else {
        flagged_positions(flags, n - 1)
    }
}

/// For each enemy, whether it is dead.
pub open spec fn dead_flags(enemies: Seq<Enemy>) -> Seq<bool> {
    Seq::new(enemies.len(), |k: int| enemies[k].state == ActorState::Dead)
}

/// For each drop, whether it is consumed.
pub open spec fn consumed_flags(drops: Seq<Collectable>) -> Seq<bool> {
    Seq::new(drops.len(), |k: int| drops[k].state == CollectableState::Consumed)
}

/// An obstacle kind with its door or hatch set open or closed; any other kind as it is.
pub open spec fn with_open(tag: BlockTag, open: bool) -> BlockTag {
    match tag {
        BlockTag::Door { dir, is_open, connects_to } => BlockTag::Door {
            dir,
            is_open: open,
            connects_to,
        },
        BlockTag::Hatch(_) => BlockTag::Hatch(open),
        _ => tag,
    }
}

/// The obstacles with every one that the first `n` entries of `doors` list set
/// open or closed.
pub open spec fn doors_set(obstacles: Seq<Block>, doors: Seq<usize>, n: int, open: bool) -> Seq<
    Block,
> {
    Seq::new(
        obstacles.len(),
        |k: int|
            if exists|d: int| 0 <= d < n && d < doors.len() && #[trigger] doors[d] == k {
                Block { tile: obstacles[k].tile, tag: with_open(obstacles[k].tag, open) }
            } else {
                obstacles[k]
            },
    )
}

/// One of the listed doors stands open.
pub open spec fn some_door_open(obstacles: Seq<Block>, doors: Seq<usize>, n: int) -> bool {
    exists|d: int|
        0 <= d < n && d < doors.len() && (#[trigger] doors[d]) < obstacles.len()
            && obstacles[doors[d] as int].tag matches BlockTag::Door { is_open: true, .. }
}

/// What a drop gives, decided by a number drawn from 0 to 100 and, for a
/// heart, by a coin for its size.
pub open spec fn drop_tag_of(p: usize, full: bool) -> CollectableTag {
    if p <= 50 {
        CollectableTag::RedHeart(
            if full {
                100
            } else {
                50
            },
        )
    } else if p <= 65 {
        CollectableTag::SpeedBoost(130)
    } else if p <= 80 {
        CollectableTag::DamageBoost(150)
    } else {
        CollectableTag::ShootRateBoost(130)
    }
}

/// A drop as it appears in a cleared room.
pub open spec fn is_fresh_drop(drop: Collectable) -> bool {
    &&& drop.state == CollectableState::Base
    &&& drop.tile.0 < 9
    &&& drop.tile.1 < 15
    &&& exists|p: usize, full: bool| p <= 100 && drop.tag == #[trigger] drop_tag_of(p, full)
}

/// What a tick did to a room, for whoever plays the sounds and keeps the
/// bodies of its actors.
#[derive(Debug)]
pub struct RoomReport {
    /// The positions that the dead enemies had in the room's list.
    pub dead_enemies: Vec<usize>,
    /// The positions that the spent shots had in the room's list.
    pub dead_shots: Vec<usize>,
    /// The positions that the consumed drops had in the room's list.
    pub dead_drops: Vec<usize>,
    /// The room was won in this tick and its doors went open.
    pub doors_opened: bool,
    /// A door that stood open was shut.
    pub doors_closed: bool,
    /// A drop appeared.
    pub drop_spawned: bool,
}

/// Takes the flagged items out of a list and gives the positions they had.
pub fn prune<T: Copy>(items: &mut Vec<T>, flags: &Vec<bool>) -> (removed: Vec<usize>)
    ensures
        final(items)@ == unflagged(old(items)@, flags@, old(items)@.len() as int),
        removed@ == flagged_positions(flags@, old(items)@.len() as int),
{
    let mut kept: Vec<T> = Vec::new();
    let mut removed: Vec<usize> = Vec::new();
    let mut k: usize = 0;
    while k < items.len()
        invariant
            0 <= k <= items.len(),
            items@ == old(items)@,
            kept@ == unflagged(items@, flags@, k as int),
            removed@ == flagged_positions(flags@, k as int),
        decreases items.len() - k,
    {
        if k < flags.len() && flags[k] {
            removed.push(k);
        } else {
            kept.push(items[k]);
        }
        k += 1;
    }
    *items = kept;
    removed
}

/// What a drop gives, decided by a number drawn from 0 to 100 and, for a
/// heart, by a coin for its size: up to 50 a heart, half or full; up to 65 a
/// boost of speed; up to 80 a boost of damage; above that a boost of the
/// rate of fire.
pub fn drop_tag(p: usize, full: bool) -> (tag: CollectableTag)
    ensures
        tag == drop_tag_of(p, full),
{
    if p <= 50 {
        if full {
            CollectableTag::RedHeart(100)
        } else {
            CollectableTag::RedHeart(50)
        }
    } else if p <= 65 {
        CollectableTag::SpeedBoost(130)
    } else if p <= 80 {
        CollectableTag::DamageBoost(150)
    } else {
        CollectableTag::ShootRateBoost(130)
    }
}

/// An obstacle kind with its door or hatch set open or closed.
pub fn set_open(tag: BlockTag, open: bool) -> (r: BlockTag)
    ensures
        r == with_open(tag, open),
{
    match tag {
        BlockTag::Door { dir, is_open, connects_to } => BlockTag::Door {
            dir,
            is_open: open,
            connects_to,
        },
        BlockTag::Hatch(_) => BlockTag::Hatch(open),
        _ => tag,
    }
}

impl Room {
    /// For each enemy of the room, whether it is dead.
    pub fn dead_enemies(&self) -> (flags: Vec<bool>)
        ensures
            flags@ == dead_flags(self.enemies@),
    {
        let mut flags: Vec<bool> = Vec::new();
        let mut k: usize = 0;
        while k < self.enemies.len()
            invariant
                0 <= k <= self.enemies.len(),
                flags@.len() == k,
                forall|m: int|
                    0 <= m < k ==> flags@[m] == (self.enemies@[m].state == ActorState::Dead),
            decreases self.enemies.len() - k,
        {
            let dead = match self.enemies[k].state {
                ActorState::Dead => true,
                _ => false,
            };
            flags.push(dead);
            k += 1;
        }
        assert(flags@ =~= dead_flags(self.enemies@));
        flags
    }

    /// For each drop of the room, whether it is consumed.
    pub fn consumed_drops(&self) -> (flags: Vec<bool>)
        ensures
            flags@ == consumed_flags(self.drops@),
    {
        let mut flags: Vec<bool> = Vec::new();
        let mut k: usize = 0;
        while k < self.drops.len()
            invariant
                0 <= k <= self.drops.len(),
                flags@.len() == k,
                forall|m: int|
                    0 <= m < k ==> flags@[m] == (self.drops@[m].state
                        == CollectableState::Consumed),
            decreases self.drops.len() - k,
        {
            let consumed = match self.drops[k].state {
                CollectableState::Consumed => true,
                CollectableState::Base => false,
            };
            flags.push(consumed);
            k += 1;
        }
        assert(flags@ =~= consumed_flags(self.drops@));
        flags
    }

    /// Sets the doors and hatches that the room lists open or closed. Says
    /// whether a door was open before.
    pub fn set_doors(&mut self, open: bool) -> (was_open: bool)
        ensures
            final(self).obstacles@ == doors_set(
                old(self).obstacles@,
                old(self).doors@,
                old(self).doors@.len() as int,
                open,
            ),
            was_open == some_door_open(
                old(self).obstacles@,
                old(self).doors@,
                old(self).doors@.len() as int,
            ),
            final(self).tag == old(self).tag,
            final(self).state == old(self).state,
            final(self).width == old(self).width,
            final(self).height == old(self).height,
            final(self).grid == old(self).grid,
            final(self).dungeon_coords == old(self).dungeon_coords,
            final(self).doors == old(self).doors,
            final(self).enemies == old(self).enemies,
            final(self).shots == old(self).shots,
            final(self).drops == old(self).drops,
    {
        let ghost before = self.obstacles@;
        let ghost doors = self.doors@;
        let mut was_open = false;
        let mut d: usize = 0;
        while d < self.doors.len()
            invariant
                0 <= d <= self.doors.len(),
                *self == *old(self),
                before == self.obstacles@,
                doors == self.doors@,
                was_open == some_door_open(before, doors, d as int),
            decreases self.doors.len() - d,
        {
            let at = self.doors[d];
            if at < self.obstacles.len() {
                match self.obstacles[at].tag {
                    BlockTag::Door { is_open, .. } => {
                        if is_open {
                            was_open = true;
                            proof {
                                assert(doors[d as int] < before.len() && before[doors[d as int] as int].tag matches BlockTag::Door {
                                    is_open: true,
                                    ..
                                });
                                assert(some_door_open(before, doors, d + 1));
                            }
                        }
                    },
                    _ => {},
                }
            }
            proof {
                if some_door_open(before, doors, d + 1) && !some_door_open(before, doors, d as int) {
                    let e = choose|e: int|
                        0 <= e < d + 1 && e < doors.len() && (#[trigger] doors[e]) < before.len()
                            && before[doors[e] as int].tag matches BlockTag::Door {
                            is_open: true,
                            ..
                        };
                    assert(e == d);
                }
                if some_door_open(before, doors, d as int) {
                    let e = choose|e: int|
                        0 <= e < d && e < doors.len() && (#[trigger] doors[e]) < before.len()
                            && before[doors[e] as int].tag matches BlockTag::Door {
                            is_open: true,
                            ..
                        };
                    assert(0 <= e < d + 1);
                }
            }
            d += 1;
        }
        let mut d: usize = 0;
        assert(self.obstacles@ =~= doors_set(before, doors, 0, open));
        while d < self.doors.len()
            invariant
                0 <= d <= self.doors.len(),
                self.doors@ == doors,
                before.len() == self.obstacles@.len(),
                self.obstacles@ == doors_set(before, doors, d as int, open),
                self.tag == old(self).tag,
                self.state == old(self).state,
                self.width == old(self).width,
                self.height == old(self).height,
                self.grid == old(self).grid,
                self.dungeon_coords == old(self).dungeon_coords,
                self.doors == old(self).doors,
                self.enemies == old(self).enemies,
                self.shots == old(self).shots,
                self.drops == old(self).drops,
            decreases self.doors.len() - d,
        {
            let at = self.doors[d];
            let ghost shown = self.obstacles@;
            if at < self.obstacles.len() {
                let block = self.obstacles[at];
                self.obstacles.set(at, Block { tile: block.tile, tag: set_open(block.tag, open) });
            }
            proof {
                assert(doors[d as int] == at);
                assert forall|k: int| 0 <= k < before.len() implies self.obstacles@[k] == doors_set(
                    before,
                    doors,
                    d + 1,
                    open,
                )[k] by {
                    if k == at {
                        assert(with_open(with_open(before[k].tag, open), open) == with_open(
                            before[k].tag,
                            open,
                        ));
                    } else {
                        assert(self.obstacles@[k] == shown[k]);
                        if exists|e: int|
                            0 <= e < d + 1 && e < doors.len() && #[trigger] doors[e] == k {
                            let e = choose|e: int|
                                0 <= e < d + 1 && e < doors.len() && #[trigger] doors[e] == k;
                            assert(e < d);
                        }
                    }
                }
                assert(self.obstacles@ =~= doors_set(before, doors, d + 1, open));
            }
            d += 1;
        }
        was_open
    }
}

/// One flag for each tile of a room.
pub type TileFlags = [[bool; ROOM_WIDTH]; ROOM_HEIGHT];

/// The tile in the middle of a room.
pub open spec fn center() -> Cell {
    (4, 7)
}

/// How many steps along the rows and columns lie between a tile and the
/// middle of the room.
pub open spec fn center_distance(c: Cell) -> int {
    (if c.0 >= 4 {
        c.0 - 4
    } else {
        4 - c.0
    }) + (if c.1 >= 7 {
        c.1 - 7
    } else {
        7 - c.1
    })
}

/// The tile is free in the room's grid.
pub open spec fn is_free(grid: TileGrid, c: Cell) -> bool {
    in_room(c) && grid[c.0][c.1] == 0
}

/// `c` is a free tile and no free tile lies nearer to the middle of the
/// room; or the room has no free tile and `c` is the middle.
pub open spec fn nearest_free(grid: TileGrid, c: Cell) -> bool {
    if exists|f: Cell| is_free(grid, f) {
        is_free(grid, c) && forall|f: Cell| #[trigger]
            is_free(grid, f) ==> center_distance(c) <= center_distance(f)
    } else {
        c == center()
    }
}

spec fn seen(flags: TileFlags, c: Cell) -> bool {
    in_room(c) && flags[c.0][c.1]
}

spec fn tile_flags(flags: TileFlags) -> Seq<bool> {
    Seq::new(135, |k: int| flags[k / 15][k % 15])
}

/// What holds of the sweep from the middle of the room between two tiles:
/// `level` is the distance of the head of the queue.
spec fn sweep_state(grid: TileGrid, flags: TileFlags, q: Seq<(usize, usize)>, level: int) -> bool {
    &&& forall|c: Cell| #[trigger] seen(flags, c) ==> grid[c.0][c.1] != 0
    &&& forall|k: int|
        0 <= k < q.len() ==> in_room(as_cell(#[trigger] q[k])) && level <= center_distance(
            as_cell(q[k]),
        ) <= level + 1
    &&& forall|a: int, b: int|
        0 <= a < b < q.len() ==> center_distance(as_cell(#[trigger] q[a])) <= center_distance(
            as_cell(#[trigger] q[b]),
        )
    &&& q.len() > 0 ==> center_distance(as_cell(q[0])) == level
    &&& forall|v: Cell, n: Cell|
        seen(flags, v) && in_room(n) && #[trigger] adjacent(v, n) ==> seen(flags, n) || queued(
            q,
            n,
        )
    &&& seen(flags, center()) || queued(q, center())
    &&& forall|c: Cell| in_room(c) && center_distance(c) < level ==> #[trigger] seen(flags, c)
}

/// A tile other than the middle has a neighbour in the room that lies one
/// step nearer to the middle.
proof fn lemma_step_inward(c: Cell) -> (n: Cell)
    requires
        in_room(c),
        c != center(),
    ensures
        in_room(n),
        adjacent(n, c),
        center_distance(n) == center_distance(c) - 1,
{
    if c.0 > 4 {
        (c.0 - 1, c.1)
    } else if c.0 < 4 {
        (c.0 + 1, c.1)
    } else if c.1 > 7 {
        (c.0, c.1 - 1)
    } else {
        (c.0, c.1 + 1)
    }
}

/// The sweep goes on with the rest of the queue once its head has been seen.
proof fn lemma_sweep_advances(
    grid: TileGrid,
    flags: TileFlags,
    q: Seq<(usize, usize)>,
    p: Cell,
    level: int,
) -> (next: int)
    requires
        in_room(p),
        seen(flags, p),
        center_distance(p) == level,
        forall|c: Cell| #[trigger] seen(flags, c) ==> grid[c.0][c.1] != 0,
        forall|k: int|
            0 <= k < q.len() ==> in_room(as_cell(#[trigger] q[k])) && level <= center_distance(
                as_cell(q[k]),
            ) <= level + 1,
        forall|a: int, b: int|
            0 <= a < b < q.len() ==> center_distance(as_cell(#[trigger] q[a])) <= center_distance(
                as_cell(#[trigger] q[b]),
            ),
        forall|v: Cell, n: Cell|
            seen(flags, v) && in_room(n) && #[trigger] adjacent(v, n) ==> seen(flags, n) || queued(
                q,
                n,
            ),
        seen(flags, center()) || queued(q, center()),
        forall|c: Cell| in_room(c) && center_distance(c) < level ==> #[trigger] seen(flags, c),
    ensures
        sweep_state(grid, flags, q, next),
        q.len() > 0 ==> next == center_distance(as_cell(q[0])),
{
    let next = if q.len() > 0 {
        center_distance(as_cell(q[0]))
    } else {
        level + 1
    };
    assert forall|c: Cell| in_room(c) && center_distance(c) < next implies #[trigger] seen(
        flags,
        c,
    ) by {
        if center_distance(c) == level {
            // a tile of the level that ends here cannot still wait
            if queued(q, c) {
                let k = choose|k: int| 0 <= k < q.len() && as_cell(#[trigger] q[k]) == c;
                if k > 0 {
                    assert(center_distance(as_cell(q[0])) <= center_distance(as_cell(q[k])));
                }
                assert(false);
            }
            if c != center() {
                let n = lemma_step_inward(c);
                assert(seen(flags, n));
                assert(adjacent(n, c));
            }
        }
    }
    assert forall|k: int| 0 <= k < q.len() implies in_room(as_cell(#[trigger] q[k])) && next
        <= center_distance(as_cell(q[k])) <= next + 1 by {
        if k > 0 {
            assert(center_distance(as_cell(q[0])) <= center_distance(as_cell(q[k])));
        }
    }
    next
}

/// Once the queue of the sweep is empty every tile of the room has been seen.
proof fn lemma_sweep_is_complete(grid: TileGrid, flags: TileFlags, level: int, c: Cell)
    requires
        sweep_state(grid, flags, Seq::empty(), level),
        in_room(c),
    ensures
        seen(flags, c),
    decreases center_distance(c),
{
    let none = Seq::<(usize, usize)>::empty();
    if c == center() {
        assert(!queued(none, center()));
    } else {
        let n = lemma_step_inward(c);
        lemma_sweep_is_complete(grid, flags, level, n);
        assert(adjacent(n, c));
        assert(!queued(none, c));
    }
}

proof fn lemma_tile_seen(before: TileFlags, after: TileFlags, at: Cell)
    requires
        in_room(at),
        !before[at.0][at.1],
        after[at.0][at.1],
        forall|c: Cell| in_room(c) && c != at ==> after[c.0][c.1] == before[c.0][c.1],
    ensures
        count_set(tile_flags(after), 135) == count_set(tile_flags(before), 135) + 1,
        count_set(tile_flags(after), 135) <= 135,
{
    let k = at.0 * 15 + at.1;
    assert(k / 15 == at.0 && k % 15 == at.1);
    assert forall|m: int| 0 <= m < 135 && m != k implies tile_flags(before)[m] == tile_flags(
        after,
    )[m] by {
        assert(in_room((m / 15, m % 15)));
    }
    lemma_count_set_update(tile_flags(before), tile_flags(after), k, 135);
    lemma_count_set_bound(tile_flags(after), 135);
}

impl Room {
    /// The free tile nearest to the middle of the room, found by a sweep
    /// that spreads from the middle over all tiles, breadth first, to the
    /// north, west, south and east of each tile in this order. The middle
    /// itself where the room has no free tile.
    #[verifier::rlimit(30)]
    pub fn nearest_free_tile(&self) -> (tile: (usize, usize))
        ensures
            in_room(as_cell(tile)),
            nearest_free(self.grid, as_cell(tile)),
    {
        let mut flags: TileFlags = [[false; ROOM_WIDTH]; ROOM_HEIGHT];
        let mut q: VecDeque<(usize, usize)> = VecDeque::new();
        q.push_back((ROOM_HEIGHT / 2, ROOM_WIDTH / 2));
        let ghost mut level: int = 0;
        proof {
            assert(q@[0] == (4usize, 7usize));
            assert(queued(q@, center()));
            lemma_count_set_bound(tile_flags(flags), 135);
            assert forall|c: Cell| in_room(c) && center_distance(c) < 0 implies #[trigger] seen(
                flags,
                c,
            ) by {}
        }
        while q.len() > 0
            invariant
                sweep_state(self.grid, flags, q@, level),
                count_set(tile_flags(flags), 135) <= 135,
            decreases 135 - count_set(tile_flags(flags), 135), q@.len(),
        {
            let ghost q_full = q@;
            let ghost flags_before = flags;
            let head = q.pop_front();
            let (i, j) = head.unwrap();
            let ghost p: Cell = (i as int, j as int);
            proof {
                assert(q_full[0] == (i, j));
                assert(in_room(p));
                assert forall|c: Cell| queued(q_full, c) && c != p implies queued(q@, c) by {
                    lemma_queued_after_pop(q_full, c);
                }
                assert forall|k: int| 0 <= k < q@.len() implies in_room(as_cell(#[trigger] q@[k]))
                    && level <= center_distance(as_cell(q@[k])) <= level + 1 by {
                    assert(q@[k] == q_full[k + 1]);
                }
                assert forall|a: int, b: int| 0 <= a < b < q@.len() implies center_distance(
                    as_cell(#[trigger] q@[a]),
                ) <= center_distance(as_cell(#[trigger] q@[b])) by {
                    assert(q@[a] == q_full[a + 1]);
                    assert(q@[b] == q_full[b + 1]);
                }
            }
            if !flags[i][j] {
                flags[i][j] = true;
                proof {
                    lemma_tile_seen(flags_before, flags, p);
                }
                if self.grid[i][j] == 0 {
                    proof {
                        assert(is_free(self.grid, p));
                        assert forall|f: Cell| #[trigger] is_free(self.grid, f) implies center_distance(
                            p,
                        ) <= center_distance(f) by {
                            if center_distance(f) < level {
                                assert(seen(flags_before, f));
                            }
                        }
                    }
                    return (i, j);
                }
                let ghost q_0 = q@;
                if i > 0 && !flags[i - 1][j] {
                    q.push_back((i - 1, j));
                }
                let ghost q_1 = q@;
                if j > 0 && !flags[i][j - 1] {
                    q.push_back((i, j - 1));
                }
                let ghost q_2 = q@;
                if i < ROOM_HEIGHT - 1 && !flags[i + 1][j] {
                    q.push_back((i + 1, j));
                }
                let ghost q_3 = q@;
                if j < ROOM_WIDTH - 1 && !flags[i][j + 1] {
                    q.push_back((i, j + 1));
                }
                proof {
                    assert forall|c: Cell| queued(q_0, c) implies queued(q@, c) by {
                        lemma_queued_after_push(q_0, ((i - 1) as usize, j), c);
                        lemma_queued_after_push(q_1, (i, (j - 1) as usize), c);
                        lemma_queued_after_push(q_2, ((i + 1) as usize, j), c);
                        lemma_queued_after_push(q_3, (i, (j + 1) as usize), c);
                    }
                    assert forall|c: Cell| #[trigger] seen(flags, c) implies self.grid[c.0][c.1]
                        != 0 by {
                        if c != p {
                            assert(seen(flags_before, c));
                        }
                    }
                    // a neighbour that was not seen lies one step further out
                    assert forall|n: Cell|
                        in_room(n) && #[trigger] adjacent(p, n) && !seen(
                            flags,
                            n,
                        ) implies center_distance(n) == level + 1 && queued(q@, n) by {
                        if center_distance(n) < level {
                            assert(seen(flags_before, n));
                        }
                        lemma_queued_after_push(q_0, ((i - 1) as usize, j), n);
                        lemma_queued_after_push(q_1, (i, (j - 1) as usize), n);
                        lemma_queued_after_push(q_2, ((i + 1) as usize, j), n);
                        lemma_queued_after_push(q_3, (i, (j + 1) as usize), n);
                    }
                    assert forall|k: int| 0 <= k < q@.len() implies in_room(as_cell(#[trigger] q@[k]))
                        && level <= center_distance(as_cell(q@[k])) <= level + 1 by {
                        if k < q_0.len() {
                            assert(q@[k] == q_0[k]);
                        } else {
                            let n = as_cell(q@[k]);
                            assert(adjacent(p, n));
                            assert(!seen(flags, n));
                        }
                    }
                    assert forall|a: int, b: int| 0 <= a < b < q@.len() implies center_distance(
                        as_cell(#[trigger] q@[a]),
                    ) <= center_distance(as_cell(#[trigger] q@[b])) by {
                        if b < q_0.len() {
                            assert(q@[a] == q_0[a]);
                            assert(q@[b] == q_0[b]);
                        } else {
                            let n = as_cell(q@[b]);
                            assert(adjacent(p, n));
                            assert(!seen(flags, n));
                        }
                    }
                    assert forall|v: Cell, n: Cell|
                        seen(flags, v) && in_room(n) && #[trigger] adjacent(v, n) implies seen(
                        flags,
                        n,
                    ) || queued(q@, n) by {
                        if v != p && !seen(flags, n) {
                            assert(seen(flags_before, v));
                            assert(queued(q_full, n));
                        }
                    }
                    assert forall|c: Cell|
                        in_room(c) && center_distance(c) < level implies #[trigger] seen(
                        flags,
                        c,
                    ) by {
                        assert(seen(flags_before, c));
                    }
                    level = lemma_sweep_advances(self.grid, flags, q@, p, level);
                }
            } else {
                proof {
                    assert(seen(flags, p));
                    assert forall|v: Cell, n: Cell|
                        seen(flags, v) && in_room(n) && #[trigger] adjacent(v, n) implies seen(
                        flags,
                        n,
                    ) || queued(q@, n) by {}
                    level = lemma_sweep_advances(self.grid, flags, q@, p, level);
                }
            }
        }
        proof {
            assert(q@ =~= Seq::<(usize, usize)>::empty());
            assert forall|f: Cell| !is_free(self.grid, f) by {
                if in_room(f) {
                    lemma_sweep_is_complete(self.grid, flags, level, f);
                }
            }
        }
        (ROOM_HEIGHT / 2, ROOM_WIDTH / 2)
    }
}

/// The room after a tick, apart from a drop that may have appeared.
///
/// Dead enemies, spent shots and consumed drops are gone. A room without
/// enemies is cleared; where it was a mob room or a boss room it becomes an
/// empty room and its doors go open. In a room with enemies the doors are shut.
pub open spec fn ticked(before: Room, after: Room, spent: Seq<bool>) -> bool {
    let enemies = unflagged(
        before.enemies@,
        dead_flags(before.enemies@),
        before.enemies@.len() as int,
    );
    let won = enemies.len() == 0 && (before.tag == RoomTag::Mob || before.tag == RoomTag::Boss);
    &&& after.enemies@ == enemies
    &&& after.shots@ == unflagged(before.shots@, spent, before.shots@.len() as int)
    &&& after.width == before.width
    &&& after.height == before.height
    &&& after.grid == before.grid
    &&& after.dungeon_coords == before.dungeon_coords
    &&& after.doors == before.doors
    &&& after.state == if enemies.len() == 0 {
        RoomState::Cleared
    } else {
        before.state
    }
    &&& after.tag == if won {
        RoomTag::Empty
    } else {
        before.tag
    }
    &&& after.obstacles@ == if enemies.len() > 0 {
        doors_set(before.obstacles@, before.doors@, before.doors@.len() as int, false)
    } else if won {
        doors_set(before.obstacles@, before.doors@, before.doors@.len() as int, true)
    } else {
        before.obstacles@
    }
}

/// The room was won in the tick: its last enemy is dead and it was a mob
/// room or a boss room.
pub open spec fn won_now(before: Room) -> bool {
    unflagged(before.enemies@, dead_flags(before.enemies@), before.enemies@.len() as int).len()
        == 0 && (before.tag == RoomTag::Mob || before.tag == RoomTag::Boss)
}

impl Room {
    /// Draws whether a drop appears, four times in five, and what it is; the
    /// drop appears on the free tile nearest to the middle of the room. Says
    /// whether one appeared.
    pub fn generate_collectable(&mut self) -> (spawned: bool)
        ensures
            spawned ==> final(self).drops@.len() == old(self).drops@.len() + 1 && final(self).drops@.drop_last() == old(self).drops@ && is_fresh_drop(final(self).drops@.last())
                && nearest_free(old(self).grid, as_cell(final(self).drops@.last().tile)),
            !spawned ==> final(self).drops@ == old(self).drops@,
            final(self).tag == old(self).tag,
            final(self).state == old(self).state,
            final(self).width == old(self).width,
            final(self).height == old(self).height,
            final(self).grid == old(self).grid,
            final(self).dungeon_coords == old(self).dungeon_coords,
            final(self).doors == old(self).doors,
            final(self).obstacles == old(self).obstacles,
            final(self).enemies == old(self).enemies,
            final(self).shots == old(self).shots,
    {
        let appears = gen_ratio(4, 5);
        let p = if appears {
            gen_below(101)
        } else {
            0
        };
        let full = if appears && p <= 50 {
            gen_ratio(1, 2)
        } else {
            false
        };
        let spawned = self.spawn_collectable(appears, p, full);
        proof {
            if spawned {
                let drop = self.drops@.last();
                assert(p <= 100 && drop.tag == drop_tag_of(p, full));
                assert(is_fresh_drop(drop));
            }
        }
        spawned
    }

    /// The bookkeeping of a room at the end of a tick, once its actors have
    /// moved: `spent_shots` flags the shots that flew out their range.
    ///
    /// Dead enemies, spent shots and consumed drops leave the room, and the
    /// report lists the positions they had. If no enemy is left the room is
    /// cleared; a mob room or boss room is then won: it becomes an empty
    /// room, its doors go open, a drop may appear, and the item in the
    /// player's hand has one room less to wait for. While enemies are left
    /// the doors are shut.
    pub fn update(&mut self, player: &mut Player, spent_shots: &Vec<bool>) -> (report: RoomReport)
        ensures
            ticked(*old(self), *final(self), spent_shots@),
            report.dead_enemies@ == flagged_positions(
                dead_flags(old(self).enemies@),
                old(self).enemies@.len() as int,
            ),
            report.dead_shots@ == flagged_positions(spent_shots@, old(self).shots@.len() as int),
            report.dead_drops@ == flagged_positions(
                consumed_flags(old(self).drops@),
                old(self).drops@.len() as int,
            ),
            report.doors_opened == won_now(*old(self)),
            report.doors_closed == (final(self).enemies@.len() > 0 && some_door_open(
                old(self).obstacles@,
                old(self).doors@,
                old(self).doors@.len() as int,
            )),
            report.drop_spawned ==> won_now(*old(self)),
            ({
                let kept = unflagged(
                    old(self).drops@,
                    consumed_flags(old(self).drops@),
                    old(self).drops@.len() as int,
                );
                if report.drop_spawned {
                    &&& final(self).drops@.len() == kept.len() + 1
                    &&& final(self).drops@.drop_last() == kept
                    &&& is_fresh_drop(final(self).drops@.last())
                    &&& nearest_free(old(self).grid, as_cell(final(self).drops@.last().tile))
                } else {
                    final(self).drops@ == kept
                }
            }),
            final(player).state == old(player).state,
            final(player).item == if won_now(*old(self)) {
                match old(player).item {
                    Some(item) => Some(item.after_clear()),
                    None => None,
                }
            } else {
                old(player).item
            },
    {
        let dead = self.dead_enemies();
        let dead_enemies = prune(&mut self.enemies, &dead);
        let dead_shots = prune(&mut self.shots, spent_shots);
        let consumed = self.consumed_drops();
        let dead_drops = prune(&mut self.drops, &consumed);
        let mut doors_opened = false;
        let mut doors_closed = false;
        let mut drop_spawned = false;
        if self.enemies.len() == 0 {
            self.state = RoomState::Cleared;
            match self.tag {
                RoomTag::Mob | RoomTag::Boss => {
                    drop_spawned = self.generate_collectable();
                    self.tag = RoomTag::Empty;
                    self.set_doors(true);
                    doors_opened = true;
                    match player.item {
                        Some(item) => {
                            let mut cooled = item;
                            cooled.cool_down();
                            player.item = Some(cooled);
                        },
                        None => {},
                    }
                },
                _ => {},
            }
        } else {
            doors_closed = self.set_doors(false);
        }
        RoomReport { dead_enemies, dead_shots, dead_drops, doors_opened, doors_closed, drop_spawned }
    }
}

/// What the three draws for a drop do to a room. Where the first draw says
/// that a drop appears, the room gets one more drop, behind the ones it has:
/// at rest, of the kind that the number `p` and the coin `full` decide, on a
/// free tile nearest to the middle of the room (on the middle where no tile
/// is free). Where it says that none appears, the drops stay as they are.
/// Nothing else in the room changes either way.
pub open spec fn drop_placed(before: Room, after: Room, appears: bool, p: usize, full: bool) -> bool {
    &&& after.tag == before.tag
    &&& after.state == before.state
    &&& after.width == before.width
    &&& after.height == before.height
    &&& after.grid == before.grid
    &&& after.dungeon_coords == before.dungeon_coords
    &&& after.doors == before.doors
    &&& after.obstacles == before.obstacles
    &&& after.enemies == before.enemies
    &&& after.shots == before.shots
    &&& if appears {
        &&& after.drops@.len() == before.drops@.len() + 1
        &&& after.drops@.drop_last() == before.drops@
        &&& after.drops@.last().state == CollectableState::Base
        &&& after.drops@.last().tag == drop_tag_of(p, full)
        &&& in_room(as_cell(after.drops@.last().tile))
        &&& nearest_free(before.grid, as_cell(after.drops@.last().tile))
    } else {
        after.drops@ == before.drops@
    }
}

impl Room {
    /// Puts a drop into the room as three draws decide: `appears` says
    /// whether there is a drop at all, the number `p` which kind it is, and
    /// the coin `full` whether a heart is a full one. The drop appears on
    /// the free tile nearest to the middle of the room. Says whether one
    /// appeared.
    pub fn spawn_collectable(&mut self, appears: bool, p: usize, full: bool) -> (spawned: bool)
        ensures
            spawned == appears,
            drop_placed(*old(self), *final(self), appears, p, full),
    {
        if !appears {
            return false;
        }
        let tile = self.nearest_free_tile();
        let drop = Collectable { tile, tag: drop_tag(p, full), state: CollectableState::Base };
        self.drops.push(drop);
        proof {
            assert(self.drops@.drop_last() =~= old(self).drops@);
        }
        true
    }
}

/// For each position below `n`, whether the list names it.
pub open spec fn listed_flags(positions: Seq<usize>, n: int) -> Seq<bool> {
    Seq::new(n as nat, |k: int| positions.contains(k as usize))
}

/// Takes the items at the listed positions out of a list. Positions beyond
/// the end of the list name nothing.
pub fn remove_positions<T: Copy>(items: &mut Vec<T>, positions: &Vec<usize>)
    ensures
        final(items)@ == unflagged(
            old(items)@,
            listed_flags(positions@, old(items)@.len() as int),
            old(items)@.len() as int,
        ),
{
    let n = items.len();
    let mut flags: Vec<bool> = Vec::new();
    while flags.len() < n
        invariant
            flags.len() <= n,
            forall|k: int| 0 <= k < flags.len() ==> !flags[k],
        decreases n - flags.len(),
    {
        flags.push(false);
    }
    let mut i: usize = 0;
    while i < positions.len()
        invariant
            0 <= i <= positions.len(),
            flags.len() == n,
            forall|k: int|
                0 <= k < n ==> (#[trigger] flags[k] <==> positions@.take(i as int).contains(k as usize)),
        decreases positions.len() - i,
    {
        let at = positions[i];
        let ghost flags_before = flags@;
        if at < n {
            flags.set(at, true);
        }
        proof {
            let before = positions@.take(i as int);
            let after = positions@.take(i + 1);
            assert(after =~= before.push(at));
            assert forall|k: int| 0 <= k < n implies (#[trigger] flags[k] <==> after.contains(
                k as usize,
            )) by {
                if before.contains(k as usize) {
                    let m = choose|m: int| 0 <= m < before.len() && before[m] == k as usize;
                    assert(after[m] == k as usize);
                }
                if k == at {
                    assert(after[i as int] == at);
                }
                if after.contains(k as usize) && k != at {
                    let m = choose|m: int| 0 <= m < after.len() && after[m] == k as usize;
                    assert(m < i);
                    assert(before[m] == k as usize);
                }
            }
        }
        i += 1;
    }
    proof {
        assert(positions@.take(positions@.len() as int) =~= positions@);
        assert(flags@ =~= listed_flags(positions@, n as int));
    }
    prune(items, &flags);
}

/// Every flagged position below `n` lies below `n`.
pub proof fn lemma_flagged_positions_bound(flags: Seq<bool>, n: int, m: int)
    requires
        n <= usize::MAX,
        0 <= m < flagged_positions(flags, n).len(),
    ensures
        flagged_positions(flags, n)[m] < n,
    decreases n,
{
    if n > 0 {
        let rest = flagged_positions(flags, n - 1);
        if m < rest.len() {
            lemma_flagged_positions_bound(flags, n - 1, m);
        }
    }
}

/// The flagged positions are the positions that carry a flag.
pub proof fn lemma_flagged_positions_hold(flags: Seq<bool>, n: int, k: int)
    requires
        0 <= k < n <= usize::MAX,
    ensures
        flagged_positions(flags, n).contains(k as usize) <==> flag_at(flags, k),
    decreases n,
{
    let rest = flagged_positions(flags, n - 1);
    let all = flagged_positions(flags, n);
    if k < n - 1 {
        lemma_flagged_positions_hold(flags, n - 1, k);
        if rest.contains(k as usize) {
            let m = choose|m: int| 0 <= m < rest.len() && rest[m] == k as usize;
            assert(all[m] == k as usize);
        }
        if all.contains(k as usize) {
            let m = choose|m: int| 0 <= m < all.len() && all[m] == k as usize;
            assert(rest[m] == k as usize);
        }
    } else {
        if flag_at(flags, k) {
            assert(all[rest.len() as int] == k as usize);
        }
        if all.contains(k as usize) {
            let m = choose|m: int| 0 <= m < all.len() && all[m] == k as usize;
            if m < rest.len() {
                lemma_flagged_positions_bound(flags, n - 1, m);
            }
        }
    }
}

/// What is left of a list depends on the flags of its own positions only.
pub proof fn lemma_unflagged_by_flags<T>(items: Seq<T>, f: Seq<bool>, g: Seq<bool>, n: int)
    requires
        forall|k: int| 0 <= k < n ==> flag_at(f, k) == flag_at(g, k),
    ensures
        unflagged(items, f, n) == unflagged(items, g, n),
    decreases n,
{
    if n > 0 {
        lemma_unflagged_by_flags(items, f, g, n - 1);
    }
}

/// Two lists of one length stay in step: taking from the second the
/// positions that pruning the first reported leaves what pruning the second
/// by the same flags would leave.
pub proof fn lemma_lists_stay_in_step<T>(bodies: Seq<T>, flags: Seq<bool>)
    requires
        bodies.len() <= usize::MAX,
    ensures
        unflagged(
            bodies,
            listed_flags(flagged_positions(flags, bodies.len() as int), bodies.len() as int),
            bodies.len() as int,
        ) == unflagged(bodies, flags, bodies.len() as int),
{
    let n = bodies.len() as int;
    let listed = listed_flags(flagged_positions(flags, n), n);
    assert forall|k: int| 0 <= k < n implies flag_at(listed, k) == flag_at(flags, k) by {
        lemma_flagged_positions_hold(flags, n, k);
    }
    lemma_unflagged_by_flags(bodies, listed, flags, n);
}

} // verus!
