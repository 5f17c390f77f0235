use vstd::prelude::*;
use std::collections::VecDeque;
use crate::consts::{ROOM_HEIGHT, ROOM_WIDTH};
use crate::dungeon::{Room, TileGrid};
use crate::graph::{
    adjacent, as_cell, count_set, lemma_count_set_bound, lemma_count_set_none,
    lemma_count_set_update, lemma_queued_after_pop, lemma_queued_after_push, queued, Cell,
};

verus! {

pub open spec fn in_room(c: Cell) -> bool {
    0 <= c.0 < 9 && 0 <= c.1 < 15
}

/// A tile that the search may enter: free in the room's grid, and not the target.
pub open spec fn free_tile(base: TileGrid, target: Cell, c: Cell) -> bool {
    in_room(c) && c != target && base[c.0][c.1] == 0
}

/// A tile that carries a distance in the field `g`: the target, or a free
/// tile whose value is no longer 0.
pub open spec fn reached(base: TileGrid, g: TileGrid, target: Cell, c: Cell) -> bool {
    in_room(c) && (c == target || (base[c.0][c.1] == 0 && g[c.0][c.1] != 0))
}

/// The tile `c` has a reached tile next to it whose value is higher by one.
pub open spec fn has_uphill(base: TileGrid, g: TileGrid, target: Cell, c: Cell) -> bool {
    exists|n: Cell| #[trigger]
        adjacent(c, n) && reached(base, g, target, n) && g[n.0][n.1] == g[c.0][c.1] + 1
}

/// `g` is the distance field of the room grid `base` for `target`.
///
/// The target carries `i32::MAX`. A tile that is not free keeps its value.
/// A free tile carries 0, where no walk over free tiles leads to it from the
/// target, or a value below `i32::MAX`. Every reached tile but the target
/// has a reached neighbour that is higher by one; every free neighbour of a
/// reached tile is reached, and lower by one at most.
pub open spec fn is_distance_field(base: TileGrid, target: Cell, g: TileGrid) -> bool {
    &&& in_room(target)
    &&& g[target.0][target.1] == i32::MAX
    &&& forall|c: Cell|
        in_room(c) && c != target ==> if base[c.0][c.1] != 0 {
            #[trigger] g[c.0][c.1] == base[c.0][c.1]
        } else {
            g[c.0][c.1] == 0 || (i32::MAX - 134 <= g[c.0][c.1] < i32::MAX)
        }
    &&& forall|c: Cell| #[trigger]
        reached(base, g, target, c) && c != target ==> has_uphill(base, g, target, c)
    &&& forall|c: Cell, n: Cell|
        reached(base, g, target, c) && #[trigger] adjacent(c, n) && free_tile(base, target, n)
            ==> g[n.0][n.1] != 0 && g[n.0][n.1] >= g[c.0][c.1] - 1
}

/// For each tile, row by row, whether it is reached.
pub open spec fn reached_flags(base: TileGrid, g: TileGrid, target: Cell) -> Seq<bool> {
    Seq::new(135, |k: int| reached(base, g, target, (k / 15, k % 15)))
}

spec fn val(g: TileGrid, c: Cell) -> int {
    g[c.0][c.1] as int
}

/// What holds of the search while the tile `cur` is being expanded (or, with
/// no such tile, between two expansions): `front` is the value of the tile
/// that is expanded, or of the head of the queue.
#[verifier::opaque]
spec fn search_state(
    base: TileGrid,
    target: Cell,
    g: TileGrid,
    q: Seq<(usize, usize)>,
    done: Set<Cell>,
    cur: Option<Cell>,
    front: int,
) -> bool {
    &&& in_room(target)
    &&& val(g, target) == i32::MAX
    &&& front <= i32::MAX
    &&& forall|c: Cell|
        in_room(c) && c != target ==> if base[c.0][c.1] != 0 {
            #[trigger] val(g, c) == base[c.0][c.1]
        } else {
            val(g, c) == 0 || (front - 1 <= val(g, c) < i32::MAX)
        }
    &&& forall|c: Cell| #[trigger]
        reached(base, g, target, c) ==> i32::MAX - val(g, c) <= count_set(
            reached_flags(base, g, target),
            135,
        ) - 1 && front - 1 <= val(g, c)
    &&& forall|k: int|
        0 <= k < q.len() ==> reached(base, g, target, as_cell(#[trigger] q[k])) && val(
            g,
            as_cell(q[k]),
        ) <= front
    &&& forall|a: int, b: int|
        0 <= a < b < q.len() ==> val(g, as_cell(#[trigger] q[a])) >= val(
            g,
            as_cell(#[trigger] q[b]),
        )
    &&& match cur {
        Some(p) => reached(base, g, target, p) && val(g, p) == front,
        None => q.len() > 0 ==> val(g, as_cell(q[0])) == front,
    }
    &&& forall|c: Cell| #[trigger]
        reached(base, g, target, c) ==> done.contains(c) || queued(q, c) || cur == Some(c)
    &&& forall|c: Cell, n: Cell|
        done.contains(c) && #[trigger] adjacent(c, n) && free_tile(base, target, n) ==> val(g, n)
            != 0
    &&& forall|c: Cell| #[trigger] done.contains(c) ==> reached(base, g, target, c)
    &&& forall|c: Cell| #[trigger]
        reached(base, g, target, c) && val(g, c) > front ==> done.contains(c)
    &&& forall|c: Cell| #[trigger]
        reached(base, g, target, c) && c != target ==> has_uphill(base, g, target, c)
    &&& forall|a: Cell, b: Cell|
        reached(base, g, target, a) && reached(base, g, target, b) && #[trigger] adjacent(a, b)
            ==> val(g, b) >= val(g, a) - 1
}

proof fn lemma_reached_grows(
    base: TileGrid,
    before: TileGrid,
    after: TileGrid,
    target: Cell,
    at: Cell,
)
    requires
        in_room(at),
        at != target,
        base[at.0][at.1] == 0,
        before[at.0][at.1] == 0,
        after[at.0][at.1] != 0,
        forall|c: Cell| in_room(c) && c != at ==> after[c.0][c.1] == before[c.0][c.1],
    ensures
        count_set(reached_flags(base, after, target), 135) == count_set(
            reached_flags(base, before, target),
            135,
        ) + 1,
        count_set(reached_flags(base, after, target), 135) <= 135,
        forall|c: Cell|
            c != at ==> (reached(base, after, target, c) <==> reached(base, before, target, c)),
        reached(base, after, target, at),
        !reached(base, before, target, at),
{
    let k = at.0 * 15 + at.1;
    assert(k / 15 == at.0 && k % 15 == at.1);
    let fb = reached_flags(base, before, target);
    let fa = reached_flags(base, after, target);
    assert forall|m: int| 0 <= m < 135 && m != k implies fb[m] == fa[m] by {
        assert(in_room((m / 15, m % 15)));
    }
    lemma_count_set_update(fb, fa, k, 135);
    lemma_count_set_bound(fa, 135);
}

/// The value that the next expansion starts from: that of the head of the
/// queue, or the last one where the queue is empty.
spec fn next_front(g: TileGrid, q: Seq<(usize, usize)>, last: int) -> int {
    if q.len() > 0 {
        val(g, as_cell(q[0]))
    } else {
        last
    }
}

proof fn lemma_start_expansion(
    base: TileGrid,
    t: Cell,
    g: TileGrid,
    q_full: Seq<(usize, usize)>,
    done: Set<Cell>,
)
    requires
        q_full.len() > 0,
        search_state(base, t, g, q_full, done, None, val(g, as_cell(q_full[0]))),
    ensures
        in_room(as_cell(q_full[0])),
        search_state(
            base,
            t,
            g,
            q_full.subrange(1, q_full.len() as int),
            done,
            Some(as_cell(q_full[0])),
            val(g, as_cell(q_full[0])),
        ),
{
    reveal(search_state);
    let q = q_full.subrange(1, q_full.len() as int);
    let pc = as_cell(q_full[0]);
    let front = val(g, pc);
    assert(reached(base, g, t, pc));
    assert forall|c: Cell| #[trigger] reached(base, g, t, c) implies done.contains(c) || queued(
        q,
        c,
    ) || Some(pc) == Some(c) by {
        if !done.contains(c) && c != pc {
            lemma_queued_after_pop(q_full, c);
        }
    }
    assert forall|k: int| 0 <= k < q.len() implies reached(base, g, t, as_cell(#[trigger] q[k]))
        && val(g, as_cell(q[k])) <= front by {
        assert(q[k] == q_full[k + 1]);
    }
    assert forall|a: int, b: int| 0 <= a < b < q.len() implies val(g, as_cell(#[trigger] q[a]))
        >= val(g, as_cell(#[trigger] q[b])) by {
        assert(q[a] == q_full[a + 1]);
        assert(q[b] == q_full[b + 1]);
    }
}

proof fn lemma_finish_expansion(
    base: TileGrid,
    t: Cell,
    g: TileGrid,
    q: Seq<(usize, usize)>,
    done: Set<Cell>,
    pc: Cell,
)
    requires
        search_state(base, t, g, q, done, Some(pc), val(g, pc)),
        forall|n: Cell| #[trigger] adjacent(pc, n) && free_tile(base, t, n) ==> val(g, n) != 0,
    ensures
        search_state(base, t, g, q, done.insert(pc), None, next_front(g, q, val(g, pc))),
{
    reveal(search_state);
    let grown = done.insert(pc);
    let front = val(g, pc);
    let next = next_front(g, q, front);
    if q.len() > 0 {
        assert(reached(base, g, t, as_cell(q[0])));
    }
    assert(front - 1 <= next <= front);
    assert forall|c: Cell, n: Cell|
        grown.contains(c) && #[trigger] adjacent(c, n) && free_tile(base, t, n) implies val(g, n)
        != 0 by {
        if c != pc {
            assert(done.contains(c));
        }
    }
    assert forall|c: Cell| #[trigger] reached(base, g, t, c) implies grown.contains(c) || queued(
        q,
        c,
    ) || None::<Cell> == Some(c) by {}
    assert forall|c: Cell| #[trigger]
        reached(base, g, t, c) && val(g, c) > next implies grown.contains(c) by {
        if !grown.contains(c) {
            assert(queued(q, c));
            let k = choose|k: int| 0 <= k < q.len() && as_cell(#[trigger] q[k]) == c;
            if k > 0 {
                assert(val(g, as_cell(q[0])) >= val(g, as_cell(q[k])));
            }
        }
    }
    assert forall|k: int| 0 <= k < q.len() implies reached(base, g, t, as_cell(#[trigger] q[k]))
        && val(g, as_cell(q[k])) <= next by {
        if k > 0 {
            assert(val(g, as_cell(q[0])) >= val(g, as_cell(q[k])));
        }
    }
    assert forall|c: Cell| #[trigger] grown.contains(c) implies reached(base, g, t, c) by {
        if c != pc {
            assert(done.contains(c));
        }
    }
    assert forall|c: Cell|
        in_room(c) && c != t implies if base[c.0][c.1] != 0 {
        #[trigger] val(g, c) == base[c.0][c.1]
    } else {
        val(g, c) == 0 || (next - 1 <= val(g, c) < i32::MAX)
    } by {}
    assert forall|c: Cell| #[trigger] reached(base, g, t, c) implies i32::MAX - val(g, c)
        <= count_set(reached_flags(base, g, t), 135) - 1 && next - 1 <= val(g, c) by {}
}

/// Looks at one neighbour `n` of the tile `p` that is being expanded: where
/// `n` is free and not yet reached, it gets the value of `p` less one and
/// joins the queue.
#[verifier::rlimit(30)]
fn relax(
    grid: &mut TileGrid,
    q: &mut VecDeque<(usize, usize)>,
    p: (usize, usize),
    n: (usize, usize),
    Ghost(base): Ghost<TileGrid>,
    Ghost(target): Ghost<Cell>,
    Ghost(done): Ghost<Set<Cell>>,
)
    requires
        search_state(
            base,
            target,
            *old(grid),
            old(q)@,
            done,
            Some(as_cell(p)),
            val(*old(grid), as_cell(p)),
        ),
        in_room(as_cell(n)),
        adjacent(as_cell(p), as_cell(n)),
    ensures
        search_state(
            base,
            target,
            *final(grid),
            final(q)@,
            done,
            Some(as_cell(p)),
            val(*old(grid), as_cell(p)),
        ),
        val(*final(grid), as_cell(p)) == val(*old(grid), as_cell(p)),
        free_tile(base, target, as_cell(n)) ==> val(*final(grid), as_cell(n)) != 0,
        forall|c: Cell| in_room(c) && val(*old(grid), c) != 0 ==> val(*final(grid), c) == val(*old(grid), c),
        2 * (135 - count_set(reached_flags(base, *final(grid), target), 135)) + final(q)@.len() <= 2
            * (135 - count_set(reached_flags(base, *old(grid), target), 135)) + old(q)@.len(),
        count_set(reached_flags(base, *final(grid), target), 135) <= 135,
{
    let ghost before = *grid;
    let ghost q_before = q@;
    let ghost pc = as_cell(p);
    let ghost nc = as_cell(n);
    let ghost front = val(before, pc);
    proof {
        reveal(search_state);
        lemma_count_set_bound(reached_flags(base, before, target), 135);
        assert(reached(base, before, target, pc));
    }
    if grid[n.0][n.1] == 0 {
        proof {
            // a tile with value 0 is neither the target nor blocked
            assert(nc != target);
            assert(base[nc.0][nc.1] == 0) by {
                if base[nc.0][nc.1] != 0 {
                    assert(val(before, nc) == base[nc.0][nc.1]);
                }
            }
            assert(i32::MAX - front <= 134);
        }
        let value: i32 = grid[p.0][p.1] - 1;
        grid[n.0][n.1] = value;
        q.push_back(n);
        proof {
            let after = *grid;
            lemma_reached_grows(base, before, after, target, nc);
            assert(q@[q_before.len() as int] == n);
            assert forall|c: Cell| in_room(c) && c != nc implies val(after, c) == val(before, c) by {}
            assert forall|c: Cell| queued(q_before, c) implies queued(q@, c) by {
                lemma_queued_after_push(q_before, n, c);
            }
            lemma_queued_after_push(q_before, n, nc);
            assert forall|k: int| 0 <= k < q@.len() implies reached(
                base,
                after,
                target,
                as_cell(#[trigger] q@[k]),
            ) && val(after, as_cell(q@[k])) <= front by {
                if k < q_before.len() {
                    assert(q@[k] == q_before[k]);
                    assert(reached(base, before, target, as_cell(q_before[k])));
                }
            }
            assert forall|a: int, b: int| 0 <= a < b < q@.len() implies val(
                after,
                as_cell(#[trigger] q@[a]),
            ) >= val(after, as_cell(#[trigger] q@[b])) by {
                assert(q@[a] == q_before[a]);
                assert(reached(base, before, target, as_cell(q_before[a])));
                if b < q_before.len() {
                    assert(q@[b] == q_before[b]);
                    assert(reached(base, before, target, as_cell(q_before[b])));
                }
            }
            assert forall|c: Cell| #[trigger] reached(base, after, target, c) implies done.contains(
                c,
            ) || queued(q@, c) || Some(pc) == Some(c) by {
                if c != nc {
                    assert(reached(base, before, target, c));
                }
            }
            assert forall|c: Cell| #[trigger]
                reached(base, after, target, c) && c != target implies has_uphill(
                base,
                after,
                target,
                c,
            ) by {
                if c == nc {
                    assert(adjacent(nc, pc));
                    assert(reached(base, after, target, pc));
                } else {
                    assert(has_uphill(base, before, target, c));
                    let m = choose|m: Cell| #[trigger]
                        adjacent(c, m) && reached(base, before, target, m) && before[m.0][m.1]
                            == before[c.0][c.1] + 1;
                    assert(adjacent(c, m));
                    assert(reached(base, after, target, m));
                }
            }
            assert forall|a: Cell, b: Cell|
                reached(base, after, target, a) && reached(base, after, target, b)
                    && #[trigger] adjacent(a, b) implies val(after, b) >= val(after, a) - 1 by {
                if a == nc && b != nc {
                    assert(reached(base, before, target, b));
                } else if b == nc && a != nc {
                    assert(reached(base, before, target, a));
                    if val(before, a) > front {
                        assert(done.contains(a));
                        assert(adjacent(a, nc));
                        assert(free_tile(base, target, nc));
                        assert(false);
                    }
                } else if a != nc && b != nc {
                    assert(reached(base, before, target, a));
                    assert(reached(base, before, target, b));
                }
            }
            assert forall|c: Cell| #[trigger] reached(base, after, target, c) implies i32::MAX
                - val(after, c) <= count_set(reached_flags(base, after, target), 135) - 1 && front
                - 1 <= val(after, c) by {
                if c != nc {
                    assert(reached(base, before, target, c));
                }
            }
            assert forall|c: Cell| #[trigger] done.contains(c) implies reached(
                base,
                after,
                target,
                c,
            ) by {
                assert(reached(base, before, target, c));
            }
            assert forall|c: Cell| #[trigger]
                reached(base, after, target, c) && val(after, c) > front implies done.contains(
                c,
            ) by {
                assert(c != nc);
                assert(reached(base, before, target, c));
            }
        }
    }
}

impl Room {
    /// The distance field of the room for a target tile, given as (row,
    /// column). A target outside the room gives the room's grid unchanged.
    ///
    /// The target is seeded with `i32::MAX`, blocked or not. From there the
    /// search spreads breadth first over the free tiles, and each tile it
    /// reaches gets the value of the tile it came from, less one. Tiles that
    /// are not free keep their value; free tiles that cannot be reached keep 0.
    pub fn get_target_distance_grid(&self, target: (usize, usize)) -> (field: TileGrid)
        ensures
            !in_room(as_cell(target)) ==> field == self.grid,
            in_room(as_cell(target)) ==> is_distance_field(self.grid, as_cell(target), field),
    {
        let mut grid: TileGrid = self.grid;
        let (ti, tj) = target;
        if ti >= ROOM_HEIGHT || tj >= ROOM_WIDTH {
            return grid;
        }
        let ghost base = self.grid;
        let ghost t = as_cell(target);
        grid[ti][tj] = i32::MAX;
        let mut q: VecDeque<(usize, usize)> = VecDeque::new();
        q.push_back((ti, tj));
        let ghost mut done: Set<Cell> = Set::empty();
        let ghost mut front: int = i32::MAX as int;
        proof {
            reveal(search_state);
            assert(q@[0] == target);
            assert(queued(q@, t));
            assert forall|c: Cell| #[trigger] reached(base, grid, t, c) implies c == t by {
                if c != t {
                    assert(grid[c.0][c.1] == base[c.0][c.1]);
                }
            }
            let flags = reached_flags(base, grid, t);
            let none = Seq::new(135, |k: int| false);
            let at = t.0 * 15 + t.1;
            assert(at / 15 == t.0 && at % 15 == t.1);
            assert forall|m: int| 0 <= m < 135 && m != at implies none[m] == flags[m] by {
                let c: Cell = (m / 15, m % 15);
                assert(in_room(c));
                assert(c != t);
                assert(!reached(base, grid, t, c));
            }
            assert(reached(base, grid, t, t));
            lemma_count_set_none(none, 135);
            lemma_count_set_update(none, flags, at, 135);
        }
        while q.len() > 0
            invariant
                base == self.grid,
                t == as_cell(target),
                search_state(base, t, grid, q@, done, None, front),
                q@.len() > 0 ==> front == val(grid, as_cell(q@[0])),
                count_set(reached_flags(base, grid, t), 135) <= 135,
            decreases 2 * (135 - count_set(reached_flags(base, grid, t), 135)) + q@.len(),
        {
            let ghost q_full = q@;
            let head = q.pop_front();
            let (i, j) = head.unwrap();
            let ghost pc: Cell = (i as int, j as int);
            proof {
                assert(q_full[0] == (i, j));
                lemma_start_expansion(base, t, grid, q_full, done);
            }
            if i > 0 {
                relax(&mut grid, &mut q, (i, j), (i - 1, j), Ghost(base), Ghost(t), Ghost(done));
            }
            if j > 0 {
                relax(&mut grid, &mut q, (i, j), (i, j - 1), Ghost(base), Ghost(t), Ghost(done));
            }
            if j < ROOM_WIDTH - 1 {
                relax(&mut grid, &mut q, (i, j), (i, j + 1), Ghost(base), Ghost(t), Ghost(done));
            }
            if i < ROOM_HEIGHT - 1 {
                relax(&mut grid, &mut q, (i, j), (i + 1, j), Ghost(base), Ghost(t), Ghost(done));
            }
            proof {
                lemma_finish_expansion(base, t, grid, q@, done, pc);
                done = done.insert(pc);
                front = next_front(grid, q@, front);
            }
        }
        proof {
            reveal(search_state);
            assert forall|c: Cell, n: Cell|
                reached(base, grid, t, c) && #[trigger] adjacent(c, n) && free_tile(
                    base,
                    t,
                    n,
                ) implies grid[n.0][n.1] != 0 && grid[n.0][n.1] >= grid[c.0][c.1] - 1 by {
                assert(done.contains(c));
                assert(val(grid, n) != 0);
                assert(reached(base, grid, t, n));
            }
            assert forall|c: Cell| in_room(c) && c != t implies if base[c.0][c.1] != 0 {
                #[trigger] grid[c.0][c.1] == base[c.0][c.1]
            } else {
                grid[c.0][c.1] == 0 || (i32::MAX - 134 <= grid[c.0][c.1] < i32::MAX)
            } by {
                assert(val(grid, c) == grid[c.0][c.1]);
                if base[c.0][c.1] == 0 && grid[c.0][c.1] != 0 {
                    assert(reached(base, grid, t, c));
                }
            }
        }
        grid
    }
}

/// A walk over tiles of the room on which every step leads to a neighbour
/// with a strictly higher value.
pub open spec fn climbs(g: TileGrid, walk: Seq<Cell>) -> bool {
    &&& walk.len() > 0
    &&& forall|k: int| 0 <= k < walk.len() ==> in_room(#[trigger] walk[k])
    &&& forall|k: int|
        0 <= k < walk.len() - 1 ==> adjacent(#[trigger] walk[k], walk[k + 1]) && g[walk[k
            + 1].0][walk[k + 1].1] > g[walk[k].0][walk[k].1]
}

/// No neighbour of `c` in the room has a higher value than `c`.
pub open spec fn at_summit(g: TileGrid, c: Cell) -> bool {
    forall|n: Cell| in_room(n) && #[trigger] adjacent(c, n) ==> g[n.0][n.1] <= g[c.0][c.1]
}

/// A room grid as parsing leaves it: no tile carries a value above 0.
pub open spec fn plain_grid(base: TileGrid) -> bool {
    forall|c: Cell| in_room(c) ==> #[trigger] base[c.0][c.1] <= 0
}

/// In a distance field over a plain grid, a walk that starts on a tile with
/// a value above 0 and always steps to a higher neighbour stays on reached
/// tiles, takes no more steps than its first value lacks to `i32::MAX`, and
/// can only come to rest on the target.
pub proof fn lemma_climb_ends_at_target(base: TileGrid, target: Cell, g: TileGrid, walk: Seq<Cell>)
    requires
        is_distance_field(base, target, g),
        plain_grid(base),
        climbs(g, walk),
        g[walk[0].0][walk[0].1] > 0,
    ensures
        forall|k: int| 0 <= k < walk.len() ==> reached(base, g, target, #[trigger] walk[k]),
        walk.len() <= i32::MAX - g[walk[0].0][walk[0].1] + 1,
        at_summit(g, walk[walk.len() - 1]) ==> walk[walk.len() - 1] == target,
{
    lemma_climb_rises(base, target, g, walk, walk.len() - 1);
    let last = walk[walk.len() - 1];
    assert(reached(base, g, target, last));
    if last != target {
        assert(has_uphill(base, g, target, last));
        let n = choose|n: Cell| #[trigger]
            adjacent(last, n) && reached(base, g, target, n) && g[n.0][n.1] == g[last.0][last.1]
                + 1;
        assert(in_room(n) && adjacent(last, n));
        assert(!at_summit(g, last));
    }
    assert forall|k: int| 0 <= k < walk.len() implies reached(
        base,
        g,
        target,
        #[trigger] walk[k],
    ) by {
        lemma_climb_rises(base, target, g, walk, k);
    }
}

proof fn lemma_climb_rises(base: TileGrid, target: Cell, g: TileGrid, walk: Seq<Cell>, k: int)
    requires
        is_distance_field(base, target, g),
        plain_grid(base),
        climbs(g, walk),
        g[walk[0].0][walk[0].1] > 0,
        0 <= k < walk.len(),
    ensures
        reached(base, g, target, walk[k]),
        g[walk[k].0][walk[k].1] >= g[walk[0].0][walk[0].1] + k,
    decreases k,
{
    let c = walk[k];
    if k > 0 {
        lemma_climb_rises(base, target, g, walk, k - 1);
        assert(adjacent(walk[k - 1], walk[k - 1 + 1]));
    }
    assert(in_room(c));
    if c != target && base[c.0][c.1] != 0 {
        assert(g[c.0][c.1] == base[c.0][c.1]);
    }
}

/// A room grid has one distance field for a target: two fields that both
/// meet `is_distance_field` carry the same value on every tile.
pub proof fn lemma_distance_field_unique(base: TileGrid, target: Cell, g: TileGrid, h: TileGrid)
    requires
        is_distance_field(base, target, g),
        is_distance_field(base, target, h),
    ensures
        forall|c: Cell| in_room(c) ==> #[trigger] g[c.0][c.1] == h[c.0][c.1],
{
    assert forall|c: Cell| in_room(c) implies #[trigger] g[c.0][c.1] == h[c.0][c.1] by {
        if c == target {
        } else if base[c.0][c.1] != 0 {
        } else {
            if g[c.0][c.1] != 0 {
                assert(reached(base, g, target, c));
                lemma_field_dominates(base, target, g, h, c, (i32::MAX - g[c.0][c.1]) as nat);
            }
            if h[c.0][c.1] != 0 {
                assert(reached(base, h, target, c));
                lemma_field_dominates(base, target, h, g, c, (i32::MAX - h[c.0][c.1]) as nat);
            }
        }
    }
}

/// A tile that one field reaches at `depth` below the top is reached by any
/// other field of the same grid and target, no deeper.
proof fn lemma_field_dominates(
    base: TileGrid,
    target: Cell,
    g: TileGrid,
    h: TileGrid,
    c: Cell,
    depth: nat,
)
    requires
        is_distance_field(base, target, g),
        is_distance_field(base, target, h),
        reached(base, g, target, c),
        g[c.0][c.1] == i32::MAX - depth,
    ensures
        reached(base, h, target, c),
        h[c.0][c.1] >= g[c.0][c.1],
    decreases depth,
{
    if c != target {
        assert(has_uphill(base, g, target, c));
        let n = choose|n: Cell| #[trigger]
            adjacent(c, n) && reached(base, g, target, n) && g[n.0][n.1] == g[c.0][c.1] + 1;
        if n != target {
            assert(g[n.0][n.1] < i32::MAX);
        }
        lemma_field_dominates(base, target, g, h, n, (depth - 1) as nat);
        assert(adjacent(n, c));
        assert(free_tile(base, target, c));
    }
}

/// A walk from the target over free tiles: it starts on the target, every
/// step leads to a neighbour, and every tile after the first is free.
pub open spec fn free_walk(base: TileGrid, target: Cell, walk: Seq<Cell>) -> bool {
    &&& walk.len() > 0
    &&& walk[0] == target
    &&& forall|k: int| 1 <= k < walk.len() ==> free_tile(base, target, #[trigger] walk[k])
    &&& forall|k: int| 0 <= k < walk.len() - 1 ==> adjacent(#[trigger] walk[k], walk[k + 1])
}

/// Every tile that a walk from the target over free tiles comes to is
/// reached by the field, and its value is lower than `i32::MAX` by no more
/// than the steps of the walk.
pub proof fn lemma_walk_bounds_field(base: TileGrid, target: Cell, g: TileGrid, walk: Seq<Cell>)
    requires
        is_distance_field(base, target, g),
        free_walk(base, target, walk),
    ensures
        reached(base, g, target, walk[walk.len() - 1]),
        g[walk[walk.len() - 1].0][walk[walk.len() - 1].1] >= i32::MAX - (walk.len() - 1),
    decreases walk.len(),
{
    if walk.len() > 1 {
        let shorter = walk.drop_last();
        assert forall|k: int| 1 <= k < shorter.len() implies free_tile(
            base,
            target,
            #[trigger] shorter[k],
        ) by {
            assert(shorter[k] == walk[k]);
        }
        assert forall|k: int| 0 <= k < shorter.len() - 1 implies adjacent(
            #[trigger] shorter[k],
            shorter[k + 1],
        ) by {
            assert(shorter[k] == walk[k]);
            assert(shorter[k + 1] == walk[k + 1]);
        }
        lemma_walk_bounds_field(base, target, g, shorter);
        let before = walk[walk.len() - 2];
        let last = walk[walk.len() - 1];
        assert(shorter[shorter.len() - 1] == before);
        assert(adjacent(walk[walk.len() - 2], walk[walk.len() - 2 + 1]));
        assert(adjacent(before, last));
        assert(free_tile(base, target, last));
    }
}

/// A walk from the target over free tiles can go on to a free neighbour of its last tile.
proof fn lemma_walk_goes_on(base: TileGrid, target: Cell, walk: Seq<Cell>, c: Cell)
    requires
        free_walk(base, target, walk),
        adjacent(walk[walk.len() - 1], c),
        free_tile(base, target, c),
    ensures
        free_walk(base, target, walk.push(c)),
{
    let longer = walk.push(c);
    assert forall|k: int| 1 <= k < longer.len() implies free_tile(
        base,
        target,
        #[trigger] longer[k],
    ) by {
        if k < walk.len() {
            assert(longer[k] == walk[k]);
        }
    }
    assert forall|k: int| 0 <= k < longer.len() - 1 implies adjacent(
        #[trigger] longer[k],
        longer[k + 1],
    ) by {
        assert(longer[k] == walk[k]);
        if k + 1 < walk.len() {
            assert(longer[k + 1] == walk[k + 1]);
        }
    }
}

/// To every tile that the field reaches a walk from the target over free
/// tiles leads that takes as many steps as the value of the tile is lower
/// than `i32::MAX`. With `lemma_walk_bounds_field`: no walk is shorter.
pub proof fn lemma_field_has_walk(base: TileGrid, target: Cell, g: TileGrid, c: Cell) -> (walk: Seq<
    Cell,
>)
    requires
        is_distance_field(base, target, g),
        reached(base, g, target, c),
    ensures
        free_walk(base, target, walk),
        walk[walk.len() - 1] == c,
        walk.len() - 1 == i32::MAX - g[c.0][c.1],
    decreases i32::MAX - g[c.0][c.1],
{
    if c == target {
        seq![target]
    } else {
        assert(has_uphill(base, g, target, c));
        let n = choose|n: Cell| #[trigger]
            adjacent(c, n) && reached(base, g, target, n) && g[n.0][n.1] == g[c.0][c.1] + 1;
        assert(g[n.0][n.1] <= i32::MAX);
        let shorter = lemma_field_has_walk(base, target, g, n);
        assert(adjacent(n, c));
        assert(free_tile(base, target, c));
        lemma_walk_goes_on(base, target, shorter, c);
        shorter.push(c)
    }
}

} // verus!
