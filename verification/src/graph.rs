use vstd::prelude::*;

verus! {

/// A cell of a grid, as (row, column).
pub type Cell = (int, int);

/// A cell given by machine integers.
pub open spec fn as_cell(slot: (usize, usize)) -> Cell {
    (slot.0 as int, slot.1 as int)
}

/// Two cells that share an edge.
pub open spec fn adjacent(a: Cell, b: Cell) -> bool {
    ||| (a.0 == b.0 && (a.1 == b.1 + 1 || a.1 + 1 == b.1))
    ||| (a.1 == b.1 && (a.0 == b.0 + 1 || a.0 + 1 == b.0))
}

/// A walk that stays inside `cells` and moves one edge at a time.
pub open spec fn is_path(cells: Set<Cell>, p: Seq<Cell>) -> bool {
    &&& p.len() > 0
    &&& forall|k: int| 0 <= k < p.len() ==> cells.contains(#[trigger] p[k])
    &&& forall|k: int| 0 <= k < p.len() - 1 ==> adjacent(#[trigger] p[k], p[k + 1])
}

/// `to` can be walked to from `from` without leaving `cells`.
pub open spec fn reachable(cells: Set<Cell>, from: Cell, to: Cell) -> bool {
    exists|p: Seq<Cell>| is_path(cells, p) && p[0] == from && p[p.len() - 1] == to
}

/// Every cell of `cells` can be walked to from `from`.
pub open spec fn connected_from(cells: Set<Cell>, from: Cell) -> bool {
    forall|c: Cell| cells.contains(c) ==> reachable(cells, from, c)
}

pub proof fn lemma_reachable_self(cells: Set<Cell>, a: Cell)
    requires
        cells.contains(a),
    ensures
        reachable(cells, a, a),
{
    let p = seq![a];
    assert(is_path(cells, p));
    assert(p[0] == a && p[p.len() - 1] == a);
}

pub proof fn lemma_reachable_step(cells: Set<Cell>, a: Cell, b: Cell, c: Cell)
    requires
        reachable(cells, a, b),
        cells.contains(c),
        adjacent(b, c),
    ensures
        reachable(cells, a, c),
{
    let p = choose|p: Seq<Cell>| is_path(cells, p) && p[0] == a && p[p.len() - 1] == b;
    let q = p.push(c);
    assert forall|k: int| 0 <= k < q.len() implies cells.contains(#[trigger] q[k]) by {
        if k < p.len() {
            assert(q[k] == p[k]);
        }
    }
    assert forall|k: int| 0 <= k < q.len() - 1 implies adjacent(#[trigger] q[k], q[k + 1]) by {
        if k < p.len() - 1 {
            assert(q[k] == p[k]);
            assert(q[k + 1] == p[k + 1]);
        }
    }
    assert(is_path(cells, q));
    assert(q[0] == a && q[q.len() - 1] == c);
}

pub proof fn lemma_reachable_grows(small: Set<Cell>, large: Set<Cell>, a: Cell, b: Cell)
    requires
        reachable(small, a, b),
        small.subset_of(large),
    ensures
        reachable(large, a, b),
{
    let p = choose|p: Seq<Cell>| is_path(small, p) && p[0] == a && p[p.len() - 1] == b;
    assert(is_path(large, p));
}

/// A set that holds `a` and every neighbour in `cells` of each of its members
/// holds everything that can be reached from `a`.
pub proof fn lemma_closed_holds_reachable(cells: Set<Cell>, closed: Set<Cell>, a: Cell, b: Cell)
    requires
        closed.contains(a),
        forall|x: Cell, y: Cell|
            closed.contains(x) && cells.contains(y) && adjacent(x, y) ==> closed.contains(y),
        reachable(cells, a, b),
    ensures
        closed.contains(b),
{
    let p = choose|p: Seq<Cell>| is_path(cells, p) && p[0] == a && p[p.len() - 1] == b;
    lemma_closed_holds_prefix(cells, closed, p, p.len() - 1);
}

proof fn lemma_closed_holds_prefix(cells: Set<Cell>, closed: Set<Cell>, p: Seq<Cell>, n: int)
    requires
        is_path(cells, p),
        closed.contains(p[0]),
        forall|x: Cell, y: Cell|
            closed.contains(x) && cells.contains(y) && adjacent(x, y) ==> closed.contains(y),
        0 <= n < p.len(),
    ensures
        closed.contains(p[n]),
    decreases n,
{
    if n > 0 {
        lemma_closed_holds_prefix(cells, closed, p, n - 1);
        assert(adjacent(p[n - 1], p[n - 1 + 1]));
        assert(cells.contains(p[n]));
    }
}

/// How many of the first `n` entries of `flags` are set.
pub open spec fn count_set(flags: Seq<bool>, n: int) -> nat
    decreases n,
{
    if n <= 0 {
        0
    } else {
        count_set(flags, n - 1) + if flags[n - 1] { 1nat } else { 0nat }
    }
}

pub proof fn lemma_count_set_bound(flags: Seq<bool>, n: int)
    requires
        0 <= n,
    ensures
        count_set(flags, n) <= n,
    decreases n,
{
    if n > 0 {
        lemma_count_set_bound(flags, n - 1);
    }
}

/// Setting one clear entry raises the count by one where the entry is counted.
pub proof fn lemma_count_set_update(before: Seq<bool>, after: Seq<bool>, at: int, n: int)
    requires
        0 <= n <= before.len(),
        before.len() == after.len(),
        0 <= at < before.len(),
        !before[at],
        after[at],
        forall|k: int| 0 <= k < before.len() && k != at ==> before[k] == after[k],
    ensures
        count_set(after, n) == count_set(before, n) + if at < n { 1nat } else { 0nat },
    decreases n,
{
    if n > 0 {
        lemma_count_set_update(before, after, at, n - 1);
    }
}

/// No entry is counted where none is set.
pub proof fn lemma_count_set_none(flags: Seq<bool>, n: int)
    requires
        forall|k: int| 0 <= k < n ==> !flags[k],
    ensures
        count_set(flags, n) == 0,
    decreases n,
{
    if n > 0 {
        lemma_count_set_none(flags, n - 1);
    }
}

/// The cell waits in the queue.
pub open spec fn queued(q: Seq<(usize, usize)>, c: Cell) -> bool {
    exists|k: int| 0 <= k < q.len() && as_cell(#[trigger] q[k]) == c
}

pub proof fn lemma_queued_after_push(q: Seq<(usize, usize)>, x: (usize, usize), c: Cell)
    ensures
        queued(q, c) ==> queued(q.push(x), c),
        as_cell(x) == c ==> queued(q.push(x), c),
{
    let r = q.push(x);
    if queued(q, c) {
        let k = choose|k: int| 0 <= k < q.len() && as_cell(#[trigger] q[k]) == c;
        assert(r[k] == q[k]);
    }
    if as_cell(x) == c {
        assert(r[q.len() as int] == x);
    }
}

pub proof fn lemma_queued_after_pop(q: Seq<(usize, usize)>, c: Cell)
    requires
        q.len() > 0,
        queued(q, c),
        as_cell(q[0]) != c,
    ensures
        queued(q.subrange(1, q.len() as int), c),
{
    let k = choose|k: int| 0 <= k < q.len() && as_cell(#[trigger] q[k]) == c;
    let rest = q.subrange(1, q.len() as int);
    assert(rest[k - 1] == q[k]);
}

} // verus!
