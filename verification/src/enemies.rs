use vstd::prelude::*;
use crate::dungeon::TileGrid;
use crate::field::{has_uphill, in_room, is_distance_field, plain_grid, reached};
use crate::graph::{adjacent, Cell};
use crate::graph::as_cell;
use crate::shots::{Shot, ShotTag};
use crate::utils::{ActorState, ActorTag, Direction};

verus! {

/// How an enemy behaves.
#[derive(Clone, Debug, Copy, PartialEq, Eq, Structural)]
pub enum EnemyTag {
    Shooter,
    Chaser,
    Wanderer,
    Boss,
}

/// An enemy of a room: its behaviour, the index of the tile it appeared on,
/// its state, and the damage it deals, in hundredths.
#[derive(Clone, Debug, Copy, PartialEq, Eq, Structural)]
pub struct Enemy {
    pub tag: EnemyTag,
    pub tile: usize,
    pub state: ActorState,
    pub damage: u32,
}

/// The state of an actor at the end of a tick: at rest once its animation
/// has run out, and dead, whatever else holds, once its health is spent.
pub open spec fn settled(state: ActorState, animation_over: bool, health_spent: bool) -> ActorState {
    if health_spent {
        ActorState::Dead
    } else if animation_over {
        ActorState::Base
    } else {
        state
    }
}

/// Where a chaser heads.
#[derive(Clone, Debug, Copy, PartialEq, Eq)]
pub enum ChaseTarget {
    /// Straight at the player.
    Player,
    /// To the middle of a tile next to its own.
    Tile((usize, usize)),
    /// Nowhere: it stays where it is.
    Stay,
}

/// What an enemy knows when its turn comes: whether its first wait is over
/// (`unlocked`), whether the time since its last shot has run out (`ready`),
/// whether the player is within four fifths of its range (`in_range`),
/// whether an obstacle stands between it and the player (`sight_blocked`),
/// and whether the wait of a wanderer for its next turn is over (`wait_over`).
#[derive(Clone, Debug, Copy, PartialEq, Eq)]
pub struct Senses {
    pub unlocked: bool,
    pub ready: bool,
    pub in_range: bool,
    pub sight_blocked: bool,
    pub wait_over: bool,
}

/// What an enemy did in its turn: whether it fired a shot at the player,
/// whether it fired a burst, where it heads if it chases, and the heading
/// it has if it wanders.
#[derive(Clone, Debug, Copy, PartialEq, Eq)]
pub struct Action {
    pub fired: bool,
    pub burst: bool,
    pub chase: Option<ChaseTarget>,
    pub heading: Option<Direction>,
}

/// The value of the tile one step from `c` in direction `dir` is higher than that of `c`.
pub open spec fn rises(grid: TileGrid, c: Cell, dir: Direction) -> bool {
    let n = (c.0 + dir.offset().0, c.1 + dir.offset().1);
    in_room(c) && in_room(n) && grid[n.0][n.1] > grid[c.0][c.1]
}

/// The first direction, in the order north, west, east, south, in which the field rises.
pub open spec fn uphill(grid: TileGrid, c: Cell) -> Option<Direction> {
    if rises(grid, c, Direction::North) {
        Some(Direction::North)
    } else if rises(grid, c, Direction::West) {
        Some(Direction::West)
    } else if rises(grid, c, Direction::East) {
        Some(Direction::East)
    } else if rises(grid, c, Direction::South) {
        Some(Direction::South)
    } else {
        None
    }
}

/// Where a chaser heads in its turn: straight at the player while it sees
/// the player; else to the next tile up the distance field, if the field
/// rises anywhere round its tile `at`; else nowhere.
pub open spec fn chase_of(sight_blocked: bool, grid: TileGrid, at: (usize, usize)) -> ChaseTarget {
    if !sight_blocked {
        ChaseTarget::Player
    } else {
        match uphill(grid, as_cell(at)) {
            Some(dir) => ChaseTarget::Tile(
                ((at.0 + dir.offset().0) as usize, (at.1 + dir.offset().1) as usize),
            ),
            None => ChaseTarget::Stay,
        }
    }
}

/// The first direction, in the order north, west, east, south, in which the
/// field rises from the tile `at`; none where it rises nowhere, or where
/// `at` is no tile of the room.
pub fn uphill_direction(grid: &TileGrid, at: (usize, usize)) -> (dir: Option<Direction>)
    ensures
        dir == uphill(*grid, as_cell(at)),
{
    let (i, j) = at;
    if i >= 9 || j >= 15 {
        return None;
    }
    if i > 0 && grid[i - 1][j] > grid[i][j] {
        Some(Direction::North)
    } else if j > 0 && grid[i][j - 1] > grid[i][j] {
        Some(Direction::West)
    } else if j < 14 && grid[i][j + 1] > grid[i][j] {
        Some(Direction::East)
    } else if i < 8 && grid[i + 1][j] > grid[i][j] {
        Some(Direction::South)
    } else {
        None
    }
}

/// The tile next to `at` that a pathfinding enemy steps to: the first one, in
/// the order north, west, east, south, with a higher value in the field.
pub fn find_path(grid: &TileGrid, at: (usize, usize)) -> (next: Option<(usize, usize)>)
    ensures
        match uphill(*grid, as_cell(at)) {
            Some(dir) => next is Some && as_cell(next->0) == (
                at.0 + dir.offset().0,
                at.1 + dir.offset().1,
            ),
            None => next is None,
        },
{
    match uphill_direction(grid, at) {
        Some(Direction::North) => Some((at.0 - 1, at.1)),
        Some(Direction::West) => Some((at.0, at.1 - 1)),
        Some(Direction::East) => Some((at.0, at.1 + 1)),
        Some(Direction::South) => Some((at.0 + 1, at.1)),
        None => None,
    }
}

/// On a distance field over a plain grid, pathfinding from a reached tile
/// other than the target finds a step, and the step leads to a reached tile
/// one closer to the target.
pub proof fn lemma_path_leads_uphill(base: TileGrid, target: Cell, g: TileGrid, c: Cell)
    requires
        is_distance_field(base, target, g),
        plain_grid(base),
        reached(base, g, target, c),
        c != target,
    ensures
        uphill(g, c) is Some,
        ({
            let dir = uphill(g, c)->0;
            let n = (c.0 + dir.offset().0, c.1 + dir.offset().1);
            reached(base, g, target, n) && g[n.0][n.1] == g[c.0][c.1] + 1
        }),
{
    assert(has_uphill(base, g, target, c));
    let m = choose|m: Cell| #[trigger]
        adjacent(c, m) && reached(base, g, target, m) && g[m.0][m.1] == g[c.0][c.1] + 1;
    assert(m == (c.0 - 1, c.1) || m == (c.0, c.1 - 1) || m == (c.0, c.1 + 1) || m == (
        c.0 + 1,
        c.1,
    ));
    assert(rises(g, c, Direction::North) || rises(g, c, Direction::West) || rises(
        g,
        c,
        Direction::East,
    ) || rises(g, c, Direction::South));
    let dir = uphill(g, c)->0;
    let n = (c.0 + dir.offset().0, c.1 + dir.offset().1);
    assert(rises(g, c, dir));
    assert(adjacent(c, n));
    assert(g[c.0][c.1] > 0);
    if n != target && base[n.0][n.1] != 0 {
        assert(g[n.0][n.1] == base[n.0][n.1]);
    }
    assert(reached(base, g, target, n));
    assert(adjacent(n, c));
    assert(crate::field::free_tile(base, target, c));
}

/// The four directions of a boss's burst, as steps along the two axes: the
/// first shot goes along the first axis, or along the diagonal, and each
/// further one is the one before turned by a quarter.
pub open spec fn burst(cardinal: bool) -> Seq<(i32, i32)> {
    if cardinal {
        seq![(1i32, 0i32), (0i32, 1i32), (-1i32, 0i32), (0i32, -1i32)]
    } else {
        seq![(1i32, 1i32), (-1i32, 1i32), (-1i32, -1i32), (1i32, -1i32)]
    }
}

/// The four directions of a boss's burst.
pub fn burst_directions(cardinal: bool) -> (dirs: [(i32, i32); 4])
    ensures
        dirs@ == burst(cardinal),
        forall|k: int|
            0 <= k < 3 ==> (#[trigger] dirs[k + 1]).0 == -dirs[k].1 && dirs[k + 1].1 == dirs[k].0,
{
    let first: (i32, i32) = if cardinal {
        (1, 0)
    } else {
        (1, 1)
    };
    let second: (i32, i32) = (-first.1, first.0);
    let third: (i32, i32) = (-second.1, second.0);
    let fourth: (i32, i32) = (-third.1, third.0);
    let dirs = [first, second, third, fourth];
    assert(dirs@ =~= burst(cardinal));
    dirs
}

impl Enemy {
    pub fn get_state(&self) -> (state: ActorState)
        ensures
            state == self.state,
    {
        self.state
    }

    pub fn get_tag(&self) -> (tag: ActorTag)
        ensures
            tag == ActorTag::Enemy,
    {
        ActorTag::Enemy
    }

    /// Takes a hit: the enemy shows the damaged state, whatever it showed before.
    pub fn damage(&mut self)
        ensures
            *final(self) == (Enemy { state: ActorState::Damaged, ..*old(self) }),
    {
        self.state = ActorState::Damaged;
    }

    /// The state at the end of a tick, as `settled` says. Says whether the
    /// enemy is dead.
    pub fn update(&mut self, animation_over: bool, health_spent: bool) -> (dead: bool)
        ensures
            dead == health_spent,
            *final(self) == (Enemy {
                state: settled(old(self).state, animation_over, health_spent),
                ..*old(self)
            }),
    {
        if animation_over {
            self.state = ActorState::Base;
        }
        if health_spent {
            self.state = ActorState::Dead;
        }
        health_spent
    }

    /// A shooter's turn. It fires where it is past its first wait
    /// (`unlocked`), the time since its last shot has run out (`ready`), the
    /// player is within four fifths of its range (`in_range`) and no obstacle
    /// stands between the two (`sight_blocked` is false): it shows the
    /// shooting state, and a shot of an enemy joins `shots`. Else nothing happens.
    pub fn shoot(
        &mut self,
        unlocked: bool,
        ready: bool,
        in_range: bool,
        sight_blocked: bool,
        shots: &mut Vec<Shot>,
    ) -> (fired: bool)
        ensures
            fired == (unlocked && ready && in_range && !sight_blocked),
            fired ==> *final(self) == (Enemy { state: ActorState::Shoot, ..*old(self) })
                && final(shots)@ == old(shots)@.push(Shot { tag: ShotTag::Enemy }),
            !fired ==> *final(self) == *old(self) && final(shots)@ == old(shots)@,
    {
        if !ready || !unlocked || !in_range || sight_blocked {
            return false;
        }
        self.state = ActorState::Shoot;
        shots.push(Shot { tag: ShotTag::Enemy });
        true
    }

    /// A boss's turn to shoot. It fires where it is past its first wait and
    /// the time since its last burst has run out: it shows the shooting
    /// state, and four shots of an enemy join `shots`. Else nothing happens.
    pub fn shoot_burst(&mut self, unlocked: bool, ready: bool, shots: &mut Vec<Shot>) -> (fired: bool)
        ensures
            fired == (unlocked && ready),
            fired ==> *final(self) == (Enemy { state: ActorState::Shoot, ..*old(self) })
                && final(shots)@ == old(shots)@ + Seq::new(4, |k: int| Shot { tag: ShotTag::Enemy }),
            !fired ==> *final(self) == *old(self) && final(shots)@ == old(shots)@,
    {
        if !ready || !unlocked {
            return false;
        }
        self.state = ActorState::Shoot;
        let ghost before = shots@;
        let mut k: usize = 0;
        while k < 4
            invariant
                0 <= k <= 4,
                shots@ == before + Seq::new(k as nat, |m: int| Shot { tag: ShotTag::Enemy }),
            decreases 4 - k,
        {
            shots.push(Shot { tag: ShotTag::Enemy });
            k += 1;
            assert(shots@ =~= before + Seq::new(k as nat, |m: int| Shot { tag: ShotTag::Enemy }));
        }
        true
    }

    /// Where a chaser heads: straight at the player while it sees the
    /// player; else to the next tile up the distance field, if the field
    /// rises anywhere round the chaser's tile `at`; else nowhere. Before its
    /// first wait is over (`unlocked` is false) it has no turn.
    pub fn chase(unlocked: bool, sight_blocked: bool, grid: &TileGrid, at: (usize, usize)) -> (target:
        Option<ChaseTarget>)
        ensures
            target == if unlocked {
                Some(chase_of(sight_blocked, *grid, at))
            } else {
                None
            },
    {
        if !unlocked {
            return None;
        }
        if !sight_blocked {
            return Some(ChaseTarget::Player);
        }
        match find_path(grid, at) {
            Some(tile) => Some(ChaseTarget::Tile(tile)),
            None => Some(ChaseTarget::Stay),
        }
    }

    /// The heading of a wanderer after a turn. While its wait runs it keeps
    /// the heading it has. Once the wait is over it turns up the distance
    /// field where the field rises round its tile `at`, and in the drawn
    /// direction where it does not.
    pub fn wander(
        wait_over: bool,
        heading: Option<Direction>,
        grid: &TileGrid,
        at: (usize, usize),
        drawn: Direction,
    ) -> (next: Option<Direction>)
        ensures
            !wait_over ==> next == heading,
            wait_over ==> next == Some(
                match uphill(*grid, as_cell(at)) {
                    Some(dir) => dir,
                    None => drawn,
                },
            ),
    {
        if !wait_over {
            return heading;
        }
        match uphill_direction(grid, at) {
            Some(dir) => Some(dir),
            None => Some(drawn),
        }
    }
}

impl Enemy {
    /// The turn of an enemy, by its behaviour: a shooter shoots, a chaser
    /// chases, a wanderer wanders, and a boss wanders and fires its burst.
    /// Before its first wait is over an enemy does nothing. `heading` is the
    /// heading it had, `at` the tile it stands on, `drawn` the direction
    /// drawn for a wanderer that finds no way up the field.
    pub fn act(
        &mut self,
        senses: Senses,
        heading: Option<Direction>,
        grid: &TileGrid,
        at: (usize, usize),
        drawn: Direction,
        shots: &mut Vec<Shot>,
    ) -> (action: Action)
        ensures
            final(self).tag == old(self).tag,
            final(self).tile == old(self).tile,
            final(self).damage == old(self).damage,
            action.fired == (old(self).tag == EnemyTag::Shooter && senses.unlocked && senses.ready
                && senses.in_range && !senses.sight_blocked),
            action.burst == (old(self).tag == EnemyTag::Boss && senses.unlocked && senses.ready),
            final(self).state == if action.fired || action.burst {
                ActorState::Shoot
            } else {
                old(self).state
            },
            final(shots)@ == old(shots)@ + Seq::new(
                if action.fired {
                    1nat
                } else if action.burst {
                    4nat
                } else {
                    0nat
                },
                |k: int| Shot { tag: ShotTag::Enemy },
            ),
            action.chase is Some <==> old(self).tag == EnemyTag::Chaser && senses.unlocked,
            action.chase is Some ==> action.chase->0 == chase_of(senses.sight_blocked, *grid, at),
            action.heading == if (old(self).tag == EnemyTag::Wanderer || old(self).tag
                == EnemyTag::Boss) && senses.unlocked && senses.wait_over {
                Some(
                    match uphill(*grid, as_cell(at)) {
                        Some(dir) => dir,
                        None => drawn,
                    },
                )
            } else {
                heading
            },
    {
        let ghost before = shots@;
        let mut action = Action { fired: false, burst: false, chase: None, heading };
        match self.tag {
            EnemyTag::Shooter => {
                action.fired = self.shoot(
                    senses.unlocked,
                    senses.ready,
                    senses.in_range,
                    senses.sight_blocked,
                    shots,
                );
            },
            EnemyTag::Chaser => {
                action.chase = Enemy::chase(senses.unlocked, senses.sight_blocked, grid, at);
            },
            EnemyTag::Wanderer => {
                if senses.unlocked {
                    action.heading = Enemy::wander(senses.wait_over, heading, grid, at, drawn);
                }
            },
            EnemyTag::Boss => {
                if senses.unlocked {
                    action.heading = Enemy::wander(senses.wait_over, heading, grid, at, drawn);
                }
                action.burst = self.shoot_burst(senses.unlocked, senses.ready, shots);
            },
        }
        proof {
            let added: nat = if action.fired {
                1
            } else if action.burst {
                4
            } else {
                0
            };
            assert(shots@ =~= before + Seq::new(added, |k: int| Shot { tag: ShotTag::Enemy }));
        }
        action
    }
}

} // verus!
