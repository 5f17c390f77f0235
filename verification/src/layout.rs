use vstd::prelude::*;
use vstd::string::StringSliceAdditionalSpecFns;
use crate::chance::{gen_below, gen_ratio};
use crate::consts::{
    AMOUNT_UNIT, ROOM_HEIGHT, ROOM_LAYOUTS_BOSS, ROOM_LAYOUTS_EMPTY, ROOM_LAYOUTS_ITEM,
    ROOM_LAYOUTS_MOB, ROOM_LAYOUT_START, ROOM_TILES, ROOM_WIDTH,
};
use crate::dungeon::{Block, BlockTag, DoorConnects, Room, RoomState, RoomTag, TileGrid};
use crate::enemies::{Enemy, EnemyTag};
use crate::field::{in_room, plain_grid};
use crate::graph::Cell;
use crate::items::{Item, ItemActive, ItemPassive, ItemTag};
use crate::utils::{ActorState, Direction};

verus! {

pub const WALL_BYTE: u8 = 35;

pub const STONE_BYTE: u8 = 46;

pub const SPIKES_BYTE: u8 = 118;

pub const DOOR_BYTE: u8 = 100;

pub const HATCH_BYTE: u8 = 104;

pub const PEDESTAL_BYTE: u8 = 112;

pub const SHOOTER_BYTE: u8 = 109;

pub const CHASER_BYTE: u8 = 98;

pub const WANDERER_BYTE: u8 = 115;

pub const BOSS_BYTE: u8 = 66;

/// The byte stands for an obstacle.
pub open spec fn is_block_byte(b: u8) -> bool {
    b == WALL_BYTE || b == STONE_BYTE || b == SPIKES_BYTE || b == DOOR_BYTE || b == HATCH_BYTE || b
        == PEDESTAL_BYTE
}

/// The byte stands for an enemy.
pub open spec fn is_enemy_byte(b: u8) -> bool {
    b == SHOOTER_BYTE || b == CHASER_BYTE || b == WANDERER_BYTE || b == BOSS_BYTE
}

/// How many bytes of a layout stand for tiles: all of them, up to the size of a room.
pub open spec fn tile_count(s: Seq<u8>) -> int {
    if s.len() <= 135 {
        s.len() as int
    } else {
        135
    }
}

/// How many of the first `n` bytes stand for an obstacle.
pub open spec fn blocks_before(s: Seq<u8>, n: int) -> nat
    decreases n,
{
    if n <= 0 {
        0
    } else {
        blocks_before(s, n - 1) + if is_block_byte(s[n - 1]) { 1nat } else { 0nat }
    }
}

/// How many of the first `n` bytes stand for a door.
pub open spec fn doors_before(s: Seq<u8>, n: int) -> nat
    decreases n,
{
    if n <= 0 {
        0
    } else {
        doors_before(s, n - 1) + if s[n - 1] == DOOR_BYTE { 1nat } else { 0nat }
    }
}

/// The connection of the door with the given ordinal: doors beyond the fourth have none.
pub open spec fn connect_at(connects: DoorConnects, ordinal: int) -> Option<
    ((usize, usize), Direction),
> {
    if 0 <= ordinal < 4 {
        connects[ordinal]
    } else {
        None
    }
}

/// The items that a pedestal can hold when a room is made.
pub open spec fn is_pool_item(item: Item) -> bool {
    &&& item.cooldown == 0
    &&& (item.tag == ItemTag::Active(ItemActive::Heal(100)) || item.tag == ItemTag::Passive(
        ItemPassive::IncreaseMaxHealth(100),
    ))
}

/// The obstacle kind that the byte `b` asks for. A door byte gives an open
/// door where its connection exists and a plain wall where it does not; a
/// pedestal holds some item of the pool.
pub open spec fn tag_fits(
    tag: BlockTag,
    b: u8,
    connect: Option<((usize, usize), Direction)>,
) -> bool {
    if b == WALL_BYTE {
        tag == BlockTag::Wall
    } else if b == STONE_BYTE {
        tag == BlockTag::Stone
    } else if b == SPIKES_BYTE {
        tag == BlockTag::Spikes
    } else if b == HATCH_BYTE {
        tag == BlockTag::Hatch(false)
    } else if b == DOOR_BYTE {
        match connect {
            Some((to, dir)) => tag == (BlockTag::Door { dir, is_open: true, connects_to: to }),
            None => tag == BlockTag::Wall,
        }
    } else if b == PEDESTAL_BYTE {
        match tag {
            BlockTag::Pedestal(Some(item)) => is_pool_item(item),
            _ => false,
        }
    } else {
        false
    }
}

/// The obstacles are those of the first `n` bytes, in the order of the bytes.
pub open spec fn obstacles_fit(
    obstacles: Seq<Block>,
    s: Seq<u8>,
    connects: DoorConnects,
    n: int,
) -> bool {
    &&& obstacles.len() == blocks_before(s, n)
    &&& forall|i: int|
        0 <= i < n && is_block_byte(#[trigger] s[i]) ==> {
            let k = blocks_before(s, i) as int;
            &&& obstacles[k].tile == i
            &&& tag_fits(obstacles[k].tag, s[i], connect_at(connects, doors_before(s, i) as int))
        }
}

/// Byte `i` gives an obstacle that the room counts among its doors: a door
/// with a connection, or a hatch.
pub open spec fn is_door_tile(s: Seq<u8>, connects: DoorConnects, i: int) -> bool {
    s[i] == HATCH_BYTE || (s[i] == DOOR_BYTE && connect_at(
        connects,
        doors_before(s, i) as int,
    ) is Some)
}

/// The positions among the obstacles of the doors that the first `n` bytes give.
pub open spec fn door_list(s: Seq<u8>, connects: DoorConnects, n: int) -> Seq<usize>
    decreases n,
{
    if n <= 0 {
        Seq::empty()
    } else if is_door_tile(s, connects, n - 1) {
        door_list(s, connects, n - 1).push(blocks_before(s, n - 1) as usize)
    } else {
        door_list(s, connects, n - 1)
    }
}

/// The damage of an enemy's touch and shots at a level, in hundredths: a
/// quarter at level 0, one at level 1 and one and a half above; a boss deals double.
pub open spec fn enemy_damage_spec(level: u32, tag: EnemyTag) -> u32 {
    let base: u32 = if level == 0 {
        25
    } else if level == 1 {
        100
    } else {
        150
    };
    if tag == EnemyTag::Boss {
        (2 * base) as u32
    } else {
        base
    }
}

pub open spec fn enemy_tag_of(b: u8) -> EnemyTag {
    if b == SHOOTER_BYTE {
        EnemyTag::Shooter
    } else if b == CHASER_BYTE {
        EnemyTag::Chaser
    } else if b == WANDERER_BYTE {
        EnemyTag::Wanderer
    } else {
        EnemyTag::Boss
    }
}

/// The enemy that byte `b` puts on tile `i`.
pub open spec fn enemy_of(b: u8, i: int, level: u32) -> Enemy {
    Enemy {
        tag: enemy_tag_of(b),
        tile: i as usize,
        state: ActorState::Base,
        damage: enemy_damage_spec(level, enemy_tag_of(b)),
    }
}

/// The enemies that the first `n` bytes give, in the order of the bytes.
pub open spec fn enemy_list(s: Seq<u8>, level: u32, n: int) -> Seq<Enemy>
    decreases n,
{
    if n <= 0 {
        Seq::empty()
    } else if is_enemy_byte(s[n - 1]) {
        enemy_list(s, level, n - 1).push(enemy_of(s[n - 1], n - 1, level))
    } else {
        enemy_list(s, level, n - 1)
    }
}

/// The value in a room's grid of the tile with index `i`: blocked under every
/// obstacle but spikes, free elsewhere.
pub open spec fn tile_value(s: Seq<u8>, i: int) -> i32 {
    if 0 <= i < tile_count(s) && is_block_byte(s[i]) && s[i] != SPIKES_BYTE {
        i32::MIN
    } else {
        0
    }
}

/// What parsing a layout gives: the obstacles, the enemies, the positions of
/// the doors among the obstacles, and the grid of blocked tiles.
pub open spec fn parsed(
    out: (Vec<Block>, Vec<Enemy>, Vec<usize>, TileGrid),
    s: Seq<u8>,
    connects: DoorConnects,
    level: u32,
) -> bool {
    &&& obstacles_fit(out.0@, s, connects, tile_count(s))
    &&& out.1@ == enemy_list(s, level, tile_count(s))
    &&& out.2@ == door_list(s, connects, tile_count(s))
    &&& forall|r: int, c: int|
        0 <= r < 9 && 0 <= c < 15 ==> #[trigger] out.3[r][c] == tile_value(s, r * 15 + c)
}

pub proof fn lemma_blocks_before_grows(s: Seq<u8>, a: int, b: int)
    requires
        a <= b,
    ensures
        blocks_before(s, a) <= blocks_before(s, b),
        blocks_before(s, b) <= if b > 0 { b } else { 0 },
    decreases b,
{
    if b > 0 {
        if a < b {
            lemma_blocks_before_grows(s, a, b - 1);
        } else {
            lemma_blocks_before_grows(s, b - 1, b - 1);
        }
    }
}

/// The damage of an enemy's touch and shots at a level, in hundredths.
pub fn enemy_damage(level: u32, tag: EnemyTag) -> (damage: u32)
    ensures
        damage == enemy_damage_spec(level, tag),
{
    let base: u32 = if level == 0 {
        25
    } else if level == 1 {
        100
    } else {
        150
    };
    match tag {
        EnemyTag::Boss => 2 * base,
        _ => base,
    }
}

/// The item of the pool that the two draws pick: the active one or the
/// passive one, each pool holding a single item.
pub fn pool_item(active: bool, index: usize) -> (item: Item)
    ensures
        item.cooldown == 0,
        active ==> item.tag == ItemTag::Active(ItemActive::Heal(100)),
        !active ==> item.tag == ItemTag::Passive(ItemPassive::IncreaseMaxHealth(100)),
{
    if active {
        Item { tag: ItemTag::Active(ItemActive::Heal(AMOUNT_UNIT)), cooldown: 0 }
    } else {
        Item { tag: ItemTag::Passive(ItemPassive::IncreaseMaxHealth(AMOUNT_UNIT)), cooldown: 0 }
    }
}

impl Room {
    /// Draws the item for a pedestal: with even odds from the active or the
    /// passive pool, and within the pool by a second draw.
    pub fn generate_item() -> (item: Item)
        ensures
            is_pool_item(item),
    {
        let active = gen_ratio(1, 2);
        let index = gen_below(1);
        pool_item(active, index)
    }

    /// Reads a flattened layout, one byte for each tile, row by row. Bytes
    /// beyond the last tile of a room are not read.
    ///
    /// Each obstacle byte gives an obstacle on its tile and, spikes apart,
    /// blocks the tile in the grid. The doors take their connections from
    /// `door_connects` in the order in which they stand in the layout; a door
    /// without a connection is a plain wall. Connected doors and hatches are
    /// listed by their position among the obstacles. Each enemy byte gives an
    /// enemy on its tile, with the damage of the level.
    pub fn parse_layout(layout: &[u8], door_connects: &DoorConnects, level: u32) -> (out: (
        Vec<Block>,
        Vec<Enemy>,
        Vec<usize>,
        TileGrid,
    ))
        ensures
            parsed(out, layout@, *door_connects, level),
    {
        let mut doors: Vec<usize> = Vec::new();
        let mut obstacles: Vec<Block> = Vec::new();
        let mut enemies: Vec<Enemy> = Vec::new();
        let mut grid: TileGrid = [[0i32; ROOM_WIDTH]; ROOM_HEIGHT];
        let mut door_index: usize = 0;
        let n: usize = if layout.len() <= ROOM_TILES {
            layout.len()
        } else {
            ROOM_TILES
        };
        let ghost s = layout@;
        let mut i: usize = 0;
        while i < n
            invariant
                s == layout@,
                n == tile_count(s),
                0 <= i <= n,
                door_index == doors_before(s, i as int),
                door_index <= i,
                obstacles_fit(obstacles@, s, *door_connects, i as int),
                enemies@ == enemy_list(s, level, i as int),
                doors@ == door_list(s, *door_connects, i as int),
                forall|r: int, c: int|
                    0 <= r < 9 && 0 <= c < 15 ==> #[trigger] grid[r][c] == if r * 15 + c < i {
                        tile_value(s, r * 15 + c)
                    } else {
                        0
                    },
            decreases n - i,
        {
            let c: u8 = layout[i];
            let ghost grid_before = grid;
            let ghost obstacles_before = obstacles@;
            proof {
                lemma_blocks_before_grows(s, i as int, i as int);
            }
            if c == WALL_BYTE || c == STONE_BYTE || c == SPIKES_BYTE || c == DOOR_BYTE || c
                == HATCH_BYTE || c == PEDESTAL_BYTE {
                if c != SPIKES_BYTE {
                    grid[i / ROOM_WIDTH][i % ROOM_WIDTH] = i32::MIN;
                }
                let tag = if c == DOOR_BYTE {
                    let connect = if door_index < 4 {
                        door_connects[door_index]
                    } else {
                        None
                    };
                    door_index += 1;
                    match connect {
                        Some((connects_to, dir)) => {
                            doors.push(obstacles.len());
                            BlockTag::Door { dir, is_open: true, connects_to }
                        },
                        None => BlockTag::Wall,
                    }
                } else if c == WALL_BYTE {
                    BlockTag::Wall
                } else if c == STONE_BYTE {
                    BlockTag::Stone
                } else if c == SPIKES_BYTE {
                    BlockTag::Spikes
                } else if c == HATCH_BYTE {
                    doors.push(obstacles.len());
                    BlockTag::Hatch(false)
                } else {
                    BlockTag::Pedestal(Some(Room::generate_item()))
                };
                obstacles.push(Block { tile: i, tag });
                proof {
                    assert forall|t: int|
                        0 <= t < i + 1 && is_block_byte(#[trigger] s[t]) implies {
                        let k = blocks_before(s, t) as int;
                        &&& obstacles@[k].tile == t
                        &&& tag_fits(
                            obstacles@[k].tag,
                            s[t],
                            connect_at(*door_connects, doors_before(s, t) as int),
                        )
                    } by {
                        if t < i {
                            lemma_blocks_before_grows(s, t + 1, i as int);
                            assert(obstacles@[blocks_before(s, t) as int]
                                == obstacles_before[blocks_before(s, t) as int]);
                        }
                    }
                }
            } else if c == SHOOTER_BYTE || c == CHASER_BYTE || c == WANDERER_BYTE || c
                == BOSS_BYTE {
                let tag = if c == SHOOTER_BYTE {
                    EnemyTag::Shooter
                } else if c == CHASER_BYTE {
                    EnemyTag::Chaser
                } else if c == WANDERER_BYTE {
                    EnemyTag::Wanderer
                } else {
                    EnemyTag::Boss
                };
                enemies.push(
                    Enemy { tag, tile: i, state: ActorState::Base, damage: enemy_damage(level, tag) },
                );
            }
            proof {
                assert forall|r: int, col: int| 0 <= r < 9 && 0 <= col < 15 implies #[trigger] grid[r][col]
                    == if r * 15 + col < i + 1 {
                    tile_value(s, r * 15 + col)
                } else {
                    0
                } by {
                    if r * 15 + col == i {
                        assert(i as int / 15 == r && i as int % 15 == col);
                    } else {
                        assert(!(i as int / 15 == r && i as int % 15 == col));
                        assert(grid[r][col] == grid_before[r][col]);
                    }
                }
            }
            i += 1;
        }
        (obstacles, enemies, doors, grid)
    }
}

pub const NEWLINE_BYTE: u8 = 10;

/// A byte that is trimmed from the ends of a line: a blank, or one of the
/// control characters from tab to carriage return.
pub open spec fn is_space_byte(b: u8) -> bool {
    b == 32 || (9 <= b && b <= 13)
}

/// Where the line that holds position `from` ends: at the next newline, or
/// at the end of the text.
pub open spec fn line_end(s: Seq<u8>, from: int) -> int
    decreases s.len() - from,
{
    if from >= s.len() {
        s.len() as int
    } else if s[from] == NEWLINE_BYTE {
        from
    } else {
        line_end(s, from + 1)
    }
}

/// The first position from `lo` on, and before `hi`, that holds no space; `hi` where all do.
pub open spec fn trim_start(s: Seq<u8>, lo: int, hi: int) -> int
    decreases hi - lo,
{
    if lo >= hi {
        hi
    } else if is_space_byte(s[lo]) {
        trim_start(s, lo + 1, hi)
    } else {
        lo
    }
}

/// The position behind the last byte before `hi`, and from `lo` on, that is no space; `lo` where all are.
pub open spec fn trim_end(s: Seq<u8>, lo: int, hi: int) -> int
    decreases hi - lo,
{
    if lo >= hi {
        lo
    } else if is_space_byte(s[hi - 1]) {
        trim_end(s, lo, hi - 1)
    } else {
        hi
    }
}

/// The lines of the text from position `from` on, each without the spaces at
/// its two ends, one after the other.
pub open spec fn flatten_from(s: Seq<u8>, from: int) -> Seq<u8>
    decreases s.len() - from,
{
    if from < 0 || from >= s.len() {
        Seq::empty()
    } else {
        let end = line_end(s, from);
        let a = trim_start(s, from, end);
        let b = trim_end(s, a, end);
        if from <= end && end < s.len() {
            s.subrange(a, b) + flatten_from(s, end + 1)
        } else {
            s.subrange(a, b)
        }
    }
}

/// A layout as one row of tiles: its lines, trimmed and joined.
pub open spec fn flattened(s: Seq<u8>) -> Seq<u8> {
    flatten_from(s, 0)
}

proof fn lemma_line_end_bounds(s: Seq<u8>, from: int)
    requires
        0 <= from <= s.len(),
    ensures
        from <= line_end(s, from) <= s.len(),
    decreases s.len() - from,
{
    if from < s.len() && s[from] != NEWLINE_BYTE {
        lemma_line_end_bounds(s, from + 1);
    }
}

proof fn lemma_trim_bounds(s: Seq<u8>, lo: int, hi: int)
    requires
        lo <= hi,
    ensures
        lo <= trim_start(s, lo, hi) <= hi,
        lo <= trim_end(s, lo, hi) <= hi,
    decreases hi - lo,
{
    if lo < hi {
        if is_space_byte(s[lo]) {
            lemma_trim_bounds(s, lo + 1, hi);
        }
        if is_space_byte(s[hi - 1]) {
            lemma_trim_bounds(s, lo, hi - 1);
        }
    }
}

/// Joins the lines of a layout into one row of tiles, dropping the spaces at
/// the two ends of each line and the line breaks.
pub fn flatten_layout(layout: &str) -> (flat: Vec<u8>)
    ensures
        flat@ == flattened(layout.spec_bytes()),
{
    let bytes = layout.as_bytes();
    let ghost s = bytes@;
    let mut flat: Vec<u8> = Vec::new();
    let mut pos: usize = 0;
    while pos < bytes.len()
        invariant
            s == bytes@,
            s == layout.spec_bytes(),
            0 <= pos <= s.len(),
            flat@ + flatten_from(s, pos as int) == flattened(s),
        decreases s.len() - pos,
    {
        let mut end: usize = pos;
        while end < bytes.len() && bytes[end] != NEWLINE_BYTE
            invariant
                s == bytes@,
                pos <= end <= s.len(),
                line_end(s, end as int) == line_end(s, pos as int),
            decreases s.len() - end,
        {
            end += 1;
        }
        let mut a: usize = pos;
        while a < end && (bytes[a] == 32 || (9 <= bytes[a] && bytes[a] <= 13))
            invariant
                s == bytes@,
                pos <= a <= end <= s.len(),
                trim_start(s, a as int, end as int) == trim_start(s, pos as int, end as int),
            decreases end - a,
        {
            a += 1;
        }
        let mut b: usize = end;
        while a < b && (bytes[b - 1] == 32 || (9 <= bytes[b - 1] && bytes[b - 1] <= 13))
            invariant
                s == bytes@,
                a <= b <= end <= s.len(),
                trim_end(s, a as int, b as int) == trim_end(s, a as int, end as int),
            decreases b - a,
        {
            b -= 1;
        }
        let ghost flat_before = flat@;
        let mut k: usize = a;
        while k < b
            invariant
                s == bytes@,
                a <= k <= b <= s.len(),
                flat@ == flat_before + s.subrange(a as int, k as int),
            decreases b - k,
        {
            flat.push(bytes[k]);
            proof {
                assert(s.subrange(a as int, k as int + 1) == s.subrange(a as int, k as int).push(
                    s[k as int],
                ));
            }
            k += 1;
        }
        proof {
            assert(line_end(s, pos as int) == end);
            assert(trim_start(s, pos as int, end as int) == a);
            assert(trim_end(s, a as int, end as int) == b);
            if end < s.len() {
                assert(flat@ + flatten_from(s, end as int + 1) == flat_before + (s.subrange(
                    a as int,
                    b as int,
                ) + flatten_from(s, end as int + 1)));
            } else {
                assert(flatten_from(s, end as int) == Seq::<u8>::empty());
                assert(flat@ + Seq::<u8>::empty() == flat@);
            }
        }
        if end < bytes.len() {
            pos = end + 1;
        } else {
            pos = end;
        }
    }
    proof {
        assert(flatten_from(s, pos as int) == Seq::<u8>::empty());
        assert(flat@ + Seq::<u8>::empty() == flat@);
    }
    flat
}

/// How many layouts there are for rooms of a role.
pub open spec fn layout_count(tag: RoomTag) -> int {
    match tag {
        RoomTag::Start => 1,
        RoomTag::Empty => 3,
        RoomTag::Mob => 8,
        RoomTag::Boss => 1,
        RoomTag::Item => 1,
    }
}

/// The layout with the given index among those for rooms of a role.
pub open spec fn layout_of(tag: RoomTag, index: int) -> &'static str {
    match tag {
        RoomTag::Start => ROOM_LAYOUT_START,
        RoomTag::Empty => ROOM_LAYOUTS_EMPTY[index],
        RoomTag::Mob => ROOM_LAYOUTS_MOB[index],
        RoomTag::Boss => ROOM_LAYOUTS_BOSS[index],
        RoomTag::Item => ROOM_LAYOUTS_ITEM[index],
    }
}

/// The layout with the given index among those for rooms of a role.
pub fn pick_layout(tag: RoomTag, index: usize) -> (layout: &'static str)
    requires
        index < layout_count(tag),
    ensures
        layout == layout_of(tag, index as int),
{
    match tag {
        RoomTag::Start => ROOM_LAYOUT_START,
        RoomTag::Empty => ROOM_LAYOUTS_EMPTY[index],
        RoomTag::Mob => ROOM_LAYOUTS_MOB[index],
        RoomTag::Boss => ROOM_LAYOUTS_BOSS[index],
        RoomTag::Item => ROOM_LAYOUTS_ITEM[index],
    }
}

/// A room as it is made from a layout: nothing discovered, no shots, no
/// drops, and obstacles, enemies, doors and grid as the layout says.
pub open spec fn made_from(
    room: Room,
    layout: Seq<u8>,
    dungeon_coords: (usize, usize),
    connects: DoorConnects,
    tag: RoomTag,
    level: u32,
) -> bool {
    &&& room.tag == tag
    &&& room.state == RoomState::Undiscovered
    &&& room.width == 15
    &&& room.height == 9
    &&& room.dungeon_coords == dungeon_coords
    &&& room.shots@.len() == 0
    &&& room.drops@.len() == 0
    &&& parsed(
        (room.obstacles, room.enemies, room.doors, room.grid),
        flattened(layout),
        connects,
        level,
    )
}

impl Room {
    /// Makes the room of a slot from the text of a layout.
    pub fn from_layout(
        layout: &str,
        dungeon_coords: (usize, usize),
        door_connects: DoorConnects,
        tag: RoomTag,
        level: u32,
    ) -> (room: Room)
        ensures
            made_from(room, layout.spec_bytes(), dungeon_coords, door_connects, tag, level),
    {
        let flat = flatten_layout(layout);
        let (obstacles, enemies, doors, grid) = Room::parse_layout(
            flat.as_slice(),
            &door_connects,
            level,
        );
        Room {
            tag,
            state: RoomState::Undiscovered,
            width: ROOM_WIDTH,
            height: ROOM_HEIGHT,
            grid,
            dungeon_coords,
            doors,
            obstacles,
            enemies,
            shots: Vec::new(),
            drops: Vec::new(),
        }
    }

    /// Makes the room of a slot: draws one of the layouts for its role (the
    /// start room has a single one) and reads it.
    pub fn generate_room(
        dungeon_coords: (usize, usize),
        door_connects: DoorConnects,
        tag: RoomTag,
        level: u32,
    ) -> (room: Room)
        ensures
            exists|index: int|
                0 <= index < layout_count(tag) && #[trigger] made_from(
                    room,
                    layout_of(tag, index).spec_bytes(),
                    dungeon_coords,
                    door_connects,
                    tag,
                    level,
                ),
    {
        let index: usize = match tag {
            RoomTag::Start => 0,
            RoomTag::Empty => gen_below(3),
            RoomTag::Mob => gen_below(8),
            RoomTag::Boss => gen_below(1),
            RoomTag::Item => gen_below(1),
        };
        let layout = pick_layout(tag, index);
        let room = Room::from_layout(layout, dungeon_coords, door_connects, tag, level);
        proof {
            assert(made_from(
                room,
                layout_of(tag, index as int).spec_bytes(),
                dungeon_coords,
                door_connects,
                tag,
                level,
            ));
        }
        room
    }
}

/// The grid that parsing leaves is plain: every tile is free or blocked.
pub proof fn lemma_parsed_grid_is_plain(
    out: (Vec<Block>, Vec<Enemy>, Vec<usize>, TileGrid),
    s: Seq<u8>,
    connects: DoorConnects,
    level: u32,
)
    requires
        parsed(out, s, connects, level),
    ensures
        plain_grid(out.3),
        forall|c: Cell| in_room(c) ==> #[trigger] out.3[c.0][c.1] == 0 || out.3[c.0][c.1] == i32::MIN,
{
    assert forall|c: Cell| in_room(c) implies (#[trigger] out.3[c.0][c.1] == 0 || out.3[c.0][c.1]
        == i32::MIN) by {
        assert(out.3[c.0][c.1] == tile_value(s, c.0 * 15 + c.1));
    }
}

/// Every entry of the door list that parsing leaves is the position of a
/// door or a hatch among the obstacles.
pub proof fn lemma_listed_doors_are_doors(
    obstacles: Seq<Block>,
    s: Seq<u8>,
    connects: DoorConnects,
    n: int,
    d: int,
)
    requires
        obstacles_fit(obstacles, s, connects, n),
        0 <= d < door_list(s, connects, n).len(),
    ensures
        door_list(s, connects, n)[d] < obstacles.len(),
        obstacles[door_list(s, connects, n)[d] as int].tag is Door || obstacles[door_list(
            s,
            connects,
            n,
        )[d] as int].tag is Hatch,
    decreases n,
{
    if n > 0 {
        lemma_blocks_before_grows(s, n - 1, n);
        let rest = door_list(s, connects, n - 1);
        assert(obstacles.len() == blocks_before(s, n));
        if d < rest.len() {
            let fewer = obstacles.take(blocks_before(s, n - 1) as int);
            assert forall|i: int| 0 <= i < n - 1 && is_block_byte(#[trigger] s[i]) implies {
                let k = blocks_before(s, i) as int;
                &&& fewer[k].tile == i
                &&& tag_fits(fewer[k].tag, s[i], connect_at(connects, doors_before(s, i) as int))
            } by {
                lemma_blocks_before_grows(s, i + 1, n - 1);
            }
            lemma_listed_doors_are_doors(fewer, s, connects, n - 1, d);
            assert(fewer[rest[d] as int] == obstacles[rest[d] as int]);
        } else {
            assert(is_door_tile(s, connects, n - 1));
            assert(is_block_byte(s[n - 1]));
            lemma_blocks_before_grows(s, n - 1, n - 1);
        }
    }
}

} // verus!
