use vstd::prelude::*;

verus! {

/// Width of the screen that the game is laid out for, in pixels.
pub const DEFAULT_SCREEN_WIDTH_PX: u32 = 1280;

/// Height of the screen that the game is laid out for, in pixels.
pub const DEFAULT_SCREEN_HEIGHT_PX: u32 = 720;

/// Simulation ticks per second.
pub const DESIRED_FPS: u32 = 60;

/// Rooms an active item needs cleared before it can be used again.
pub const ITEM_COOLDOWN: u32 = 3;

/// Amounts are counted in hundredths: a full heart is `AMOUNT_UNIT`.
pub const AMOUNT_UNIT: u32 = 100;

pub const DUNGEON_GRID_ROWS: usize = 8;

pub const DUNGEON_GRID_COLS: usize = 9;

pub const ROOM_WIDTH: usize = 15;

pub const ROOM_HEIGHT: usize = 9;

/// Tiles in a room: `ROOM_WIDTH * ROOM_HEIGHT`.
pub const ROOM_TILES: usize = 135;

/// Row of the start room in the dungeon grid.
pub const START_ROW: usize = 3;

/// Column of the start room in the dungeon grid.
pub const START_COL: usize = 5;

/// Rooms every level has before the per-level increase.
pub const BASE_ROOM_COUNT: usize = 5;

/// How often generation starts over before it gives up.
pub const MAX_GENERATION_ATTEMPTS: u32 = 100000;

pub const ROOM_LAYOUT_START: &'static str = "
#######d#######
#             #
#             #
#             #
d             d
#             #
#             #
#             #
#######d#######
";

pub const ROOM_LAYOUT_ITEM_0: &'static str = "
#######d#######
#v           v#
#      v      #
#             #
d    v p v    d
#             #
#      v      #
#v           v#
#######d#######
";

pub const ROOM_LAYOUT_EMPTY_0: &'static str = "
#######d#######
#             #
#   . . . .   #
#             #
d   . . . .   d
#             #
#   . . . .   #
#             #
#######d#######
";

pub const ROOM_LAYOUT_EMPTY_1: &'static str = "
#######d#######
#             #
#   v v v v   #
#             #
d   v v v v   d
#             #
#   v v v v   #
#             #
#######d#######
";

pub const ROOM_LAYOUT_EMPTY_2: &'static str = "
#######d#######
#             #
#    ....     #
#   .....     #
d             d
#     .....   #
#     ....    #
#             #
#######d#######
";

pub const ROOM_LAYOUT_MOB_0: &'static str = "
#######d#######
#m           m#
#....     ....#
#             #
d             d
#             #
#....     ....#
#m           m#
#######d#######
";

pub const ROOM_LAYOUT_MOB_1: &'static str = "
#######d#######
#.           .#
#.. . ... . ..#
#.  . m.m .  .#
d   .  .  .   d
#.  . m.m .  .#
#.. . ... . ..#
#.           .#
#######d#######
";

pub const ROOM_LAYOUT_MOB_2: &'static str = "
#######d#######
#..         ..#
#.           .#
#      b      #
d     bbb     d
#      b      #
#.           .#
#..         ..#
#######d#######
";

pub const ROOM_LAYOUT_MOB_3: &'static str = "
#######d#######
#             #
#      .      #
#  .     .    #
d   .b m b.   d
#             #
#      .      #
#             #
#######d#######
";

pub const ROOM_LAYOUT_MOB_4: &'static str = "
#######d#######
#             #
#  s       s  #
#      s      #
d    s   s    d
#      s      #
#  s       s  #
#             #
#######d#######
";

pub const ROOM_LAYOUT_MOB_5: &'static str = "
#######d#######
#          ...#
#           m.#
#          . .#
d             d
#. .          #
#.m           #
#...          #
#######d#######
";

pub const ROOM_LAYOUT_MOB_6: &'static str = "
#######d#######
#.m.          #
#. .          #
#. .          #
d             d
#          . .#
#          . .#
#          .m.#
#######d#######
";

pub const ROOM_LAYOUT_MOB_7: &'static str = "
#######d#######
#             #
#             #
#             #
d      b      d
#             #
#             #
#             #
#######d#######
";

pub const ROOM_LAYOUT_BOSS_0: &'static str = "
#######d#######
#             #
#      h      #
#             #
d      B      d
#             #
#             #
#             #
#######d#######
";

pub const ROOM_LAYOUTS_ITEM: [&'static str; 1] = [ROOM_LAYOUT_ITEM_0];

pub const ROOM_LAYOUTS_EMPTY: [&'static str; 3] = [
    ROOM_LAYOUT_EMPTY_0,
    ROOM_LAYOUT_EMPTY_1,
    ROOM_LAYOUT_EMPTY_2,
];

pub const ROOM_LAYOUTS_MOB: [&'static str; 8] = [
    ROOM_LAYOUT_MOB_0,
    ROOM_LAYOUT_MOB_1,
    ROOM_LAYOUT_MOB_2,
    ROOM_LAYOUT_MOB_3,
    ROOM_LAYOUT_MOB_4,
    ROOM_LAYOUT_MOB_5,
    ROOM_LAYOUT_MOB_6,
    ROOM_LAYOUT_MOB_7,
];

pub const ROOM_LAYOUTS_BOSS: [&'static str; 1] = [ROOM_LAYOUT_BOSS_0];

} // verus!
