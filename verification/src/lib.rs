pub mod chance;
pub mod consts;
pub mod dungeon;
pub mod enemies;
pub mod field;
pub mod graph;
pub mod items;
pub mod layout;
pub mod player;
pub mod room;
pub mod scenes;
pub mod plan;
pub mod shots;
pub mod ui_elements;
pub mod utils;
