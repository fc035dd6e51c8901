//! Turn-based tactics engine on a grid: units with chess-like movement
//! rules, move generation, a minimax opponent and a dungeon generator.

pub mod unit;
pub mod tile;
pub mod boardstate;
pub mod evaluation;
pub mod mapgenerator;
pub mod utils;
pub mod random;
pub mod floor;
