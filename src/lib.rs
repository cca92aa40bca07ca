//! Rules engine of a turn-based tile-matching game played on a grid.
//!
//! Tiles carry a color and a shape. Players score by placing tiles into straight lines
//! whose tiles all share exactly one of the two attributes. The game runs through three
//! phases: the first turn, the turns after it and the end of the game. Each transition
//! consumes the state by value and either returns the next state or hands the unchanged
//! state back together with every rule that the attempted action broke.

pub mod consts;
mod connect;
pub mod coordinate;
pub mod first_play;
pub mod first_state;
pub mod holes;
pub mod last_state;
pub mod laws;
pub mod line;
pub mod lines;
pub mod next_exchange;
pub mod next_play;
pub mod next_state;
pub mod play;
mod random;
pub mod tile;
pub mod turn;
pub mod types;

pub use consts::{
    COORDINATE_LIMIT, DEFAULT_HAND_LEN, DEFAULT_UNIQUE_TILE_COPIED_COUNT, FULL_MATCH_BONUS,
    HAND_CAPACITY, HOLES_LIMIT, LAST_PLAY_BONUS, PLAYER_CAPACITY, TILES_LEN, TILE_LIMIT,
};
pub use coordinate::{
    adjacent_coordinates, find_component_minimums_and_maximums, find_coordinate_by_minimum_distance,
    Coordinate,
};
pub use first_play::FirstPlayError;
pub use first_state::{FirstState, FirstView, NewError};
pub use last_state::{LastState, LastView};
pub use line::{check_line, check_line_entries, Groups};
pub use next_exchange::NextExchangeError;
pub use next_play::NextPlayError;
pub use next_state::{NextState, NextView};
pub use play::{
    batch_continuous_decreasing_range, batch_continuous_increasing_range, partition_by_coordinates,
    possible_plays,
};
pub use tile::{tiles, Color, Shape, Tile};
pub use types::{Bag, Board, Exchanges, Hand, HandLens, Hands, MaxMatches, Plays, Points};
