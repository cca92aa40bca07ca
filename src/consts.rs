use vstd::prelude::*;

verus! {

/// Extra points for a line that holds every color or every shape.
pub const FULL_MATCH_BONUS: usize = 6;

/// Extra points for the play that ends the game.
pub const LAST_PLAY_BONUS: usize = 6;

/// Number of players for which player data is expected to fit without reallocation.
pub const PLAYER_CAPACITY: usize = 4;

/// Number of tiles for which a hand is expected to fit without reallocation.
pub const HAND_CAPACITY: usize = 6;

/// Largest number of tiles that a game may put into circulation.
pub const TILE_LIMIT: usize = 10_000;

/// Exclusive bound on the absolute value of each component of a coordinate.
pub const COORDINATE_LIMIT: isize = 10_000;

/// Largest number of holes that a rejected play reports; `0` turns the search off.
pub const HOLES_LIMIT: usize = 100;

/// Number of distinct tiles: one for each pair of a color and a shape.
pub const TILES_LEN: usize = 36;

/// Number of copies of each distinct tile when a game is created with the defaults.
pub const DEFAULT_UNIQUE_TILE_COPIED_COUNT: usize = 3;

/// Number of tiles in each hand when a game is created with the defaults.
pub const DEFAULT_HAND_LEN: usize = 6;

} // verus!
