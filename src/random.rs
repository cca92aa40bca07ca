use crate::tile::Tile;
use rand::seq::SliceRandom;
use rand::Rng;
use vstd::prelude::*;

verus! {

/// Relies on `rand::Rng::gen_range` with the thread-local generator: for a non-empty range
/// it returns a number inside it.
#[verifier::external_body]
pub(crate) fn random_below(n: usize) -> (r: usize)
    requires
        n > 0,
    ensures
        r < n,
{
    rand::thread_rng().gen_range(0..n)
}

/// Relies on `rand::seq::SliceRandom::shuffle` with the thread-local generator: it reorders
/// the tiles and keeps each of them.
#[verifier::external_body]
pub(crate) fn shuffle_tiles(tiles: &mut Vec<Tile>)
    ensures
        final(tiles)@.len() == old(tiles)@.len(),
        final(tiles)@.to_multiset() == old(tiles)@.to_multiset(),
{
    tiles.shuffle(&mut rand::thread_rng());
}

} // verus!
