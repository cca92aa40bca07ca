use crate::coordinate::Coordinate;
use crate::tile::Tile;
use bimap::BiBTreeMap;
use either::Either;
use std::collections::{BTreeMap, BTreeSet};
use vstd::prelude::*;
use vstd::std_specs::iter::IteratorSpec;

verus! {

#[verifier::external_type_specification]
#[verifier::external_body]
#[verifier::reject_recursive_types(L)]
#[verifier::reject_recursive_types(R)]
pub struct ExBiBTreeMap<L, R>(BiBTreeMap<L, R>);

#[verifier::external_type_specification]
#[verifier::reject_recursive_types(L)]
#[verifier::reject_recursive_types(R)]
pub struct ExEither<L, R>(Either<L, R>);

/// A bimap from indexes of tiles in the current hand to the coordinates they are played at.
pub type Plays = BiBTreeMap<usize, Coordinate>;

/// An ordered set of indexes of tiles in the current hand to be exchanged.
pub type Exchanges = BTreeSet<usize>;

/// The tiles that nobody has drawn yet.
pub type Bag = Vec<Tile>;

/// The tiles on the board, by coordinate.
pub type Board = BTreeMap<Coordinate, Tile>;

/// The tiles of one player.
pub type Hand = Vec<Tile>;

/// The hand of each player.
pub type Hands = Vec<Hand>;

/// The points of each player.
pub type Points = Vec<usize>;

/// The largest number of matching tiles in each player's hand.
pub type MaxMatches = Vec<usize>;

/// The number of tiles in each player's hand.
pub type HandLens = Vec<usize>;

/// The pairs that a bimap of plays holds, in ascending order of index.
pub uninterp spec fn plays_entries(plays: Plays) -> Seq<(usize, Coordinate)>;

/// Pairs in strictly ascending order of index, no coordinate twice: what a bimap can hold.
pub open spec fn is_plays_seq(s: Seq<(usize, Coordinate)>) -> bool {
    &&& forall|i: int, j: int| 0 <= i < j < s.len() ==> (#[trigger] s[i]).0 < (#[trigger] s[j]).0
    &&& forall|i: int, j: int|
        0 <= i < s.len() && 0 <= j < s.len() && i != j ==> (#[trigger] s[i]).1 != (#[trigger] s[j]).1
}

/// Relies on `BiBTreeMap::iter`: it yields each pair once, in ascending order of the left
/// value, and a bimap holds each left value and each right value at most once.
#[verifier::external_body]
pub(crate) fn entries_of(plays: &Plays) -> (r: Vec<(usize, Coordinate)>)
    ensures
        r@ == plays_entries(*plays),
        is_plays_seq(r@),
{
    plays.iter().map(|(&index, &coordinate)| (index, coordinate)).collect()
}

/// Relies on `BiBTreeMap`'s `FromIterator`: pairs whose left values are distinct and whose
/// right values are distinct are all kept, and iterate in ascending order of the left value.
#[verifier::external_body]
pub(crate) fn plays_from(entries: Vec<(usize, Coordinate)>) -> (r: Plays)
    requires
        is_plays_seq(entries@),
    ensures
        plays_entries(r) == entries@,
{
    entries.into_iter().collect()
}


/// Whether no coordinate occurs twice in `s`.
pub open spec fn spec_distinct_coordinates(s: Seq<(Coordinate, Tile)>) -> bool {
    forall|i: int, j: int|
        0 <= i < s.len() && 0 <= j < s.len() && i != j ==> (#[trigger] s[i]).0 != (#[trigger] s[j]).0
}

/// Whether `s` lists exactly the pairs of `m`, each once.
pub open spec fn spec_lists_board(s: Seq<(Coordinate, Tile)>, m: Map<Coordinate, Tile>) -> bool {
    &&& spec_distinct_coordinates(s)
    &&& s.len() == m.len()
    &&& forall|i: int|
        0 <= i < s.len() ==> m.contains_key((#[trigger] s[i]).0) && m[s[i].0] == s[i].1
    &&& forall|c: Coordinate|
        #[trigger] m.contains_key(c) ==> exists|i: int| 0 <= i < s.len() && (#[trigger] s[i]).0 == c
}

/// The pairs of a board, each once.
pub fn board_entries(board: &Board) -> (r: Vec<(Coordinate, Tile)>)
    ensures
        spec_lists_board(r@, board@),
{
    let mut r: Vec<(Coordinate, Tile)> = Vec::new();
    for kv in it: board.iter()
        invariant
            r@.len() == it.index(),
            it.seq() == vstd::std_specs::btree::spec_btree_map_iter(board).remaining(),
            forall|i: int| 0 <= i < r@.len() ==> (#[trigger] r@[i]) == (*it.seq()[i].0, *it.seq()[i].1),
        ensures
            r@.len() == it.seq().len(),
            it.seq() == vstd::std_specs::btree::spec_btree_map_iter(board).remaining(),
            forall|i: int| 0 <= i < r@.len() ==> (#[trigger] r@[i]) == (*it.seq()[i].0, *it.seq()[i].1),
    {
        r.push((*kv.0, *kv.1));
    }
    let ghost v = vstd::std_specs::btree::spec_btree_map_iter(board).remaining();
    proof {
        assert forall|i: int, j: int|
            0 <= i < r@.len() && 0 <= j < r@.len() && i != j implies (#[trigger] r@[i]).0 != (#[trigger] r@[j]).0 by {
            if r@[i].0 == r@[j].0 {
                assert(board@[*v[i].0] == *v[i].1);
                assert(board@[*v[j].0] == *v[j].1);
                assert(v[i] == v[j]);
            }
        }
        assert forall|c: Coordinate| #[trigger] board@.contains_key(c) implies exists|i: int| 0 <= i < r@.len() && (#[trigger] r@[i]).0 == c by {
            assert(v.contains((&c, &board@[c])));
            let i = choose|i: int| 0 <= i < v.len() && v[i] == (&c, &board@[c]);
            assert(r@[i].0 == c);
        }
    }
    r
}

} // verus!
