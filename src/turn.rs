use crate::coordinate::Coordinate;
use crate::play::PlayEntry;
use crate::tile::Tile;
use crate::types::{is_plays_seq, Board};
use vstd::prelude::*;

verus! {

/// Total number of tiles in the first `k` hands.
pub open spec fn spec_hands_len(hands: Seq<Vec<Tile>>, k: int) -> int
    decreases k,
{
    if k <= 0 {
        0
    } else {
        spec_hands_len(hands, k - 1) + hands[k - 1]@.len()
    }
}

/// Total number of tiles in all hands.
pub open spec fn spec_total_hands_len(hands: Seq<Vec<Tile>>) -> int {
    spec_hands_len(hands, hands.len() as int)
}

/// Replacing one hand changes the total by the change of that hand.
pub proof fn lemma_hands_len_update(hands: Seq<Vec<Tile>>, i: int, hand: Vec<Tile>, k: int)
    requires
        0 <= i < hands.len(),
        0 <= k <= hands.len(),
    ensures
        spec_hands_len(hands.update(i, hand), k) == spec_hands_len(hands, k) + if i < k {
            hand@.len() - hands[i]@.len()
        } else {
            0
        },
    decreases k,
{
    if k > 0 {
        lemma_hands_len_update(hands, i, hand, k - 1);
    }
}

/// Strictly increasing indexes below `n` number at most `n`.
pub proof fn lemma_increasing_indexes_len(s: Seq<PlayEntry>, n: int)
    requires
        is_plays_seq(s),
        0 <= n,
        forall|i: int| 0 <= i < s.len() ==> (#[trigger] s[i]).0 < n,
    ensures
        s.len() <= n,
{
    assert forall|i: int| 0 <= i < s.len() implies (#[trigger] s[i]).0 >= i by {
        lemma_index_at_least_position(s, i);
    }
    if s.len() > 0 {
        assert(s[s.len() - 1].0 >= s.len() - 1);
        assert(s[s.len() - 1].0 < n);
    }
}

proof fn lemma_index_at_least_position(s: Seq<PlayEntry>, i: int)
    requires
        is_plays_seq(s),
        0 <= i < s.len(),
    ensures
        s[i].0 >= i,
    decreases i,
{
    if i > 0 {
        lemma_index_at_least_position(s, i - 1);
        assert(s[i - 1].0 < s[i].0);
    }
}

/// Whether `c` is the coordinate of one of `plays`.
pub open spec fn spec_played_at(plays: Seq<PlayEntry>, c: Coordinate) -> bool {
    exists|i: int| 0 <= i < plays.len() && (#[trigger] plays[i]).1 == c
}

/// Whether `after` holds at `c` exactly what `before` holds there.
pub open spec fn spec_keeps(before: Map<Coordinate, Tile>, after: Map<Coordinate, Tile>, c: Coordinate) -> bool {
    after.contains_key(c) == before.contains_key(c) && (before.contains_key(c) ==> after[c] == before[c])
}

/// Whether `c` is the coordinate of one of `plays` from position `j` on.
pub open spec fn spec_played_from(plays: Seq<PlayEntry>, j: int, c: Coordinate) -> bool {
    exists|i: int| j <= i < plays.len() && (#[trigger] plays[i]).1 == c
}

/// The hand without the tiles that `plays` name, taken out from the last play to the first.
pub open spec fn spec_without_plays(hand: Seq<Tile>, plays: Seq<PlayEntry>) -> Seq<Tile>
    decreases plays.len(),
{
    if plays.len() == 0 {
        hand
    } else {
        spec_without_plays(hand.remove(plays.last().0 as int), plays.drop_last())
    }
}

/// Removes the tiles of `plays` from `hand`, highest index first, and puts each on the board
/// at its coordinate.
pub(crate) fn place_tiles(hand: &mut Vec<Tile>, plays: &Vec<PlayEntry>, board: &mut Board)
    requires
        is_plays_seq(plays@),
        forall|i: int| 0 <= i < plays@.len() ==> (#[trigger] plays@[i]).0 < old(hand)@.len(),
        forall|i: int| 0 <= i < plays@.len() ==> !old(board)@.contains_key((#[trigger] plays@[i]).1),
    ensures
        final(hand)@.len() == old(hand)@.len() - plays@.len(),
        final(hand)@ == spec_without_plays(old(hand)@, plays@),
        final(board)@.len() == old(board)@.len() + plays@.len(),
        forall|i: int| 0 <= i < plays@.len() ==> final(board)@.contains_key((#[trigger] plays@[i]).1)
            && final(board)@[plays@[i].1] == old(hand)@[plays@[i].0 as int],
        forall|c: Coordinate| !spec_played_at(plays@, c) ==> #[trigger] spec_keeps(old(board)@, final(board)@, c),
{
    let ghost old_hand = hand@;
    let ghost old_board = board@;
    proof {
        lemma_increasing_indexes_len(plays@, old_hand.len() as int);
    }
    let mut j: usize = plays.len();
    assert(plays@.take(plays@.len() as int) == plays@);
    while j > 0
        invariant
            j <= plays@.len() <= old_hand.len(),
            is_plays_seq(plays@),
            forall|i: int| 0 <= i < plays@.len() ==> (#[trigger] plays@[i]).0 < old_hand.len(),
            forall|i: int| 0 <= i < plays@.len() ==> !old_board.contains_key((#[trigger] plays@[i]).1),
            hand@.len() == old_hand.len() - (plays@.len() - j),
            spec_without_plays(old_hand, plays@) == spec_without_plays(hand@, plays@.take(j as int)),
            j > 0 ==> plays@[j - 1].0 < hand@.len(),
            forall|p: int| 0 <= p < (if j > 0 { plays@[j - 1].0 + 1 } else { 0 }) ==> #[trigger] hand@[p] == old_hand[p],
            board@.dom().finite(),
            board@.len() == old_board.len() + (plays@.len() - j),
            forall|i: int| j <= i < plays@.len() ==> board@.contains_key((#[trigger] plays@[i]).1)
                && board@[plays@[i].1] == old_hand[plays@[i].0 as int],
            forall|c: Coordinate| !spec_played_from(plays@, j as int, c)
                ==> (#[trigger] board@.contains_key(c) == old_board.contains_key(c) && (old_board.contains_key(c)
                ==> board@[c] == old_board[c])),
        decreases j,
    {
        let (index, coordinate) = plays[j - 1];
        proof {
            if j > 1 {
                assert(plays@[j - 2].0 < plays@[j - 1].0);
            }
            assert(!board@.contains_key(coordinate)) by {
                if board@.contains_key(coordinate) {
                    assert(!old_board.contains_key(coordinate));
                    let i = choose|i: int| j <= i < plays@.len() && (#[trigger] plays@[i]).1 == coordinate;
                    assert(plays@[i].1 == plays@[j - 1].1);
                }
            }
        }
        let ghost before = hand@;
        let tile = hand.remove(index);
        proof {
            assert(plays@.take(j as int).last() == plays@[j - 1]);
            assert(plays@.take(j as int).drop_last() == plays@.take(j - 1));
            assert(spec_without_plays(before, plays@.take(j as int)) == spec_without_plays(hand@, plays@.take(j - 1)));
        }
        board.insert(coordinate, tile);
        proof {
            assert forall|c: Coordinate| !spec_played_from(plays@, j - 1, c)
                implies (#[trigger] board@.contains_key(c) == old_board.contains_key(c) && (old_board.contains_key(c)
                ==> board@[c] == old_board[c])) by {
                assert(plays@[j - 1].1 != c);
                assert(!spec_played_from(plays@, j as int, c)) by {
                    if spec_played_from(plays@, j as int, c) {
                        let i = choose|i: int| j <= i < plays@.len() && (#[trigger] plays@[i]).1 == c;
                        assert(j - 1 <= i);
                    }
                }
            }
        }
        j = j - 1;
    }
    proof {
        assert(plays@.take(0) == Seq::<PlayEntry>::empty());
        assert forall|c: Coordinate| !spec_played_at(plays@, c) implies #[trigger] spec_keeps(old_board, board@, c) by {
            if spec_played_from(plays@, 0, c) {
                let i = choose|i: int| 0 <= i < plays@.len() && (#[trigger] plays@[i]).1 == c;
                assert(spec_played_at(plays@, c));
            }
            assert(!spec_played_from(plays@, j as int, c));
        }
    }
}

/// Moves up to `count` tiles from the end of the bag to the end of the hand, in order.
pub(crate) fn draw_tiles(hand: &mut Vec<Tile>, bag: &mut Vec<Tile>, count: usize)
    ensures
        ({
            let drawn = if count <= old(bag)@.len() { count as int } else { old(bag)@.len() as int };
            &&& final(bag)@ == old(bag)@.take(old(bag)@.len() - drawn)
            &&& final(hand)@ == old(hand)@ + old(bag)@.skip(old(bag)@.len() - drawn)
        }),
{
    let drawn = if count <= bag.len() { count } else { bag.len() };
    let mut taken = bag.split_off(bag.len() - drawn);
    hand.append(&mut taken);
}

} // verus!
