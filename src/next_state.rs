use crate::consts::{COORDINATE_LIMIT, TILES_LEN, TILE_LIMIT};
use crate::coordinate::{find_component_minimums_and_maximums, Coordinate};
use crate::play::spec_in_bounds;
use crate::tile::{Color, Shape, Tile};
use crate::turn::spec_total_hands_len;
use crate::types::{board_entries, Bag, Board, HandLens, Hands, Points};
use vstd::prelude::*;

verus! {

/// The state of a game after its first turn and before its end.
#[derive(Debug)]
pub struct NextState {
    /// The tiles that nobody has drawn yet.
    pub bag: Bag,
    /// The tiles on the board, by coordinate.
    pub board: Board,
    /// The points of each player.
    pub points: Points,
    /// The hand of each player.
    pub hands: Hands,
    /// The index of the player whose turn it is.
    pub current_player: usize,
}

/// What every player may see of a game after its first turn.
#[derive(Debug)]
pub struct NextView<'a> {
    /// The number of tiles that nobody has drawn yet.
    pub bag_len: usize,
    /// The tiles on the board, by coordinate.
    pub board: &'a Board,
    /// The points of each player.
    pub points: &'a Points,
    /// The number of tiles in each hand.
    pub hand_lens: HandLens,
    /// The index of the player whose turn it is.
    pub current_player: usize,
}

/// Whether `a`, `b`, `c`, `d` are the smallest x, smallest y, largest x and largest y of the
/// coordinates on the board.
pub open spec fn spec_is_bounding_box(board: Map<Coordinate, Tile>, a: isize, b: isize, c: isize, d: isize) -> bool {
    &&& forall|p: Coordinate| #[trigger] board.contains_key(p) ==> a <= p.0 <= c && b <= p.1 <= d
    &&& exists|p: Coordinate| #[trigger] board.contains_key(p) && p.0 == a
    &&& exists|p: Coordinate| #[trigger] board.contains_key(p) && p.1 == b
    &&& exists|p: Coordinate| #[trigger] board.contains_key(p) && p.0 == c
    &&& exists|p: Coordinate| #[trigger] board.contains_key(p) && p.1 == d
}

/// Whether the board is a full rectangle of every color by every shape, where no line can
/// grow any more.
pub open spec fn spec_is_deadlocked(board: Map<Coordinate, Tile>) -> bool {
    board.len() == TILES_LEN && exists|a: isize, b: isize, c: isize, d: isize|
        #[trigger] spec_is_bounding_box(board, a, b, c, d) && ((c - a == Color::COLORS_LEN - 1 && d - b
            == Shape::SHAPES_LEN - 1) || (d - b == Color::COLORS_LEN - 1 && c - a == Shape::SHAPES_LEN
            - 1))
}

/// Whether the game ends: the current hand is empty, or the board is deadlocked.
pub open spec fn spec_has_ended(hand: Seq<Tile>, board: Map<Coordinate, Tile>) -> bool {
    hand.len() == 0 || spec_is_deadlocked(board)
}

impl NextState {
    /// Whether the state can take a turn: the current player is a player, each player has
    /// points, no hand holds more tiles than a game may have, and every tile on the board lies
    /// inside the coordinate limit.
    pub open spec fn wf(&self) -> bool {
        &&& self.current_player < self.hands@.len()
        &&& self.points@.len() == self.hands@.len()
        &&& forall|i: int| 0 <= i < self.hands@.len() ==> (#[trigger] self.hands@[i])@.len() <= TILE_LIMIT
        &&& forall|c: Coordinate| #[trigger] self.board@.contains_key(c) ==> spec_in_bounds(c)
    }

    /// Number of tiles in the bag, the hands and on the board together.
    pub open spec fn spec_tile_count(&self) -> int {
        self.bag@.len() + spec_total_hands_len(self.hands@) + self.board@.len()
    }

    /// The index of the player whose turn it is.
    pub fn current_player(&self) -> (r: usize)
        ensures
            r == self.current_player,
    {
        self.current_player
    }

    /// Whether the game ends: the current player's hand is empty, or the board is a filled
    /// rectangle of every color by every shape.
    pub fn has_ended(&self) -> (r: bool)
        requires
            self.current_player < self.hands@.len(),
        ensures
            r == spec_has_ended(self.hands@[self.current_player as int]@, self.board@),
    {
        if self.hands[self.current_player].len() == 0 {
            return true;
        }
        if self.board.len() != TILES_LEN {
            return false;
        }
        let entries = board_entries(&self.board);
        let mut coordinates: Vec<Coordinate> = Vec::new();
        let mut k: usize = 0;
        while k < entries.len()
            invariant
                k <= entries@.len(),
                coordinates@.len() == k,
                forall|i: int| 0 <= i < k ==> (#[trigger] coordinates@[i]) == entries@[i].0,
            decreases entries@.len() - k,
        {
            coordinates.push(entries[k].0);
            k = k + 1;
        }
        let ghost board = self.board@;
        proof {
            assert forall|p: Coordinate| board.contains_key(p) <==> coordinates@.contains(p) by {
                if board.contains_key(p) {
                    let i = choose|i: int| 0 <= i < entries@.len() && (#[trigger] entries@[i]).0 == p;
                    assert(coordinates@[i] == p);
                }
                if coordinates@.contains(p) {
                    let i = choose|i: int| 0 <= i < coordinates@.len() && coordinates@[i] == p;
                    assert(board.contains_key(entries@[i].0));
                }
            }
        }
        match find_component_minimums_and_maximums(coordinates.as_slice()) {
            None => {
                proof {
                    assert(board.contains_key(entries@[0].0));
                }
                false
            },
            Some((min_x, min_y, max_x, max_y)) => {
                let x_diff = max_x as i128 - min_x as i128;
                let y_diff = max_y as i128 - min_y as i128;
                let ended = (x_diff == 5 && y_diff == 5) || (y_diff == 5 && x_diff == 5);
                proof {
                    assert(spec_is_bounding_box(board, min_x, min_y, max_x, max_y)) by {
                        assert forall|p: Coordinate| #[trigger] board.contains_key(p) implies min_x <= p.0 <= max_x && min_y <= p.1 <= max_y by {
                            assert(coordinates@.contains(p));
                        }
                        let i0 = choose|i: int| 0 <= i < coordinates@.len() && (#[trigger] coordinates@[i]).0 == min_x;
                        let i1 = choose|i: int| 0 <= i < coordinates@.len() && (#[trigger] coordinates@[i]).1 == min_y;
                        let i2 = choose|i: int| 0 <= i < coordinates@.len() && (#[trigger] coordinates@[i]).0 == max_x;
                        let i3 = choose|i: int| 0 <= i < coordinates@.len() && (#[trigger] coordinates@[i]).1 == max_y;
                        assert(coordinates@.contains(coordinates@[i0]));
                        assert(coordinates@.contains(coordinates@[i1]));
                        assert(coordinates@.contains(coordinates@[i2]));
                        assert(coordinates@.contains(coordinates@[i3]));
                        assert(board.contains_key(coordinates@[i0]));
                        assert(board.contains_key(coordinates@[i1]));
                        assert(board.contains_key(coordinates@[i2]));
                        assert(board.contains_key(coordinates@[i3]));
                    }
                    assert forall|a: isize, b: isize, c: isize, d: isize| #[trigger] spec_is_bounding_box(board, a, b, c, d)
                        implies a == min_x && b == min_y && c == max_x && d == max_y by {
                        let p0 = choose|p: Coordinate| #[trigger] board.contains_key(p) && p.0 == a;
                        let p1 = choose|p: Coordinate| #[trigger] board.contains_key(p) && p.1 == b;
                        let p2 = choose|p: Coordinate| #[trigger] board.contains_key(p) && p.0 == c;
                        let p3 = choose|p: Coordinate| #[trigger] board.contains_key(p) && p.1 == d;
                        let q0 = choose|p: Coordinate| #[trigger] board.contains_key(p) && p.0 == min_x;
                        let q1 = choose|p: Coordinate| #[trigger] board.contains_key(p) && p.1 == min_y;
                        let q2 = choose|p: Coordinate| #[trigger] board.contains_key(p) && p.0 == max_x;
                        let q3 = choose|p: Coordinate| #[trigger] board.contains_key(p) && p.1 == max_y;
                    }
                }
                ended
            },
        }
    }

    /// What every player may see of the game: the bag and the hands only by their sizes.
    pub fn next_view(&self) -> (r: NextView<'_>)
        ensures
            r.bag_len == self.bag@.len(),
            r.board == &self.board,
            r.points == &self.points,
            r.hand_lens@.len() == self.hands@.len(),
            forall|i: int| 0 <= i < self.hands@.len() ==> r.hand_lens@[i] == (#[trigger] self.hands@[i])@.len(),
            r.current_player == self.current_player,
    {
        NextView {
            bag_len: self.bag.len(),
            board: &self.board,
            points: &self.points,
            hand_lens: crate::first_state::hand_lens(&self.hands),
            current_player: self.current_player,
        }
    }

    /// The hand of player `index`, or [None] when there is no such player.
    pub fn get_hand(&self, index: usize) -> (r: Option<&Vec<Tile>>)
        ensures
            index < self.hands@.len() <==> r is Some,
            r is Some ==> *r->0 == self.hands@[index as int],
    {
        if index < self.hands.len() {
            Some(&self.hands[index])
        } else {
            None
        }
    }

    /// A state with no tiles and no players, whose current player is `0`.
    pub fn empty_next_state() -> (r: NextState)
        ensures
            r.bag@.len() == 0,
            r.board@ == Map::<Coordinate, Tile>::empty(),
            r.points@.len() == 0,
            r.hands@.len() == 0,
            r.current_player == 0,
    {
        NextState { bag: Vec::new(), board: Board::new(), points: Vec::new(), hands: Vec::new(), current_player: 0 }
    }

    /// The bag, for changing it.
    pub fn mut_bag(&mut self) -> (r: &mut Bag)
        ensures
            *r == old(self).bag,
            *final(self) == (NextState { bag: *final(r), ..*old(self) }),
    {
        &mut self.bag
    }

    /// The board, for changing it.
    pub fn mut_board(&mut self) -> (r: &mut Board)
        ensures
            *r == old(self).board,
            *final(self) == (NextState { board: *final(r), ..*old(self) }),
    {
        &mut self.board
    }

    /// The points, for changing them.
    pub fn mut_points(&mut self) -> (r: &mut Points)
        ensures
            *r == old(self).points,
            *final(self) == (NextState { points: *final(r), ..*old(self) }),
    {
        &mut self.points
    }

    /// The hands, for changing them.
    pub fn mut_hands(&mut self) -> (r: &mut Hands)
        ensures
            *r == old(self).hands,
            *final(self) == (NextState { hands: *final(r), ..*old(self) }),
    {
        &mut self.hands
    }

    /// The index of the current player, for changing it.
    pub fn mut_current_player(&mut self) -> (r: &mut usize)
        ensures
            *r == old(self).current_player,
            *final(self) == (NextState { current_player: *final(r), ..*old(self) }),
    {
        &mut self.current_player
    }

    /// Replaces the board with every distinct tile in a compact grid, colors by row and
    /// shapes by column, where no more plays are possible.
    pub fn deadlocked_board(&mut self)
        ensures
            final(self).board@.len() == TILES_LEN,
            forall|i: int| 0 <= i < TILES_LEN ==> (#[trigger] final(self).board@[((i / 6) as isize, (i % 6) as isize)])
                == crate::tile::spec_tile_at(i) && final(self).board@.contains_key(((i / 6) as isize, (i % 6) as isize)),
            final(self).bag == old(self).bag,
            final(self).hands == old(self).hands,
            final(self).points == old(self).points,
            final(self).current_player == old(self).current_player,
    {
        let all_tiles = crate::tile::tiles();
        let mut board = Board::new();
        let mut k: usize = 0;
        while k < 36
            invariant
                k <= 36,
                all_tiles@.len() == 36,
                forall|i: int| 0 <= i < 36 ==> (#[trigger] all_tiles@[i]) == crate::tile::spec_tile_at(i),
                board@.dom().finite(),
                board@.len() == k,
                forall|i: int| 0 <= i < k ==> (#[trigger] board@[((i / 6) as isize, (i % 6) as isize)])
                    == crate::tile::spec_tile_at(i) && board@.contains_key(((i / 6) as isize, (i % 6) as isize)),
                forall|c: Coordinate| #[trigger] board@.contains_key(c) ==> 0 <= c.0 * 6 + c.1 < k && 0 <= c.1 < 6 && 0 <= c.0,
            decreases 36 - k,
        {
            let row = (k / 6) as isize;
            let col = (k % 6) as isize;
            proof {
                assert forall|c: Coordinate| #[trigger] board@.contains_key(c) implies c != (row, col) by {
                    if c == (row, col) {
                        assert(c.0 * 6 + c.1 == k) by (nonlinear_arith)
                            requires c.0 == k / 6, c.1 == k % 6, k < 36;
                    }
                }
                assert(row * 6 + col == k) by (nonlinear_arith)
                    requires row == k / 6, col == k % 6, k < 36;
            }
            board.insert((row, col), all_tiles[k]);
            proof {
                assert forall|c: Coordinate| #[trigger] board@.contains_key(c) implies 0 <= c.0 * 6 + c.1 < k + 1 && 0 <= c.1 < 6 && 0 <= c.0 by {
                    if c == (row, col) {
                        assert(c.0 * 6 + c.1 == k) by (nonlinear_arith)
                            requires c.0 == k / 6, c.1 == k % 6, k < 36;
                    }
                }
            }
            k = k + 1;
        }
        self.board = board;
    }
}

} // verus!
