use crate::types::{Board, Hands, Points};
use vstd::prelude::*;

verus! {

/// The state of a game that has ended: the board, the points and the hands.
#[derive(Debug)]
pub struct LastState {
    /// The tiles on the board, by coordinate.
    pub board: Board,
    /// The points of each player.
    pub points: Points,
    /// The hand of each player.
    pub hands: Hands,
}

/// What every player may see of a game that has ended.
#[derive(Debug)]
pub struct LastView<'a> {
    /// The tiles on the board, by coordinate.
    pub board: &'a Board,
    /// The points of each player.
    pub points: &'a Points,
    /// The hand of each player.
    pub hands: &'a Hands,
}

impl LastState {
    /// What every player may see of the game.
    pub fn last_view(&self) -> (r: LastView<'_>)
        ensures
            r.board == &self.board,
            r.points == &self.points,
            r.hands == &self.hands,
    {
        LastView { board: &self.board, points: &self.points, hands: &self.hands }
    }

    /// A state with no tiles on the board and no players.
    pub fn empty_last_state() -> (r: LastState)
        ensures
            r.board@ == Map::<crate::coordinate::Coordinate, crate::tile::Tile>::empty(),
            r.points@.len() == 0,
            r.hands@.len() == 0,
    {
        LastState { board: Board::new(), points: Vec::new(), hands: Vec::new() }
    }

    /// The board, for changing it.
    pub fn mut_board(&mut self) -> (r: &mut Board)
        ensures
            *r == old(self).board,
            *final(self) == (LastState { board: *final(r), ..*old(self) }),
    {
        &mut self.board
    }

    /// The points, for changing them.
    pub fn mut_points(&mut self) -> (r: &mut Points)
        ensures
            *r == old(self).points,
            *final(self) == (LastState { points: *final(r), ..*old(self) }),
    {
        &mut self.points
    }

    /// The hands, for changing them.
    pub fn mut_hands(&mut self) -> (r: &mut Hands)
        ensures
            *r == old(self).hands,
            *final(self) == (LastState { hands: *final(r), ..*old(self) }),
    {
        &mut self.hands
    }
}

} // verus!
