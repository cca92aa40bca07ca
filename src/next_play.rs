use crate::connect::{partition_connected, spec_is_chain, spec_is_connected_set, spec_touches_board};
use crate::consts::{COORDINATE_LIMIT, FULL_MATCH_BONUS, LAST_PLAY_BONUS, TILE_LIMIT};
use crate::coordinate::{
    find_component_minimums_and_maximums, find_coordinate_by_minimum_distance, spec_is_adjacent, Coordinate,
};
use crate::first_play::{spec_is_column, spec_is_row, spec_line_holes, spec_mid};
use crate::holes::find_holes_on_line;
use crate::last_state::LastState;
use crate::line::{
    check_line_entries, lemma_line_fails_groups, spec_duplicate_groups, spec_groups, spec_line_fails,
    spec_line_points, spec_multiple_groups, Groups,
};
use crate::lines::{play_lines, spec_filled, spec_lines_view, spec_play_lines, spec_play_position, spec_points_sum, spec_some_line_fails};
use crate::next_state::{spec_has_ended, NextState};
use crate::play::{
    coordinates_of, lemma_all_below_index, lemma_all_inside_limit, lemma_filter_plays_seq, spec_below_index,
    spec_coordinates, spec_from_index, spec_in_bounds, spec_inside_limit, spec_outside_limit, split_by_bounds,
    split_by_index, PlayEntry,
};
use crate::tile::Tile;
use crate::turn::{draw_tiles, lemma_hands_len_update, lemma_increasing_indexes_len, place_tiles, spec_played_at, spec_total_hands_len};
use crate::types::{entries_of, is_plays_seq, plays_entries, plays_from, Board, Plays};
use either::Either;
use std::collections::BTreeSet;
use vstd::prelude::*;

verus! {

broadcast use Seq::lemma_filter_push;

/// A reason why a play after the first turn was rejected.
#[derive(Debug, PartialEq, Eq, Hash)]
pub enum NextPlayError {
    /// No tile is played.
    EmptyPlays,
    /// Some plays name tiles that are not in the current player's hand.
    IndexesOutOfBounds {
        /// The plays whose index is at least the length of the hand.
        indexes_out_of_bounds: Plays,
    },
    /// Some plays lie too far from the center of the board.
    CoordinatesOutOfBounds {
        /// The plays with a component on or beyond the coordinate limit.
        coordinates_out_of_bounds: Plays,
    },
    /// Some plays lie where the board already holds a tile.
    CoordinatesOccupied {
        /// The plays at coordinates of the board.
        coordinates_occupied: Plays,
    },
    /// Some plays do not reach the board.
    NotConnected {
        /// The plays that neither touch the board nor touch a play that reaches it.
        not_connected: Plays,
    },
    /// No play is legal.
    NoLegalPlays,
    /// The legal plays are not a single tile or a line.
    NoLegalLines,
    /// The legal plays lie on a line but leave gaps in it.
    Holes {
        /// Runs of free coordinates, as first and last coordinate.
        holes: BTreeSet<(Coordinate, Coordinate)>,
    },
    /// A line holds a tile more than once.
    Duplicates {
        /// Groups of coordinates that hold the same tile.
        duplicates: Groups,
    },
    /// A line holds more than one matching group.
    MultipleMatching {
        /// The matching groups of the line.
        multiple_matching: Groups,
    },
}

/// Position of the kind of `e` in the declaration of [NextPlayError].
pub open spec fn spec_next_kind(e: NextPlayError) -> int {
    match e {
        NextPlayError::EmptyPlays => 0,
        NextPlayError::IndexesOutOfBounds { .. } => 1,
        NextPlayError::CoordinatesOutOfBounds { .. } => 2,
        NextPlayError::CoordinatesOccupied { .. } => 3,
        NextPlayError::NotConnected { .. } => 4,
        NextPlayError::NoLegalPlays => 5,
        NextPlayError::NoLegalLines => 6,
        NextPlayError::Holes { .. } => 7,
        NextPlayError::Duplicates { .. } => 8,
        NextPlayError::MultipleMatching { .. } => 9,
    }
}

/// Whether `errors` reports an error of the kind at position `kind` of [NextPlayError].
pub open spec fn spec_reports_next(errors: Seq<NextPlayError>, kind: int) -> bool {
    exists|i: int| 0 <= i < errors.len() && spec_next_kind(#[trigger] errors[i]) == kind
}

/// Whether the kinds of `errors` strictly increase and lie between `lo` and `hi`.
pub open spec fn spec_next_kinds_increase(errors: Seq<NextPlayError>, lo: int, hi: int) -> bool {
    &&& forall|i: int, j: int| 0 <= i < j < errors.len() ==> spec_next_kind(#[trigger] errors[i]) < spec_next_kind(#[trigger] errors[j])
    &&& forall|i: int| 0 <= i < errors.len() ==> lo <= #[trigger] spec_next_kind(errors[i]) <= hi
}

proof fn lemma_push_next(before: Seq<NextPlayError>, x: NextPlayError, lo: int)
    requires
        spec_next_kinds_increase(before, lo, spec_next_kind(x) - 1),
        lo <= spec_next_kind(x),
    ensures
        spec_next_kinds_increase(before.push(x), lo, spec_next_kind(x)),
{
    let after = before.push(x);
    assert forall|i: int, j: int| 0 <= i < j < after.len() implies spec_next_kind(#[trigger] after[i]) < spec_next_kind(#[trigger] after[j]) by {
        assert(after[i] == before[i]);
        if j < before.len() {
            assert(after[j] == before[j]);
        }
    }
    assert forall|i: int| 0 <= i < after.len() implies lo <= #[trigger] spec_next_kind(after[i]) <= spec_next_kind(x) by {
        if i < before.len() {
            assert(after[i] == before[i]);
        }
    }
}

/// Errors of increasing kinds followed by distinct errors of larger kinds are all different.
proof fn lemma_next_distinct(a: Seq<NextPlayError>, b: Seq<NextPlayError>)
    requires
        spec_next_kinds_increase(a, 0, 5),
        b.no_duplicates(),
        forall|i: int| 0 <= i < b.len() ==> 6 <= #[trigger] spec_next_kind(b[i]) <= 9,
    ensures
        (a + b).no_duplicates(),
{
    let c = a + b;
    assert forall|i: int, j: int| 0 <= i < c.len() && 0 <= j < c.len() && i != j implies c[i] != c[j] by {
        if i < a.len() && j < a.len() {
            assert(c[i] == a[i] && c[j] == a[j]);
            if i < j {
                assert(spec_next_kind(a[i]) < spec_next_kind(a[j]));
            } else {
                assert(spec_next_kind(a[j]) < spec_next_kind(a[i]));
            }
        } else if i < a.len() {
            assert(c[i] == a[i] && c[j] == b[j - a.len()]);
            assert(spec_next_kind(a[i]) <= 5 && spec_next_kind(b[j - a.len()]) >= 6);
        } else if j < a.len() {
            assert(c[j] == a[j] && c[i] == b[i - a.len()]);
            assert(spec_next_kind(a[j]) <= 5 && spec_next_kind(b[i - a.len()]) >= 6);
        } else {
            assert(c[i] == b[i - a.len()] && c[j] == b[j - a.len()]);
        }
    }
}

/// Whether `errors` reports the duplicate groups `g` of a line.
pub open spec fn spec_reports_duplicates(errors: Seq<NextPlayError>, g: Set<Set<Coordinate>>) -> bool {
    exists|i: int| 0 <= i < errors.len() && (#[trigger] errors[i]) is Duplicates && spec_groups(errors[i]->duplicates@) == g
}

/// Whether `errors` reports the matching groups `g` of a line.
pub open spec fn spec_reports_multiple(errors: Seq<NextPlayError>, g: Set<Set<Coordinate>>) -> bool {
    exists|i: int| 0 <= i < errors.len() && (#[trigger] errors[i]) is MultipleMatching && spec_groups(errors[i]->multiple_matching@) == g
}

/// The plays inside the coordinate limit at free coordinates of the board.
pub open spec fn spec_unoccupied(board: Map<Coordinate, Tile>, p: Seq<PlayEntry>) -> Seq<PlayEntry> {
    spec_inside_limit(p).filter(|e: PlayEntry| !board.contains_key(e.1))
}

/// The plays inside the coordinate limit at coordinates that the board already holds.
pub open spec fn spec_occupied(board: Map<Coordinate, Tile>, p: Seq<PlayEntry>) -> Seq<PlayEntry> {
    spec_inside_limit(p).filter(|e: PlayEntry| board.contains_key(e.1))
}

/// The coordinates among the free plays that reach the board.
pub open spec fn spec_connected(board: Map<Coordinate, Tile>, p: Seq<PlayEntry>) -> Set<Coordinate> {
    choose|c: Set<Coordinate>| spec_is_connected_set(board, spec_unoccupied(board, p), c)
}

/// The free plays that do not reach the board.
pub open spec fn spec_not_connected(board: Map<Coordinate, Tile>, p: Seq<PlayEntry>) -> Seq<PlayEntry> {
    spec_unoccupied(board, p).filter(|e: PlayEntry| !spec_connected(board, p).contains(e.1))
}

/// The plays that break no rule of their own: inside the limit, at a free coordinate,
/// reaching the board, and naming a tile of a hand of `n`.
pub open spec fn spec_next_legal(board: Map<Coordinate, Tile>, p: Seq<PlayEntry>, n: int) -> Seq<PlayEntry> {
    spec_below_index(spec_unoccupied(board, p).filter(|e: PlayEntry| spec_connected(board, p).contains(e.1)), n)
}

/// The lines that the legal plays make.
pub open spec fn spec_next_lines(board: Map<Coordinate, Tile>, legal: Seq<PlayEntry>, hand: Seq<Tile>) -> Seq<Seq<(Coordinate, Tile)>> {
    let mid = spec_mid(legal);
    if spec_is_column(legal) {
        spec_play_lines(board, legal, hand, true, mid.0, mid.1)
    } else {
        spec_play_lines(board, legal, hand, false, mid.1, mid.0)
    }
}

/// Whether a rejected play reports `e` as a fault of the lines that the legal plays make.
pub open spec fn spec_next_line_error_holds(
    e: NextPlayError,
    board: Map<Coordinate, Tile>,
    p: Seq<PlayEntry>,
    legal: Seq<PlayEntry>,
    hand: Seq<Tile>,
) -> bool {
    let is_line = legal.len() > 0 && (spec_is_column(legal) || spec_is_row(legal));
    let lines = spec_next_lines(board, legal, hand);
    match e {
        NextPlayError::NoLegalLines => legal.len() > 0 && !spec_is_column(legal) && !spec_is_row(legal),
        NextPlayError::Holes { holes } => is_line && !holes@.is_empty() && holes@ == spec_line_holes(board, p, legal),
        NextPlayError::Duplicates { duplicates } => is_line && exists|k: int| 0 <= k < lines.len()
            && spec_line_fails(#[trigger] lines[k]) && !spec_duplicate_groups(lines[k]).is_empty()
            && spec_groups(duplicates@) == spec_duplicate_groups(lines[k]) && crate::line::spec_sorted_groups(duplicates@),
        NextPlayError::MultipleMatching { multiple_matching } => is_line && exists|k: int| 0 <= k < lines.len()
            && spec_line_fails(#[trigger] lines[k]) && !spec_multiple_groups(lines[k]).is_empty()
            && spec_groups(multiple_matching@) == spec_multiple_groups(lines[k]) && crate::line::spec_sorted_groups(multiple_matching@),
        _ => false,
    }
}

/// Whether a rejected play reports `e`, and `e` says what it should.
pub open spec fn spec_next_error_holds(e: NextPlayError, board: Map<Coordinate, Tile>, p: Seq<PlayEntry>, hand: Seq<Tile>) -> bool {
    let n = hand.len() as int;
    let legal = spec_next_legal(board, p, n);
    match e {
        NextPlayError::EmptyPlays => p.len() == 0,
        NextPlayError::IndexesOutOfBounds { indexes_out_of_bounds } => p.len() > 0
            && spec_from_index(p, n).len() > 0 && plays_entries(indexes_out_of_bounds) == spec_from_index(p, n),
        NextPlayError::CoordinatesOutOfBounds { coordinates_out_of_bounds } => p.len() > 0
            && spec_outside_limit(p).len() > 0 && plays_entries(coordinates_out_of_bounds) == spec_outside_limit(p),
        NextPlayError::CoordinatesOccupied { coordinates_occupied } => p.len() > 0
            && spec_occupied(board, p).len() > 0 && plays_entries(coordinates_occupied) == spec_occupied(board, p),
        NextPlayError::NotConnected { not_connected } => p.len() > 0
            && spec_not_connected(board, p).len() > 0 && plays_entries(not_connected) == spec_not_connected(board, p),
        NextPlayError::NoLegalPlays => p.len() > 0 && legal.len() == 0,
        _ => spec_next_line_error_holds(e, board, p, legal, hand),
    }
}

/// Whether a play of `p` from `hand` on `board` breaks no rule.
pub open spec fn spec_next_play_is_legal(board: Map<Coordinate, Tile>, p: Seq<PlayEntry>, hand: Seq<Tile>) -> bool {
    let n = hand.len() as int;
    let legal = spec_next_legal(board, p, n);
    &&& p.len() > 0
    &&& spec_from_index(p, n).len() == 0
    &&& spec_outside_limit(p).len() == 0
    &&& spec_occupied(board, p).len() == 0
    &&& spec_not_connected(board, p).len() == 0
    &&& legal.len() > 0
    &&& (spec_is_column(legal) || spec_is_row(legal))
    &&& spec_line_holes(board, p, legal).is_empty()
    &&& !spec_some_line_fails(spec_next_lines(board, legal, hand))
}

/// Whether `errors` is the answer to a rejected play of `p` from `hand` on `board`: the play
/// breaks a rule, every error holds, and every rule that the play breaks is reported.
pub open spec fn spec_next_rejection(errors: Seq<NextPlayError>, board: Map<Coordinate, Tile>, p: Seq<PlayEntry>, hand: Seq<Tile>) -> bool {
    let n = hand.len() as int;
    let legal = spec_next_legal(board, p, n);
    let is_line = legal.len() > 0 && (spec_is_column(legal) || spec_is_row(legal));
    let lines = spec_next_lines(board, legal, hand);
    &&& !spec_next_play_is_legal(board, p, hand)
    &&& errors.no_duplicates()
    &&& forall|i: int| 0 <= i < errors.len() ==> spec_next_error_holds(#[trigger] errors[i], board, p, hand)
    &&& p.len() == 0 ==> spec_reports_next(errors, 0)
    &&& p.len() > 0 && spec_from_index(p, n).len() > 0 ==> spec_reports_next(errors, 1)
    &&& p.len() > 0 && spec_outside_limit(p).len() > 0 ==> spec_reports_next(errors, 2)
    &&& p.len() > 0 && spec_occupied(board, p).len() > 0 ==> spec_reports_next(errors, 3)
    &&& p.len() > 0 && spec_not_connected(board, p).len() > 0 ==> spec_reports_next(errors, 4)
    &&& p.len() > 0 && legal.len() == 0 ==> spec_reports_next(errors, 5)
    &&& legal.len() > 0 && !is_line ==> spec_reports_next(errors, 6)
    &&& is_line && !spec_line_holes(board, p, legal).is_empty() ==> spec_reports_next(errors, 7)
    &&& forall|k: int| 0 <= k < lines.len() && is_line && spec_line_fails(#[trigger] lines[k])
        && !spec_duplicate_groups(lines[k]).is_empty() ==> spec_reports_duplicates(errors, spec_duplicate_groups(lines[k]))
    &&& forall|k: int| 0 <= k < lines.len() && is_line && spec_line_fails(#[trigger] lines[k])
        && !spec_multiple_groups(lines[k]).is_empty() ==> spec_reports_multiple(errors, spec_multiple_groups(lines[k]))
}

proof fn lemma_chain_inside(board: Map<Coordinate, Tile>, cands: Seq<PlayEntry>, order: Seq<Coordinate>, mine: Set<Coordinate>, other: Set<Coordinate>, k: int)
    requires
        spec_is_chain(board, order),
        order.to_set() == mine,
        forall|c: Coordinate| #[trigger] mine.contains(c) ==> exists|i: int| 0 <= i < cands.len() && (#[trigger] cands[i]).1 == c,
        forall|i: int| 0 <= i < cands.len() && !other.contains((#[trigger] cands[i]).1) ==> !spec_touches_board(board, cands[i].1)
            && forall|d: Coordinate| #[trigger] other.contains(d) ==> !spec_is_adjacent(cands[i].1, d),
        0 <= k <= order.len(),
    ensures
        forall|j: int| 0 <= j < k ==> other.contains(#[trigger] order[j]),
    decreases k,
{
    if k > 0 {
        lemma_chain_inside(board, cands, order, mine, other, k - 1);
        let c = order[k - 1];
        if !other.contains(c) {
            assert(order.contains(c));
            assert(mine.contains(c));
            let i = choose|i: int| 0 <= i < cands.len() && (#[trigger] cands[i]).1 == c;
            assert(!spec_touches_board(board, cands[i].1));
            let j = choose|j: int| 0 <= j < k - 1 && spec_is_adjacent(#[trigger] order[j], order[k - 1]);
            assert(other.contains(order[j]));
            assert(spec_is_adjacent(c, order[j]));
        }
    }
}

/// The coordinates that reach the board are determined by the board and the plays.
proof fn lemma_connected_unique(board: Map<Coordinate, Tile>, cands: Seq<PlayEntry>, a: Set<Coordinate>, b: Set<Coordinate>)
    requires
        spec_is_connected_set(board, cands, a),
        spec_is_connected_set(board, cands, b),
    ensures
        a == b,
{
    let oa = choose|order: Seq<Coordinate>| #[trigger] order.to_set() == a && spec_is_chain(board, order);
    let ob = choose|order: Seq<Coordinate>| #[trigger] order.to_set() == b && spec_is_chain(board, order);
    lemma_chain_inside(board, cands, oa, a, b, oa.len() as int);
    lemma_chain_inside(board, cands, ob, b, a, ob.len() as int);
    assert forall|c: Coordinate| a.contains(c) <==> b.contains(c) by {
        if a.contains(c) {
            assert(oa.to_set().contains(c));
            let j = choose|j: int| 0 <= j < oa.len() && oa[j] == c;
        }
        if b.contains(c) {
            assert(ob.to_set().contains(c));
            let j = choose|j: int| 0 <= j < ob.len() && ob[j] == c;
        }
    }
    assert(a =~= b);
}

/// Splits plays into those at free coordinates of the board and the others, keeping order.
fn split_by_board(board: &Board, entries: &Vec<PlayEntry>) -> (r: (Vec<PlayEntry>, Vec<PlayEntry>))
    ensures
        r.0@ == entries@.filter(|e: PlayEntry| !board@.contains_key(e.1)),
        r.1@ == entries@.filter(|e: PlayEntry| board@.contains_key(e.1)),
{
    let mut free: Vec<PlayEntry> = Vec::new();
    let mut taken: Vec<PlayEntry> = Vec::new();
    let mut k: usize = 0;
    while k < entries.len()
        invariant
            k <= entries@.len(),
            free@ == entries@.take(k as int).filter(|e: PlayEntry| !board@.contains_key(e.1)),
            taken@ == entries@.take(k as int).filter(|e: PlayEntry| board@.contains_key(e.1)),
        decreases entries@.len() - k,
    {
        let e = entries[k];
        assert(entries@.take(k + 1) == entries@.take(k as int).push(e));
        if board.contains_key(&e.1) {
            taken.push(e);
        } else {
            free.push(e);
        }
        k = k + 1;
    }
    assert(entries@.take(entries@.len() as int) == entries@);
    (free, taken)
}

proof fn lemma_elements_of_filter(s: Seq<PlayEntry>, keep: spec_fn(PlayEntry) -> bool)
    ensures
        forall|i: int| 0 <= i < s.filter(keep).len() ==> s.contains(#[trigger] s.filter(keep)[i]) && keep(s.filter(keep)[i]),
{
    broadcast use Seq::lemma_filter_contains_rev;
    assert forall|i: int| 0 <= i < s.filter(keep).len() implies s.contains(#[trigger] s.filter(keep)[i]) && keep(s.filter(keep)[i]) by {
        Seq::lemma_filter_pred(s, keep, i);
        assert(s.filter(keep).contains(s.filter(keep)[i]));
    }
}

/// Checks what the plays ask for before their lines are looked at, and reports plays naming
/// tiles outside the hand, plays outside the coordinate limit, plays on occupied coordinates
/// and plays that do not reach the board; returns the legal plays.
fn next_input_errors(board: &Board, entries: &Vec<PlayEntry>, hand: &Vec<Tile>, errors: &mut Vec<NextPlayError>) -> (legal: Vec<PlayEntry>)
    requires
        old(errors)@.len() == 0,
        entries@.len() > 0,
        is_plays_seq(entries@),
    ensures
        legal@ == spec_next_legal(board@, entries@, hand@.len() as int),
        is_plays_seq(legal@),
        forall|i: int| 0 <= i < legal@.len() ==> (#[trigger] legal@[i]).0 < hand@.len() && spec_in_bounds(legal@[i].1)
            && !board@.contains_key(legal@[i].1),
        forall|i: int| 0 <= i < final(errors)@.len() ==> spec_next_error_holds(#[trigger] final(errors)@[i], board@, entries@, hand@),
        spec_from_index(entries@, hand@.len() as int).len() > 0 ==> spec_reports_next(final(errors)@, 1),
        spec_outside_limit(entries@).len() > 0 ==> spec_reports_next(final(errors)@, 2),
        spec_occupied(board@, entries@).len() > 0 ==> spec_reports_next(final(errors)@, 3),
        spec_not_connected(board@, entries@).len() > 0 ==> spec_reports_next(final(errors)@, 4),
        spec_next_kinds_increase(final(errors)@, 1, 4),
{
    let ghost p = entries@;
    let hand_len = hand.len();
    let ghost n = hand_len as int;
    let (_, out_of_hand) = split_by_index(entries, hand_len);
    let ghost out_of_hand_seq = out_of_hand@;
    proof {
        lemma_filter_plays_seq(p, |e: PlayEntry| e.0 >= n);
        lemma_filter_plays_seq(p, |e: PlayEntry| spec_in_bounds(e.1));
        lemma_filter_plays_seq(p, |e: PlayEntry| !spec_in_bounds(e.1));
    }
    let ghost at_indexes = errors@.len() as int;
    if out_of_hand.len() > 0 {
        let indexes_out_of_bounds = plays_from(out_of_hand);
        let ghost before_push = errors@;
        errors.push(NextPlayError::IndexesOutOfBounds { indexes_out_of_bounds });
        proof {
            lemma_push_next(before_push, errors@[errors@.len() - 1], 1);
            assert(errors@ == before_push.push(errors@[errors@.len() - 1]));
        }
        assert(spec_next_kind(errors@[at_indexes]) == 1);
    }
    let ghost e1 = errors@;
    let (in_bounds, out_of_bounds) = split_by_bounds(entries);
    let ghost out_of_bounds_seq = out_of_bounds@;
    let ghost at_coordinates = errors@.len() as int;
    if out_of_bounds.len() > 0 {
        let coordinates_out_of_bounds = plays_from(out_of_bounds);
        let ghost before_push = errors@;
        errors.push(NextPlayError::CoordinatesOutOfBounds { coordinates_out_of_bounds });
        proof {
            lemma_push_next(before_push, errors@[errors@.len() - 1], 1);
            assert(errors@ == before_push.push(errors@[errors@.len() - 1]));
        }
        assert(spec_next_kind(errors@[at_coordinates]) == 2);
    }
    let ghost e2 = errors@;
    let (free, taken) = split_by_board(board, &in_bounds);
    let ghost taken_seq = taken@;
    proof {
        lemma_filter_plays_seq(in_bounds@, |e: PlayEntry| !board@.contains_key(e.1));
        lemma_filter_plays_seq(in_bounds@, |e: PlayEntry| board@.contains_key(e.1));
        assert(free@ == spec_unoccupied(board@, p));
        assert(taken_seq == spec_occupied(board@, p));
    }
    let ghost at_occupied = errors@.len() as int;
    if taken.len() > 0 {
        let coordinates_occupied = plays_from(taken);
        let ghost before_push = errors@;
        errors.push(NextPlayError::CoordinatesOccupied { coordinates_occupied });
        proof {
            lemma_push_next(before_push, errors@[errors@.len() - 1], 1);
            assert(errors@ == before_push.push(errors@[errors@.len() - 1]));
        }
        assert(spec_next_kind(errors@[at_occupied]) == 3);
    }
    let ghost e3 = errors@;
    proof {
        lemma_elements_of_filter(p, |e: PlayEntry| spec_in_bounds(e.1));
        lemma_elements_of_filter(in_bounds@, |e: PlayEntry| !board@.contains_key(e.1));
        assert forall|i: int| 0 <= i < free@.len() implies spec_in_bounds((#[trigger] free@[i]).1) by {
            assert(in_bounds@.contains(free@[i]));
            let k = choose|k: int| 0 <= k < in_bounds@.len() && in_bounds@[k] == free@[i];
        }
        assert forall|i: int| 0 <= i < free@.len() implies crate::connect::spec_not_extreme((#[trigger] free@[i]).1) by {
            assert(spec_in_bounds(free@[i].1));
        }
    }
    let (connected, not_connected) = partition_connected(board, &free);
    let ghost not_connected_seq = not_connected@;
    proof {
        let c = choose|c: Set<Coordinate>| #[trigger] spec_is_connected_set(board@, free@, c)
            && connected@ == free@.filter(|e: PlayEntry| c.contains(e.1))
            && not_connected@ == free@.filter(|e: PlayEntry| !c.contains(e.1));
        lemma_connected_unique(board@, free@, c, spec_connected(board@, p));
        assert(not_connected_seq == spec_not_connected(board@, p));
        assert(connected@ == spec_unoccupied(board@, p).filter(|e: PlayEntry| spec_connected(board@, p).contains(e.1)));
        lemma_filter_plays_seq(free@, |e: PlayEntry| !c.contains(e.1));
        lemma_filter_plays_seq(free@, |e: PlayEntry| c.contains(e.1));
        lemma_elements_of_filter(free@, |e: PlayEntry| c.contains(e.1));
    }
    let ghost at_connected = errors@.len() as int;
    if not_connected.len() > 0 {
        let not_connected_plays = plays_from(not_connected);
        let ghost before_push = errors@;
        errors.push(NextPlayError::NotConnected { not_connected: not_connected_plays });
        proof {
            lemma_push_next(before_push, errors@[errors@.len() - 1], 1);
            assert(errors@ == before_push.push(errors@[errors@.len() - 1]));
        }
        assert(spec_next_kind(errors@[at_connected]) == 4);
    }
    let (legal, _) = split_by_index(&connected, hand_len);
    proof {
        lemma_filter_plays_seq(connected@, |e: PlayEntry| e.0 < n);
        lemma_elements_of_filter(connected@, |e: PlayEntry| e.0 < n);
        assert forall|i: int| 0 <= i < legal@.len() implies (#[trigger] legal@[i]).0 < hand@.len() && spec_in_bounds(legal@[i].1)
            && !board@.contains_key(legal@[i].1) by {
            assert(connected@.contains(legal@[i]));
            let k = choose|k: int| 0 <= k < connected@.len() && connected@[k] == legal@[i];
            assert(free@.contains(connected@[k]));
            let m = choose|m: int| 0 <= m < free@.len() && free@[m] == connected@[k];
            assert(spec_in_bounds(free@[m].1));
            assert(in_bounds@.contains(free@[m]));
        }
        assert forall|i: int| 0 <= i < errors@.len() implies spec_next_error_holds(#[trigger] errors@[i], board@, p, hand@) by {
            if i == at_connected && not_connected_seq.len() > 0 {
            } else if i == at_occupied && taken_seq.len() > 0 {
                assert(errors@[i] == e3[i]);
            } else if i == at_coordinates && out_of_bounds_seq.len() > 0 {
                assert(errors@[i] == e2[i]);
            } else {
                assert(errors@[i] == e1[i]);
            }
        }
        if out_of_hand_seq.len() > 0 {
            assert(spec_next_kind(errors@[at_indexes]) == 1);
        }
        if out_of_bounds_seq.len() > 0 {
            assert(spec_next_kind(errors@[at_coordinates]) == 2);
        }
        if taken_seq.len() > 0 {
            assert(spec_next_kind(errors@[at_occupied]) == 3);
        }
        if not_connected_seq.len() > 0 {
            assert(spec_next_kind(errors@[at_connected]) == 4);
        }
    }
    legal
}

/// Whether `errors` reports a line fault of the legal plays: each error holds, and every
/// fault of the line is reported.
pub open spec fn spec_next_line_rejection(errors: Seq<NextPlayError>, board: Map<Coordinate, Tile>, p: Seq<PlayEntry>, legal: Seq<PlayEntry>, hand: Seq<Tile>) -> bool {
    let is_line = spec_is_column(legal) || spec_is_row(legal);
    let lines = spec_next_lines(board, legal, hand);
    &&& !(is_line && spec_line_holes(board, p, legal).is_empty() && !spec_some_line_fails(lines))
    &&& errors.len() > 0
    &&& errors.no_duplicates()
    &&& forall|i: int| 0 <= i < errors.len() ==> 6 <= #[trigger] spec_next_kind(errors[i]) <= 9
    &&& forall|i: int| 0 <= i < errors.len() ==> spec_next_line_error_holds(#[trigger] errors[i], board, p, legal, hand)
    &&& !is_line ==> spec_reports_next(errors, 6)
    &&& is_line && !spec_line_holes(board, p, legal).is_empty() ==> spec_reports_next(errors, 7)
    &&& forall|k: int| 0 <= k < lines.len() && is_line && spec_line_fails(#[trigger] lines[k])
        && !spec_duplicate_groups(lines[k]).is_empty() ==> spec_reports_duplicates(errors, spec_duplicate_groups(lines[k]))
    &&& forall|k: int| 0 <= k < lines.len() && is_line && spec_line_fails(#[trigger] lines[k])
        && !spec_multiple_groups(lines[k]).is_empty() ==> spec_reports_multiple(errors, spec_multiple_groups(lines[k]))
}

/// Checks the lines that the legal plays make: they must be a single tile, a row or a
/// column, without holes where neither the board nor any play puts a tile, and the main line
/// and each crossing line must match. Returns the sum of the points of the lines.
fn next_line_errors(board: &Board, entries: &Vec<PlayEntry>, legal: &Vec<PlayEntry>, hand: &Vec<Tile>) -> (r: Result<usize, Vec<NextPlayError>>)
    requires
        legal@.len() > 0,
        is_plays_seq(legal@),
        hand@.len() <= TILE_LIMIT,
        forall|i: int| 0 <= i < legal@.len() ==> (#[trigger] legal@[i]).0 < hand@.len() && spec_in_bounds(legal@[i].1),
    ensures
        ({
            let is_line = spec_is_column(legal@) || spec_is_row(legal@);
            let lines = spec_next_lines(board@, legal@, hand@);
            match r {
                Ok(points) => is_line && spec_line_holes(board@, entries@, legal@).is_empty()
                    && !spec_some_line_fails(lines) && points == spec_points_sum(lines, lines.len() as int)
                    && points <= 200_080_006,
                Err(errors) => spec_next_line_rejection(errors@, board@, entries@, legal@, hand@),
            }
        }),
{
    let ghost legal_seq = legal@;
    let coordinates = coordinates_of(legal);
    let mut errors: Vec<NextPlayError> = Vec::new();
    let (min_x, min_y, max_x, max_y) = match find_component_minimums_and_maximums(coordinates.as_slice()) {
        None => {
            return Err(errors);
        },
        Some(b) => b,
    };
    let (mid_x, mid_y) = match find_coordinate_by_minimum_distance(coordinates.as_slice()) {
        None => {
            return Err(errors);
        },
        Some(m) => m,
    };
    let ghost cs = spec_coordinates(legal_seq);
    let ghost k_mid = crate::coordinate::spec_nearest_index(cs, cs.len() as int);
    proof {
        assert forall|i: int| 0 <= i < cs.len() implies spec_in_bounds(#[trigger] cs[i]) by {
            assert(cs[i] == legal_seq[i].1);
        }
        let i0 = choose|i: int| 0 <= i < cs.len() && (#[trigger] cs[i]).0 == min_x;
        let i1 = choose|i: int| 0 <= i < cs.len() && (#[trigger] cs[i]).1 == min_y;
        let i2 = choose|i: int| 0 <= i < cs.len() && (#[trigger] cs[i]).0 == max_x;
        let i3 = choose|i: int| 0 <= i < cs.len() && (#[trigger] cs[i]).1 == max_y;
        crate::coordinate::lemma_nearest(cs, cs.len() as int);
        assert(spec_in_bounds(cs[i0]) && spec_in_bounds(cs[i1]) && spec_in_bounds(cs[i2]) && spec_in_bounds(cs[i3]) && spec_in_bounds(cs[k_mid]));
        assert(cs[k_mid] == legal_seq[k_mid].1);
        assert(spec_play_position(legal_seq, cs[k_mid], 0) >= 0) by {
            lemma_position_found(legal_seq, cs[k_mid], 0, k_mid);
        }
    }
    let vertical = min_x == max_x;
    let holes = if vertical {
        find_holes_on_line(board, entries, true, min_x, mid_y, min_y, max_y)
    } else if min_y == max_y {
        find_holes_on_line(board, entries, false, min_y, mid_x, min_x, max_x)
    } else {
        errors.push(NextPlayError::NoLegalLines);
        assert(spec_next_kind(errors@[0]) == 6);
        return Err(errors);
    };
    let lines = if vertical {
        play_lines(board, legal, hand, true, mid_x, mid_y)
    } else {
        play_lines(board, legal, hand, false, mid_y, mid_x)
    };
    let ghost lines_seq = spec_lines_view(lines@);
    assert(lines_seq == spec_next_lines(board@, legal_seq, hand@));
    let ghost at_holes = errors@.len() as int;
    let has_holes = !holes.is_empty();
    if has_holes {
        errors.push(NextPlayError::Holes { holes });
        assert(spec_next_kind(errors@[at_holes]) == 7);
    }
    proof {
        lemma_increasing_indexes_len(legal_seq, hand@.len() as int);
    }
    let mut total: usize = 0;
    let mut failed = false;
    let mut k: usize = 0;
    while k < lines.len()
        invariant
            k <= lines@.len() <= legal_seq.len() + 1 <= TILE_LIMIT + 1,
            lines_seq == spec_lines_view(lines@),
            lines_seq == spec_next_lines(board@, legal_seq, hand@),
            spec_is_column(legal_seq) || spec_is_row(legal_seq),
            legal_seq.len() > 0,
            forall|i: int| 0 <= i < lines@.len() ==> (#[trigger] lines@[i])@.len() < 2 * COORDINATE_LIMIT
                && forall|a: int, b: int| 0 <= a < lines@[i]@.len() && 0 <= b < lines@[i]@.len() && a != b ==> (#[trigger] lines@[i]@[a]).0 != (#[trigger] lines@[i]@[b]).0,
            has_holes == !spec_line_holes(board@, entries@, legal_seq).is_empty(),
            has_holes ==> spec_reports_next(errors@, 7),
            failed == exists|j: int| 0 <= j < k && spec_line_fails(#[trigger] lines_seq[j]),
            !failed ==> total == spec_points_sum(lines_seq, k as int),
            total <= k * (2 * COORDINATE_LIMIT + FULL_MATCH_BONUS),
            forall|i: int| 0 <= i < errors@.len() ==> spec_next_line_error_holds(#[trigger] errors@[i], board@, entries@, legal_seq, hand@),
            errors@.no_duplicates(),
            forall|i: int| 0 <= i < errors@.len() ==> 6 <= #[trigger] spec_next_kind(errors@[i]) <= 9,
            forall|j: int| 0 <= j < k && spec_line_fails(#[trigger] lines_seq[j]) && !spec_duplicate_groups(lines_seq[j]).is_empty()
                ==> spec_reports_duplicates(errors@, spec_duplicate_groups(lines_seq[j])),
            forall|j: int| 0 <= j < k && spec_line_fails(#[trigger] lines_seq[j]) && !spec_multiple_groups(lines_seq[j]).is_empty()
                ==> spec_reports_multiple(errors@, spec_multiple_groups(lines_seq[j])),
            failed ==> errors@.len() > 0,
        decreases lines@.len() - k,
    {
        let ghost line = lines_seq[k as int];
        assert(lines@[k as int]@ == line);
        let ghost before = errors@;
        match check_line_entries(&lines[k]) {
            Ok(points) => {
                proof {
                    assert(points <= 2 * COORDINATE_LIMIT + FULL_MATCH_BONUS);
                    assert((k + 1) * (2 * COORDINATE_LIMIT + FULL_MATCH_BONUS) == k * (2 * COORDINATE_LIMIT + FULL_MATCH_BONUS) + (2 * COORDINATE_LIMIT + FULL_MATCH_BONUS)) by (nonlinear_arith);
                    assert((k + 1) * (2 * COORDINATE_LIMIT + FULL_MATCH_BONUS) <= (TILE_LIMIT + 1) * (2 * COORDINATE_LIMIT + FULL_MATCH_BONUS)) by (nonlinear_arith)
                        requires k + 1 <= TILE_LIMIT + 1;
                }
                assert(2 * COORDINATE_LIMIT + FULL_MATCH_BONUS == 20006);
                assert(TILE_LIMIT == 10000);
                assert(total + points <= 200_080_006) by (nonlinear_arith)
                    requires total <= k * 20006, points <= 20006, k + 1 <= 10001;
                total = total + points;
            },
            Err((duplicates, multiple_matching)) => {
                let ghost d = duplicates@;
                let ghost m = multiple_matching@;
                let ghost ls = spec_next_lines(board@, legal_seq, hand@);
                proof {
                    lemma_line_fails_groups(line);
                    assert(spec_line_fails(lines_seq[k as int]));
                    assert(ls[k as int] == line);
                }
                let ghost mut wd: int = -1;
                if duplicates.len() > 0 {
                    proof {
                        assert(spec_groups(d).contains(d[0]@.to_set()));
                    }
                    let seen = reports_groups(&errors, true, &duplicates);
                    proof {
                        if seen {
                            wd = choose|x: int| 0 <= x < errors@.len() && spec_error_has_groups(#[trigger] errors@[x], true, d);
                        } else {
                            wd = errors@.len() as int;
                        }
                    }
                    if !seen {
                        let ghost before_push = errors@;
                        let error = NextPlayError::Duplicates { duplicates };
                        proof {
                            assert(spec_error_has_groups(error, true, d));
                            lemma_fresh_error(before_push, error, true, d);
                            assert(spec_next_line_error_holds(error, board@, entries@, legal_seq, hand@));
                        }
                        errors.push(error);
                        proof {
                            lemma_push_line_error(before_push, error);
                        }
                    }
                }
                let ghost mid = errors@;
                let ghost mut wm: int = -1;
                if multiple_matching.len() > 0 {
                    proof {
                        assert(spec_groups(m).contains(m[0]@.to_set()));
                    }
                    let seen = reports_groups(&errors, false, &multiple_matching);
                    proof {
                        if seen {
                            wm = choose|x: int| 0 <= x < errors@.len() && spec_error_has_groups(#[trigger] errors@[x], false, m);
                        } else {
                            wm = errors@.len() as int;
                        }
                    }
                    if !seen {
                        let ghost before_push = errors@;
                        let error = NextPlayError::MultipleMatching { multiple_matching };
                        proof {
                            assert(spec_error_has_groups(error, false, m));
                            lemma_fresh_error(before_push, error, false, m);
                            assert(spec_next_line_error_holds(error, board@, entries@, legal_seq, hand@));
                        }
                        errors.push(error);
                        proof {
                            lemma_push_line_error(before_push, error);
                        }
                    }
                }
                failed = true;
                proof {
                    assert forall|i: int| 0 <= i < before.len() implies errors@[i] == before[i] by {
                        if i < mid.len() {
                            assert(mid[i] == before[i]);
                        }
                    }
                    if !spec_duplicate_groups(line).is_empty() {
                        let g = choose|g: Set<Coordinate>| spec_duplicate_groups(line).contains(g);
                        assert(spec_groups(d).contains(g));
                        let x = wd;
                        assert(mid[x] == errors@[x]);
                        assert(spec_error_has_groups(errors@[x], true, d));
                        assert(errors@[x] is Duplicates);
                        lemma_same_lists_groups(errors@[x]->duplicates@, d);
                        assert(errors@[x] is Duplicates && spec_groups(errors@[x]->duplicates@) == spec_duplicate_groups(line));
                    }
                    if !spec_multiple_groups(line).is_empty() {
                        let g = choose|g: Set<Coordinate>| spec_multiple_groups(line).contains(g);
                        assert(spec_groups(m).contains(g));
                        let x = wm;
                        assert(spec_error_has_groups(errors@[x], false, m));
                        assert(errors@[x] is MultipleMatching);
                        lemma_same_lists_groups(errors@[x]->multiple_matching@, m);
                        assert(errors@[x] is MultipleMatching && spec_groups(errors@[x]->multiple_matching@) == spec_multiple_groups(line));
                    }
                }
            },
        }
        proof {
            assert forall|j: int| 0 <= j < k + 1 && spec_line_fails(#[trigger] lines_seq[j]) && !spec_duplicate_groups(lines_seq[j]).is_empty()
                implies spec_reports_duplicates(errors@, spec_duplicate_groups(lines_seq[j])) by {
                if j < k {
                    let i = choose|i: int| 0 <= i < before.len() && (#[trigger] before[i]) is Duplicates && spec_groups(before[i]->duplicates@) == spec_duplicate_groups(lines_seq[j]);
                    assert(errors@[i] == before[i]);
                }
            }
            assert forall|j: int| 0 <= j < k + 1 && spec_line_fails(#[trigger] lines_seq[j]) && !spec_multiple_groups(lines_seq[j]).is_empty()
                implies spec_reports_multiple(errors@, spec_multiple_groups(lines_seq[j])) by {
                if j < k {
                    let i = choose|i: int| 0 <= i < before.len() && (#[trigger] before[i]) is MultipleMatching && spec_groups(before[i]->multiple_matching@) == spec_multiple_groups(lines_seq[j]);
                    assert(errors@[i] == before[i]);
                }
            }
            if has_holes {
                let i = choose|i: int| 0 <= i < before.len() && spec_next_kind(#[trigger] before[i]) == 7;
                assert(spec_next_kind(errors@[i]) == 7);
            }
        }
        k = k + 1;
    }
    if failed || has_holes {
        return Err(errors);
    }
    proof {
        assert(2 * COORDINATE_LIMIT + FULL_MATCH_BONUS == 20006);
        assert(total <= 200_080_006) by (nonlinear_arith)
            requires total <= k * 20006, k <= 10001;
    }
    Ok(total)
}

/// Whether `a` and `b` list the same groups in the same order.
pub open spec fn spec_same_group_lists(a: Seq<Vec<Coordinate>>, b: Seq<Vec<Coordinate>>) -> bool {
    a.len() == b.len() && forall|k: int| 0 <= k < a.len() ==> (#[trigger] a[k])@ == b[k]@
}

/// Whether `e` reports the groups `g`, as duplicates (`duplicate`) or as matching groups.
pub open spec fn spec_error_has_groups(e: NextPlayError, duplicate: bool, g: Seq<Vec<Coordinate>>) -> bool {
    match e {
        NextPlayError::Duplicates { duplicates } => duplicate && spec_same_group_lists(duplicates@, g),
        NextPlayError::MultipleMatching { multiple_matching } => !duplicate && spec_same_group_lists(multiple_matching@, g),
        _ => false,
    }
}

proof fn lemma_same_lists_groups(a: Seq<Vec<Coordinate>>, b: Seq<Vec<Coordinate>>)
    requires
        spec_same_group_lists(a, b),
    ensures
        spec_groups(a) == spec_groups(b),
{
    assert forall|g: Set<Coordinate>| spec_groups(a).contains(g) <==> spec_groups(b).contains(g) by {
        if spec_groups(a).contains(g) {
            let i = choose|i: int| 0 <= i < a.len() && g == (#[trigger] a[i])@.to_set();
            assert(g == b[i]@.to_set());
        }
        if spec_groups(b).contains(g) {
            let i = choose|i: int| 0 <= i < b.len() && g == (#[trigger] b[i])@.to_set();
            assert(g == a[i]@.to_set());
        }
    }
    assert(spec_groups(a) =~= spec_groups(b));
}

proof fn lemma_fresh_error(errors: Seq<NextPlayError>, x: NextPlayError, duplicate: bool, g: Seq<Vec<Coordinate>>)
    requires
        spec_error_has_groups(x, duplicate, g),
        !exists|i: int| 0 <= i < errors.len() && spec_error_has_groups(#[trigger] errors[i], duplicate, g),
    ensures
        !errors.contains(x),
{
    if errors.contains(x) {
        let i = choose|i: int| 0 <= i < errors.len() && errors[i] == x;
        assert(spec_error_has_groups(errors[i], duplicate, g));
    }
}

proof fn lemma_push_line_error(before: Seq<NextPlayError>, x: NextPlayError)
    requires
        before.no_duplicates(),
        !before.contains(x),
    ensures
        before.push(x).no_duplicates(),
{
    let after = before.push(x);
    assert forall|i: int, j: int| 0 <= i < after.len() && 0 <= j < after.len() && i != j implies after[i] != after[j] by {
        if i < before.len() && j < before.len() {
            assert(after[i] == before[i] && after[j] == before[j]);
        } else if i < before.len() {
            assert(after[i] == before[i]);
            assert(before.contains(before[i]));
        } else {
            assert(after[j] == before[j]);
            assert(before.contains(before[j]));
        }
    }
}

fn same_group_lists(a: &Groups, b: &Groups) -> (r: bool)
    ensures
        r == spec_same_group_lists(a@, b@),
{
    if a.len() != b.len() {
        return false;
    }
    let mut k: usize = 0;
    while k < a.len()
        invariant
            k <= a@.len() == b@.len(),
            forall|m: int| 0 <= m < k ==> (#[trigger] a@[m])@ == b@[m]@,
        decreases a@.len() - k,
    {
        let x = &a[k];
        let y = &b[k];
        if x.len() != y.len() {
            assert(a@[k as int]@.len() != b@[k as int]@.len());
            return false;
        }
        let mut j: usize = 0;
        while j < x.len()
            invariant
                k < a@.len() == b@.len(),
                j <= x@.len() == y@.len(),
                x@ == a@[k as int]@,
                y@ == b@[k as int]@,
                forall|m: int| 0 <= m < j ==> x@[m] == y@[m],
            decreases x@.len() - j,
        {
            if !crate::coordinate::same_coordinate(x[j], y[j]) {
                assert(a@[k as int]@[j as int] != b@[k as int]@[j as int]);
                return false;
            }
            j = j + 1;
        }
        assert(x@ =~= y@);
        k = k + 1;
    }
    true
}

/// Whether `errors` already reports the groups `groups`.
fn reports_groups(errors: &Vec<NextPlayError>, duplicate: bool, groups: &Groups) -> (r: bool)
    ensures
        r == exists|i: int| 0 <= i < errors@.len() && spec_error_has_groups(#[trigger] errors@[i], duplicate, groups@),
{
    let mut i: usize = 0;
    while i < errors.len()
        invariant
            i <= errors@.len(),
            forall|m: int| 0 <= m < i ==> !spec_error_has_groups(#[trigger] errors@[m], duplicate, groups@),
        decreases errors@.len() - i,
    {
        let found = match &errors[i] {
            NextPlayError::Duplicates { duplicates } => duplicate && same_group_lists(duplicates, groups),
            NextPlayError::MultipleMatching { multiple_matching } => !duplicate && same_group_lists(multiple_matching, groups),
            _ => false,
        };
        if found {
            return true;
        }
        i = i + 1;
    }
    false
}

proof fn lemma_position_found(legal: Seq<PlayEntry>, c: Coordinate, i: int, at: int)
    requires
        0 <= i <= at < legal.len(),
        legal[at].1 == c,
    ensures
        spec_play_position(legal, c, i) >= 0,
    decreases at - i,
{
    if legal[i].1 != c {
        lemma_position_found(legal, c, i + 1, at);
    }
}

proof fn lemma_next_reported(before: Seq<NextPlayError>, after: Seq<NextPlayError>)
    requires
        before.len() <= after.len(),
        forall|i: int| 0 <= i < before.len() ==> after[i] == before[i],
    ensures
        forall|kind: int| #[trigger] spec_reports_next(before, kind) ==> spec_reports_next(after, kind),
        forall|g: Set<Set<Coordinate>>| #[trigger] spec_reports_duplicates(before, g) ==> spec_reports_duplicates(after, g),
        forall|g: Set<Set<Coordinate>>| #[trigger] spec_reports_multiple(before, g) ==> spec_reports_multiple(after, g),
{
    assert forall|kind: int| #[trigger] spec_reports_next(before, kind) implies spec_reports_next(after, kind) by {
        let i = choose|i: int| 0 <= i < before.len() && spec_next_kind(#[trigger] before[i]) == kind;
        assert(spec_next_kind(after[i]) == kind);
    }
    assert forall|g: Set<Set<Coordinate>>| #[trigger] spec_reports_duplicates(before, g) implies spec_reports_duplicates(after, g) by {
        let i = choose|i: int| 0 <= i < before.len() && (#[trigger] before[i]) is Duplicates && spec_groups(before[i]->duplicates@) == g;
        assert(after[i] == before[i]);
    }
    assert forall|g: Set<Set<Coordinate>>| #[trigger] spec_reports_multiple(before, g) implies spec_reports_multiple(after, g) by {
        let i = choose|i: int| 0 <= i < before.len() && (#[trigger] before[i]) is MultipleMatching && spec_groups(before[i]->multiple_matching@) == g;
        assert(after[i] == before[i]);
    }
}

proof fn lemma_next_tail_reported(head: Seq<NextPlayError>, tail: Seq<NextPlayError>, all: Seq<NextPlayError>)
    requires
        all == head + tail,
    ensures
        forall|kind: int| #[trigger] spec_reports_next(tail, kind) ==> spec_reports_next(all, kind),
        forall|g: Set<Set<Coordinate>>| #[trigger] spec_reports_duplicates(tail, g) ==> spec_reports_duplicates(all, g),
        forall|g: Set<Set<Coordinate>>| #[trigger] spec_reports_multiple(tail, g) ==> spec_reports_multiple(all, g),
{
    assert forall|kind: int| #[trigger] spec_reports_next(tail, kind) implies spec_reports_next(all, kind) by {
        let i = choose|i: int| 0 <= i < tail.len() && spec_next_kind(#[trigger] tail[i]) == kind;
        assert(spec_next_kind(all[head.len() + i]) == kind);
    }
    assert forall|g: Set<Set<Coordinate>>| #[trigger] spec_reports_duplicates(tail, g) implies spec_reports_duplicates(all, g) by {
        let i = choose|i: int| 0 <= i < tail.len() && (#[trigger] tail[i]) is Duplicates && spec_groups(tail[i]->duplicates@) == g;
        assert(all[head.len() + i] == tail[i]);
    }
    assert forall|g: Set<Set<Coordinate>>| #[trigger] spec_reports_multiple(tail, g) implies spec_reports_multiple(all, g) by {
        let i = choose|i: int| 0 <= i < tail.len() && (#[trigger] tail[i]) is MultipleMatching && spec_groups(tail[i]->multiple_matching@) == g;
        assert(all[head.len() + i] == tail[i]);
    }
}

proof fn lemma_all_free(board: Map<Coordinate, Tile>, q: Seq<PlayEntry>)
    requires
        q.filter(|e: PlayEntry| board.contains_key(e.1)).len() == 0,
    ensures
        q.filter(|e: PlayEntry| !board.contains_key(e.1)) == q,
    decreases q.len(),
{
    if q.len() > 0 {
        let init = q.drop_last();
        assert(q == init.push(q.last()));
        Seq::lemma_filter_len_push(init, |e: PlayEntry| board.contains_key(e.1), q.last());
        lemma_all_free(board, init);
    } else {
        reveal(Seq::filter);
        assert(q.filter(|e: PlayEntry| !board.contains_key(e.1)) =~= q);
    }
}

proof fn lemma_all_connected(c: Set<Coordinate>, q: Seq<PlayEntry>)
    requires
        q.filter(|e: PlayEntry| !c.contains(e.1)).len() == 0,
    ensures
        q.filter(|e: PlayEntry| c.contains(e.1)) == q,
    decreases q.len(),
{
    if q.len() > 0 {
        let init = q.drop_last();
        assert(q == init.push(q.last()));
        Seq::lemma_filter_len_push(init, |e: PlayEntry| !c.contains(e.1), q.last());
        lemma_all_connected(c, init);
    } else {
        reveal(Seq::filter);
        assert(q.filter(|e: PlayEntry| c.contains(e.1)) =~= q);
    }
}

/// When a play after the first turn breaks no rule, all of its plays are legal.
pub proof fn lemma_accepted_plays_are_legal(board: Map<Coordinate, Tile>, p: Seq<PlayEntry>, hand: Seq<Tile>)
    requires
        spec_next_play_is_legal(board, p, hand),
    ensures
        spec_next_legal(board, p, hand.len() as int) == p,
{
    lemma_all_inside_limit(p);
    lemma_all_free(board, spec_inside_limit(p));
    lemma_all_connected(spec_connected(board, p), spec_unoccupied(board, p));
    lemma_all_below_index(p, hand.len() as int);
}

impl NextState {
    /// Checks a play after the first turn and returns its points with its legal plays, or
    /// every rule that it breaks.
    ///
    /// The plays must not be empty. Plays naming tiles outside the current hand, plays outside
    /// the coordinate limit, plays on occupied coordinates and plays that do not reach the
    /// board are reported; the other plays are the legal ones. The legal plays must form a
    /// single tile or a line without holes, where the board and the plays fill the gaps, and
    /// the main line and every crossing line must match.
    fn check_plays(&self, plays: &Plays) -> (r: Result<(usize, Vec<PlayEntry>), Vec<NextPlayError>>)
        requires
            self.wf(),
        ensures
            ({
                let p = plays_entries(*plays);
                let hand = self.hands@[self.current_player as int]@;
                let legal = spec_next_legal(self.board@, p, hand.len() as int);
                match r {
                    Ok((points, legal_plays)) => spec_next_play_is_legal(self.board@, p, hand)
                        && legal_plays@ == legal && is_plays_seq(legal)
                        && (forall|i: int| 0 <= i < legal.len() ==> (#[trigger] legal[i]).0 < hand.len()
                            && spec_in_bounds(legal[i].1) && !self.board@.contains_key(legal[i].1))
                        && points == spec_points_sum(spec_next_lines(self.board@, legal, hand), spec_next_lines(self.board@, legal, hand).len() as int)
                        && points <= 200_080_006,
                    Err(errors) => spec_next_rejection(errors@, self.board@, p, hand),
                }
            }),
    {
        let ghost p = plays_entries(*plays);
        let ghost hand_seq = self.hands@[self.current_player as int]@;
        let entries = entries_of(plays);
        let mut errors: Vec<NextPlayError> = Vec::new();
        if entries.len() == 0 {
            errors.push(NextPlayError::EmptyPlays);
            assert(spec_next_kind(errors@[0]) == 0);
            assert(errors@.no_duplicates());
            return Err(errors);
        }
        let hand = &self.hands[self.current_player];
        let legal = next_input_errors(&self.board, &entries, hand, &mut errors);
        let ghost input_errors = errors@;
        if legal.len() == 0 {
            let ghost before_push = errors@;
            errors.push(NextPlayError::NoLegalPlays);
            proof {
                lemma_push_next(before_push, errors@[errors@.len() - 1], 1);
                assert(errors@ == before_push.push(errors@[errors@.len() - 1]));
            }
            proof {
                assert(spec_next_kind(errors@[errors@.len() - 1]) == 5);
                assert forall|i: int| 0 <= i < errors@.len() implies spec_next_error_holds(#[trigger] errors@[i], self.board@, p, hand_seq) by {
                    if i < input_errors.len() {
                        assert(errors@[i] == input_errors[i]);
                    }
                }
                lemma_next_reported(input_errors, errors@);
                lemma_next_distinct(errors@, Seq::empty());
                assert(errors@ + Seq::<NextPlayError>::empty() == errors@);
            }
            return Err(errors);
        }
        match next_line_errors(&self.board, &entries, &legal, hand) {
            Ok(points) => {
                if errors.len() > 0 {
                    proof {
                        assert(spec_next_error_holds(errors@[0], self.board@, p, hand_seq));
                    }
                    Err(errors)
                } else {
                    proof {
                        assert(!spec_reports_next(errors@, 1));
                        assert(!spec_reports_next(errors@, 2));
                        assert(!spec_reports_next(errors@, 3));
                        assert(!spec_reports_next(errors@, 4));
                    }
                    Ok((points, legal))
                }
            },
            Err(line_errors) => {
                let ghost tail = line_errors@;
                let mut line_errors = line_errors;
                errors.append(&mut line_errors);
                proof {
                    assert forall|i: int| 0 <= i < errors@.len() implies spec_next_error_holds(#[trigger] errors@[i], self.board@, p, hand_seq) by {
                        if i < input_errors.len() {
                            assert(errors@[i] == input_errors[i]);
                        } else {
                            assert(errors@[i] == tail[i - input_errors.len()]);
                            assert(spec_next_line_error_holds(tail[i - input_errors.len()], self.board@, p, legal@, hand_seq));
                        }
                    }
                    lemma_next_reported(input_errors, errors@);
                    lemma_next_tail_reported(input_errors, tail, errors@);
                    assert(spec_next_line_error_holds(tail[0], self.board@, p, legal@, hand_seq));
                    lemma_next_distinct(input_errors, tail);
                    assert(errors@ == input_errors + tail);
                }
                Err(errors)
            },
        }
    }

    /// Plays a turn after the first. When the plays break no rule (see
    /// [NextState::check_plays]), their tiles leave the current hand, highest index first,
    /// and go onto the board; the hand draws as many tiles from the end of the bag as it
    /// played, or what is left; and the current player earns the points of every line of the
    /// play. When the current hand is then empty or the board deadlocked, the game ends with
    /// the last play bonus added; otherwise the turn passes to the next player. Points add up
    /// without going past the largest number a `usize` holds. A rejected play hands the state
    /// back unchanged with every rule that it breaks.
    pub fn next_play(self, plays: &Plays) -> (r: Result<Either<NextState, LastState>, (NextState, Vec<NextPlayError>)>)
        requires
            self.wf(),
        ensures
            ({
                let p = plays_entries(*plays);
                let cp = self.current_player as int;
                let hand = self.hands@[cp]@;
                let legal = spec_next_legal(self.board@, p, hand.len() as int);
                let score = spec_points_sum(spec_next_lines(self.board@, legal, hand), spec_next_lines(self.board@, legal, hand).len() as int);
                match r {
                    Err((state, errors)) => state == self && spec_next_rejection(errors@, self.board@, p, hand),
                    Ok(Either::Left(next)) => {
                        &&& spec_next_play_is_legal(self.board@, p, hand)
                        &&& legal == p
                        &&& !spec_has_ended(next.hands@[cp]@, next.board@)
                        &&& next.wf()
                        &&& next.spec_tile_count() == self.spec_tile_count()
                        &&& next.board@.len() == self.board@.len() + legal.len()
                        &&& forall|c: Coordinate| #[trigger] self.board@.contains_key(c) ==> next.board@.contains_key(c)
                            && next.board@[c] == self.board@[c]
                        &&& forall|c: Coordinate| #[trigger] next.board@.contains_key(c) ==> self.board@.contains_key(c)
                            || spec_played_at(p, c)
                        &&& forall|i: int| 0 <= i < legal.len() ==> next.board@.contains_key((#[trigger] legal[i]).1)
                            && next.board@[legal[i].1] == hand[legal[i].0 as int]
                        &&& next.points@[cp] == spec_saturating_add(self.points@[cp] as int, score)
                        &&& forall|i: int| 0 <= i < self.points@.len() && i != cp ==> next.points@[i] == #[trigger] self.points@[i]
                        &&& forall|i: int| 0 <= i < self.hands@.len() && i != cp ==> next.hands@[i] == #[trigger] self.hands@[i]
                        &&& next.hands@[cp]@ == crate::turn::spec_without_plays(hand, p) + self.bag@.skip(next.bag@.len() as int)
                        &&& next.bag@ == self.bag@.take(next.bag@.len() as int)
                        &&& next.bag@.len() == if p.len() <= self.bag@.len() { self.bag@.len() - p.len() } else { 0 }
                        &&& next.current_player == (self.current_player + 1) % (self.hands@.len() as int)
                    },
                    Ok(Either::Right(last)) => {
                        &&& spec_next_play_is_legal(self.board@, p, hand)
                        &&& legal == p
                        &&& spec_has_ended(last.hands@[cp]@, last.board@)
                        &&& spec_total_hands_len(last.hands@) + last.board@.len() == spec_total_hands_len(self.hands@)
                            + self.board@.len() + if legal.len() <= self.bag@.len() { legal.len() as int } else { self.bag@.len() as int }
                        &&& last.board@.len() == self.board@.len() + legal.len()
                        &&& forall|c: Coordinate| #[trigger] self.board@.contains_key(c) ==> last.board@.contains_key(c)
                            && last.board@[c] == self.board@[c]
                        &&& forall|c: Coordinate| #[trigger] last.board@.contains_key(c) ==> self.board@.contains_key(c)
                            || spec_played_at(p, c)
                        &&& forall|i: int| 0 <= i < legal.len() ==> last.board@.contains_key((#[trigger] legal[i]).1)
                            && last.board@[legal[i].1] == hand[legal[i].0 as int]
                        &&& last.points@[cp] == spec_saturating_add(self.points@[cp] as int, score + LAST_PLAY_BONUS)
                        &&& forall|i: int| 0 <= i < self.points@.len() && i != cp ==> last.points@[i] == #[trigger] self.points@[i]
                        &&& forall|i: int| 0 <= i < self.hands@.len() && i != cp ==> last.hands@[i] == #[trigger] self.hands@[i]
                        &&& last.hands@[cp]@ == crate::turn::spec_without_plays(hand, p)
                            + self.bag@.skip(self.bag@.len() - if p.len() <= self.bag@.len() { p.len() as int } else { self.bag@.len() as int })
                    },
                }
            }),
    {
        let (score, legal) = match self.check_plays(plays) {
            Ok(checked) => checked,
            Err(errors) => {
                return Err((self, errors));
            },
        };
        proof {
            lemma_accepted_plays_are_legal(self.board@, plays_entries(*plays), self.hands@[self.current_player as int]@);
        }
        let mut state = self;
        let ghost old_state = state;
        let ghost old_hands = state.hands@;
        let cp = state.current_player;
        let ghost hand_seq = old_hands[cp as int]@;
        let mut hand = state.hands.remove(cp);
        place_tiles(&mut hand, &legal, &mut state.board);
        draw_tiles(&mut hand, &mut state.bag, legal.len());
        let ghost new_hand = hand;
        state.hands.insert(cp, hand);
        proof {
            assert(state.hands@ == old_hands.update(cp as int, new_hand));
            lemma_hands_len_update(old_hands, cp as int, new_hand, old_hands.len() as int);
            lemma_increasing_indexes_len(legal@, hand_seq.len() as int);
            assert forall|i: int| 0 <= i < state.hands@.len() implies (#[trigger] state.hands@[i])@.len() <= TILE_LIMIT by {
                if i != cp {
                    assert(state.hands@[i] == old_hands[i]);
                }
            }
            assert forall|c: Coordinate| #[trigger] state.board@.contains_key(c) implies spec_in_bounds(c) by {
                if !spec_played_at(legal@, c) {
                    assert(crate::turn::spec_keeps(old_state.board@, state.board@, c));
                } else {
                    let i = choose|i: int| 0 <= i < legal@.len() && (#[trigger] legal@[i]).1 == c;
                }
            }
        }
        proof {
            assert forall|c: Coordinate| #[trigger] old_state.board@.contains_key(c) implies state.board@.contains_key(c)
                && state.board@[c] == old_state.board@[c] by {
                if spec_played_at(legal@, c) {
                    let i = choose|i: int| 0 <= i < legal@.len() && (#[trigger] legal@[i]).1 == c;
                }
                assert(crate::turn::spec_keeps(old_state.board@, state.board@, c));
            }
            assert forall|c: Coordinate| #[trigger] state.board@.contains_key(c) implies old_state.board@.contains_key(c)
                || spec_played_at(legal@, c) by {
                if !spec_played_at(legal@, c) {
                    assert(crate::turn::spec_keeps(old_state.board@, state.board@, c));
                }
            }
        }
        let ended = state.has_ended();
        if ended {
            let earned = state.points[cp].saturating_add(score + LAST_PLAY_BONUS);
            state.points.set(cp, earned);
            Ok(Either::Right(LastState { board: state.board, points: state.points, hands: state.hands }))
        } else {
            let earned = state.points[cp].saturating_add(score);
            state.points.set(cp, earned);
            let players = state.hands.len();
            state.current_player = (cp + 1) % players;
            Ok(Either::Left(state))
        }
    }
}

/// `a + b`, or the largest number a `usize` holds when the sum is larger.
pub open spec fn spec_saturating_add(a: int, b: int) -> int {
    if a + b > usize::MAX {
        usize::MAX as int
    } else {
        a + b
    }
}

} // verus!
