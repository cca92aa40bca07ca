use crate::consts::{FULL_MATCH_BONUS, TILE_LIMIT};
use crate::coordinate::{
    find_component_minimums_and_maximums, find_coordinate_by_minimum_distance, spec_bounds,
    spec_nearest_index, Coordinate,
};
use crate::first_state::FirstState;
use crate::holes::{find_holes_on_line, plays_hold_coordinate, spec_holes};
use crate::line::{
    check_line_entries, lemma_line_fails_groups, spec_duplicate_groups, spec_groups, spec_line_fails, spec_line_points,
    spec_multiple_groups, Groups,
};
use crate::next_state::NextState;
use crate::play::{lemma_all_below_index, lemma_all_inside_limit};
use crate::play::{
    coordinates_of, lemma_filter_plays_seq, played_line, possible_plays, spec_coordinates,
    spec_below_index, spec_from_index, spec_in_bounds, spec_inside_limit, spec_is_possible_play, spec_outside_limit, spec_played_line, split_by_bounds, split_by_index,
    PlayEntry,
};
use crate::tile::Tile;
use crate::turn::{draw_tiles, lemma_hands_len_update, lemma_increasing_indexes_len, place_tiles, spec_total_hands_len};
use crate::types::{entries_of, is_plays_seq, plays_entries, plays_from, Board, Plays};
use std::collections::BTreeSet;
use vstd::prelude::*;

verus! {

broadcast use Seq::lemma_filter_push;

/// A reason why a first play was rejected.
#[derive(Debug, PartialEq, Eq, Hash)]
pub enum FirstPlayError {
    /// No tile is played.
    EmptyPlays,
    /// Some plays name tiles that are not in the current player's hand.
    IndexesOutOfBounds {
        /// The plays whose index is at least the length of the hand.
        indexes_out_of_bounds: Plays,
    },
    /// Some plays lie too far from the center of the board.
    CoordinatesOutOfBounds {
        /// The plays with a component on or beyond the coordinate limit.
        coordinates_out_of_bounds: Plays,
    },
    /// No tile is played at the origin.
    OriginNotIncluded,
    /// The legal plays are not as many as the most matching tiles of the hand, or are that
    /// many but do not put down the tiles of any acceptable choice.
    NotMaxMatching {
        /// Every acceptable choice of tiles, by their indexes in the hand.
        max_matching_plays: Vec<Vec<usize>>,
    },
    /// No play is legal.
    NoLegalPlays,
    /// The legal plays are not a single tile or a line.
    NoLegalLines,
    /// The legal plays lie on a line but leave gaps in it.
    Holes {
        /// Runs of free coordinates, as first and last coordinate.
        holes: BTreeSet<(Coordinate, Coordinate)>,
    },
    /// The line holds a tile more than once.
    Duplicates {
        /// Groups of coordinates that hold the same tile.
        duplicates: Groups,
    },
    /// The line holds more than one matching group.
    MultipleMatching {
        /// The matching groups of the line.
        multiple_matching: Groups,
    },
}

/// Position of the kind of `e` in the declaration of [FirstPlayError].
pub open spec fn spec_first_kind(e: FirstPlayError) -> int {
    match e {
        FirstPlayError::EmptyPlays => 0,
        FirstPlayError::IndexesOutOfBounds { .. } => 1,
        FirstPlayError::CoordinatesOutOfBounds { .. } => 2,
        FirstPlayError::OriginNotIncluded => 3,
        FirstPlayError::NotMaxMatching { .. } => 4,
        FirstPlayError::NoLegalPlays => 5,
        FirstPlayError::NoLegalLines => 6,
        FirstPlayError::Holes { .. } => 7,
        FirstPlayError::Duplicates { .. } => 8,
        FirstPlayError::MultipleMatching { .. } => 9,
    }
}

/// Whether `errors` reports an error of the kind at position `kind` of [FirstPlayError].
pub open spec fn spec_reports_first(errors: Seq<FirstPlayError>, kind: int) -> bool {
    exists|i: int| 0 <= i < errors.len() && spec_first_kind(#[trigger] errors[i]) == kind
}

/// Whether the kinds of `errors` strictly increase.
pub open spec fn spec_first_kinds_increase(errors: Seq<FirstPlayError>) -> bool {
    forall|i: int, j: int| 0 <= i < j < errors.len() ==> spec_first_kind(#[trigger] errors[i]) < spec_first_kind(#[trigger] errors[j])
}

/// Whether the kinds of `errors` lie between `lo` and `hi`.
pub open spec fn spec_first_kinds_within(errors: Seq<FirstPlayError>, lo: int, hi: int) -> bool {
    forall|i: int| 0 <= i < errors.len() ==> lo <= #[trigger] spec_first_kind(errors[i]) <= hi
}

proof fn lemma_push_first(before: Seq<FirstPlayError>, x: FirstPlayError, lo: int)
    requires
        spec_first_kinds_increase(before),
        spec_first_kinds_within(before, lo, spec_first_kind(x) - 1),
        lo <= spec_first_kind(x),
    ensures
        spec_first_kinds_increase(before.push(x)),
        spec_first_kinds_within(before.push(x), lo, spec_first_kind(x)),
{
    let after = before.push(x);
    assert forall|i: int, j: int| 0 <= i < j < after.len() implies spec_first_kind(#[trigger] after[i]) < spec_first_kind(#[trigger] after[j]) by {
        assert(after[i] == before[i]);
        if j < before.len() {
            assert(after[j] == before[j]);
        }
    }
    assert forall|i: int| 0 <= i < after.len() implies lo <= #[trigger] spec_first_kind(after[i]) <= spec_first_kind(x) by {
        if i < before.len() {
            assert(after[i] == before[i]);
        }
    }
}

proof fn lemma_concat_first(a: Seq<FirstPlayError>, b: Seq<FirstPlayError>)
    requires
        spec_first_kinds_increase(a),
        spec_first_kinds_increase(b),
        spec_first_kinds_within(a, 0, 5),
        spec_first_kinds_within(b, 6, 9),
    ensures
        spec_first_kinds_increase(a + b),
{
    let c = a + b;
    assert forall|i: int, j: int| 0 <= i < j < c.len() implies spec_first_kind(#[trigger] c[i]) < spec_first_kind(#[trigger] c[j]) by {
        if j < a.len() {
            assert(c[i] == a[i] && c[j] == a[j]);
        } else if i < a.len() {
            assert(c[i] == a[i] && c[j] == b[j - a.len()]);
        } else {
            assert(c[i] == b[i - a.len()] && c[j] == b[j - a.len()]);
        }
    }
}

/// Errors whose kinds strictly increase are all different.
proof fn lemma_increasing_first_distinct(errors: Seq<FirstPlayError>)
    requires
        spec_first_kinds_increase(errors),
    ensures
        errors.no_duplicates(),
{
    assert forall|i: int, j: int| 0 <= i < errors.len() && 0 <= j < errors.len() && i != j implies errors[i] != errors[j] by {
        if i < j {
            assert(spec_first_kind(errors[i]) < spec_first_kind(errors[j]));
        } else {
            assert(spec_first_kind(errors[j]) < spec_first_kind(errors[i]));
        }
    }
}

/// The plays whose index is not in a hand of `n` tiles.
pub open spec fn spec_out_of_hand(p: Seq<PlayEntry>, n: int) -> Seq<PlayEntry> {
    spec_from_index(p, n)
}

/// The plays whose coordinate is inside the coordinate limit.
pub open spec fn spec_in_bounds_plays(p: Seq<PlayEntry>) -> Seq<PlayEntry> {
    spec_inside_limit(p)
}

/// The plays whose coordinate is on or beyond the coordinate limit.
pub open spec fn spec_out_of_bounds_plays(p: Seq<PlayEntry>) -> Seq<PlayEntry> {
    spec_outside_limit(p)
}

/// The plays of the first turn that break no rule of their own: inside the coordinate limit
/// and naming a tile of the hand.
pub open spec fn spec_first_legal(p: Seq<PlayEntry>, n: int) -> Seq<PlayEntry> {
    spec_below_index(spec_inside_limit(p), n)
}

/// Whether the legal plays lie in one column.
pub open spec fn spec_is_column(legal: Seq<PlayEntry>) -> bool {
    let b = spec_bounds(spec_coordinates(legal), legal.len() as int);
    b.0 == b.2
}

/// Whether the legal plays lie in one row and not in one column.
pub open spec fn spec_is_row(legal: Seq<PlayEntry>) -> bool {
    let b = spec_bounds(spec_coordinates(legal), legal.len() as int);
    b.0 != b.2 && b.1 == b.3
}

/// The legal play nearest to the origin, the first of equally near ones.
pub open spec fn spec_mid(legal: Seq<PlayEntry>) -> Coordinate {
    spec_coordinates(legal)[spec_nearest_index(spec_coordinates(legal), legal.len() as int)]
}

/// The holes of the line of legal plays, with `board` and `occupying` filling points.
pub open spec fn spec_line_holes(
    board: Map<Coordinate, Tile>,
    occupying: Seq<PlayEntry>,
    legal: Seq<PlayEntry>,
) -> Set<(Coordinate, Coordinate)> {
    let b = spec_bounds(spec_coordinates(legal), legal.len() as int);
    let mid = spec_mid(legal);
    if spec_is_column(legal) {
        spec_holes(board, occupying, true, b.0, mid.1, b.1, b.3)
    } else {
        spec_holes(board, occupying, false, b.1, mid.0, b.0, b.2)
    }
}

/// Whether a rejected play reports `e` as a fault of the line that the legal plays form,
/// and `e` says what it should.
pub open spec fn spec_first_line_error_holds(e: FirstPlayError, legal: Seq<PlayEntry>, hand: Seq<Tile>) -> bool {
    let is_line = legal.len() > 0 && (spec_is_column(legal) || spec_is_row(legal));
    let line = spec_played_line(legal, hand);
    match e {
        FirstPlayError::NoLegalLines => legal.len() > 0 && !spec_is_column(legal) && !spec_is_row(legal),
        FirstPlayError::Holes { holes } => is_line && !holes@.is_empty()
            && holes@ == spec_line_holes(Map::empty(), legal, legal),
        FirstPlayError::Duplicates { duplicates } => is_line && spec_line_fails(line)
            && !spec_duplicate_groups(line).is_empty() && spec_groups(duplicates@) == spec_duplicate_groups(line) && crate::line::spec_sorted_groups(duplicates@),
        FirstPlayError::MultipleMatching { multiple_matching } => is_line && spec_line_fails(line)
            && !spec_multiple_groups(line).is_empty() && spec_groups(multiple_matching@) == spec_multiple_groups(line) && crate::line::spec_sorted_groups(multiple_matching@),
        _ => false,
    }
}

/// The tiles that the plays take from the hand, in order.
pub open spec fn spec_play_tiles(p: Seq<PlayEntry>, hand: Seq<Tile>) -> Seq<Tile> {
    p.map_values(|e: PlayEntry| hand[e.0 as int])
}

/// The tiles of the hand at the indexes of a choice, in order.
pub open spec fn spec_choice_tiles(q: Seq<usize>, hand: Seq<Tile>) -> Seq<Tile> {
    q.map_values(|i: usize| hand[i as int])
}

/// Whether every tile of `a` is a tile of `b` and the other way round.
pub open spec fn spec_same_tiles(a: Seq<Tile>, b: Seq<Tile>) -> bool {
    (forall|i: int| 0 <= i < a.len() ==> b.contains(#[trigger] a[i])) && (forall|j: int|
        0 <= j < b.len() ==> a.contains(#[trigger] b[j]))
}

/// Whether the plays put down the same tile values as an acceptable choice of `max_match`
/// tiles of the hand.
pub open spec fn spec_is_acceptable_choice(legal: Seq<PlayEntry>, hand: Seq<Tile>, max_match: int) -> bool {
    exists|q: Seq<usize>| #[trigger] spec_is_possible_play(hand, max_match, q)
        && spec_same_tiles(spec_play_tiles(legal, hand), spec_choice_tiles(q, hand))
}

/// Whether the legal plays are not an acceptable opening: they are not as many as the most
/// matching tiles of the hand, or, while the hand has acceptable choices of that many tiles,
/// their tile values are those of none of them.
pub open spec fn spec_not_max_matching(legal: Seq<PlayEntry>, hand: Seq<Tile>, max_match: int) -> bool {
    legal.len() != max_match || ((exists|q: Seq<usize>| #[trigger] spec_is_possible_play(hand, max_match, q))
        && !spec_is_acceptable_choice(legal, hand, max_match))
}

/// Whether a rejected first play reports `e`, and `e` says what it should.
pub open spec fn spec_first_error_holds(e: FirstPlayError, p: Seq<PlayEntry>, hand: Seq<Tile>, max_match: int) -> bool {
    let n = hand.len() as int;
    let legal = spec_first_legal(p, n);
    match e {
        FirstPlayError::EmptyPlays => p.len() == 0,
        FirstPlayError::IndexesOutOfBounds { indexes_out_of_bounds } => p.len() > 0
            && spec_out_of_hand(p, n).len() > 0 && plays_entries(indexes_out_of_bounds) == spec_out_of_hand(p, n),
        FirstPlayError::CoordinatesOutOfBounds { coordinates_out_of_bounds } => p.len() > 0
            && spec_out_of_bounds_plays(p).len() > 0 && plays_entries(coordinates_out_of_bounds) == spec_out_of_bounds_plays(p),
        FirstPlayError::OriginNotIncluded => p.len() > 0 && !crate::turn::spec_played_at(spec_in_bounds_plays(p), (0, 0)),
        FirstPlayError::NotMaxMatching { max_matching_plays } => p.len() > 0 && spec_not_max_matching(legal, hand, max_match)
            && (forall|i: int| 0 <= i < max_matching_plays@.len() ==> spec_is_possible_play(hand, max_match, (#[trigger] max_matching_plays@[i])@))
            && (forall|q: Seq<usize>| #[trigger] spec_is_possible_play(hand, max_match, q) ==> exists|i: int|
                0 <= i < max_matching_plays@.len() && max_matching_plays@[i]@ == q)
            && (forall|i: int, j: int| 0 <= i < j < max_matching_plays@.len() ==> crate::play::spec_index_lex_less(
                (#[trigger] max_matching_plays@[i])@, (#[trigger] max_matching_plays@[j])@)),
        FirstPlayError::NoLegalPlays => p.len() > 0 && legal.len() == 0,
        _ => spec_first_line_error_holds(e, legal, hand),
    }
}

/// Whether `errors` is the answer to a rejected first play of `p` from `hand`: the play breaks
/// a rule, every error holds, and every rule that the play breaks is reported.
pub open spec fn spec_first_rejection(errors: Seq<FirstPlayError>, p: Seq<PlayEntry>, hand: Seq<Tile>, max_match: int) -> bool {
    let legal = spec_first_legal(p, hand.len() as int);
    let line = spec_played_line(legal, hand);
    let is_line = legal.len() > 0 && (spec_is_column(legal) || spec_is_row(legal));
    &&& !spec_first_play_is_legal(p, hand, max_match)
    &&& errors.no_duplicates()
    &&& forall|i: int| 0 <= i < errors.len() ==> spec_first_error_holds(#[trigger] errors[i], p, hand, max_match)
    &&& p.len() == 0 ==> spec_reports_first(errors, 0)
    &&& p.len() > 0 && spec_out_of_hand(p, hand.len() as int).len() > 0 ==> spec_reports_first(errors, 1)
    &&& p.len() > 0 && spec_out_of_bounds_plays(p).len() > 0 ==> spec_reports_first(errors, 2)
    &&& p.len() > 0 && !crate::turn::spec_played_at(spec_in_bounds_plays(p), (0, 0)) ==> spec_reports_first(errors, 3)
    &&& p.len() > 0 && spec_not_max_matching(legal, hand, max_match) ==> spec_reports_first(errors, 4)
    &&& p.len() > 0 && legal.len() == 0 ==> spec_reports_first(errors, 5)
    &&& legal.len() > 0 && !is_line ==> spec_reports_first(errors, 6)
    &&& is_line && !spec_line_holes(Map::empty(), legal, legal).is_empty() ==> spec_reports_first(errors, 7)
    &&& is_line && spec_line_fails(line) && !spec_duplicate_groups(line).is_empty() ==> spec_reports_first(errors, 8)
    &&& is_line && spec_line_fails(line) && !spec_multiple_groups(line).is_empty() ==> spec_reports_first(errors, 9)
}

/// Whether a first play of `p` from `hand` breaks no rule.
pub open spec fn spec_first_play_is_legal(p: Seq<PlayEntry>, hand: Seq<Tile>, max_match: int) -> bool {
    let n = hand.len() as int;
    let legal = spec_first_legal(p, n);
    &&& p.len() > 0
    &&& spec_out_of_hand(p, n).len() == 0
    &&& spec_out_of_bounds_plays(p).len() == 0
    &&& crate::turn::spec_played_at(spec_in_bounds_plays(p), (0, 0))
    &&& !spec_not_max_matching(legal, hand, max_match)
    &&& legal.len() > 0
    &&& (spec_is_column(legal) || spec_is_row(legal))
    &&& spec_line_holes(Map::empty(), legal, legal).is_empty()
    &&& !spec_line_fails(spec_played_line(legal, hand))
}

/// The plays of `legal` lie inside the coordinate limit and name tiles of a hand of `n`.
proof fn lemma_first_legal(p: Seq<PlayEntry>, n: int)
    requires
        is_plays_seq(p),
    ensures
        is_plays_seq(spec_in_bounds_plays(p)),
        is_plays_seq(spec_first_legal(p, n)),
        is_plays_seq(spec_out_of_hand(p, n)),
        is_plays_seq(spec_out_of_bounds_plays(p)),
        forall|i: int| 0 <= i < spec_first_legal(p, n).len() ==> spec_in_bounds((#[trigger] spec_first_legal(p, n)[i]).1)
            && spec_first_legal(p, n)[i].0 < n,
{
    let inb = spec_in_bounds_plays(p);
    let legal = spec_first_legal(p, n);
    lemma_filter_plays_seq(p, |e: PlayEntry| spec_in_bounds(e.1));
    lemma_filter_plays_seq(p, |e: PlayEntry| !spec_in_bounds(e.1));
    lemma_filter_plays_seq(p, |e: PlayEntry| e.0 >= n);
    lemma_filter_plays_seq(inb, |e: PlayEntry| e.0 < n);
    assert forall|i: int| 0 <= i < legal.len() implies spec_in_bounds((#[trigger] legal[i]).1) && legal[i].0 < n by {
        Seq::lemma_filter_pred(inb, |e: PlayEntry| e.0 < n, i);
        assert(inb.contains(legal[i]));
        let k = choose|k: int| 0 <= k < inb.len() && inb[k] == legal[i];
        Seq::lemma_filter_pred(p, |e: PlayEntry| spec_in_bounds(e.1), k);
    }
}

/// Checks what the plays ask for before their line is looked at: reports plays naming tiles
/// outside the hand, plays outside the coordinate limit, a missing origin, and a number of
/// legal plays other than `max_match`; returns the legal plays too.
fn first_input_errors(entries: &Vec<PlayEntry>, hand: &Vec<Tile>, max_match: usize, errors: &mut Vec<FirstPlayError>) -> (legal: Vec<PlayEntry>)
    requires
        old(errors)@.len() == 0,
        entries@.len() > 0,
        is_plays_seq(entries@),
    ensures
        legal@ == spec_first_legal(entries@, hand@.len() as int),
        forall|i: int| 0 <= i < final(errors)@.len() ==> spec_first_error_holds(#[trigger] final(errors)@[i], entries@, hand@, max_match as int),
        spec_out_of_hand(entries@, hand@.len() as int).len() > 0 ==> spec_reports_first(final(errors)@, 1),
        spec_out_of_bounds_plays(entries@).len() > 0 ==> spec_reports_first(final(errors)@, 2),
        !crate::turn::spec_played_at(spec_in_bounds_plays(entries@), (0, 0)) ==> spec_reports_first(final(errors)@, 3),
        spec_not_max_matching(spec_first_legal(entries@, hand@.len() as int), hand@, max_match as int) ==> spec_reports_first(final(errors)@, 4),
        spec_first_kinds_increase(final(errors)@),
        spec_first_kinds_within(final(errors)@, 1, 4),
{
    let ghost p = entries@;
    let hand_len = hand.len();
    let ghost n = hand_len as int;
    proof {
        lemma_first_legal(p, n);
    }
    let (_, out_of_hand) = split_by_index(entries, hand_len);
    let ghost out_of_hand_seq = out_of_hand@;
    assert(out_of_hand_seq == spec_out_of_hand(p, n));
    let ghost at_indexes = errors@.len() as int;
    if out_of_hand.len() > 0 {
        let indexes_out_of_bounds = plays_from(out_of_hand);
        let ghost before_push = errors@;
        errors.push(FirstPlayError::IndexesOutOfBounds { indexes_out_of_bounds });
        proof {
            lemma_push_first(before_push, errors@[errors@.len() - 1], 1);
            assert(errors@ == before_push.push(errors@[errors@.len() - 1]));
        }
        assert(spec_first_error_holds(errors@[at_indexes], p, hand@, max_match as int));
    }
    let ghost e1 = errors@;
    let (in_bounds, out_of_bounds) = split_by_bounds(entries);
    let ghost out_of_bounds_seq = out_of_bounds@;
    assert(out_of_bounds_seq == spec_out_of_bounds_plays(p));
    let ghost at_coordinates = errors@.len() as int;
    if out_of_bounds.len() > 0 {
        let coordinates_out_of_bounds = plays_from(out_of_bounds);
        let ghost before_push = errors@;
        errors.push(FirstPlayError::CoordinatesOutOfBounds { coordinates_out_of_bounds });
        proof {
            lemma_push_first(before_push, errors@[errors@.len() - 1], 1);
            assert(errors@ == before_push.push(errors@[errors@.len() - 1]));
        }
        assert(spec_first_error_holds(errors@[at_coordinates], p, hand@, max_match as int));
    }
    let ghost e2 = errors@;
    let ghost at_origin = errors@.len() as int;
    let origin_included = plays_hold_coordinate(&in_bounds, (0, 0));
    if !origin_included {
        let ghost before_push = errors@;
        errors.push(FirstPlayError::OriginNotIncluded);
        proof {
            lemma_push_first(before_push, errors@[errors@.len() - 1], 1);
            assert(errors@ == before_push.push(errors@[errors@.len() - 1]));
        }
        assert(spec_first_error_holds(errors@[at_origin], p, hand@, max_match as int));
    }
    let ghost e3 = errors@;
    let (legal, _) = split_by_index(&in_bounds, hand_len);
    assert(legal@ == spec_first_legal(p, n));
    let ghost at_max = errors@.len() as int;
    let max_matching_plays = possible_plays(hand, max_match);
    proof {
        lemma_first_legal(p, n);
        assert forall|i: int| 0 <= i < max_matching_plays@.len() implies forall|j: int|
            0 <= j < (#[trigger] max_matching_plays@[i])@.len() ==> (#[trigger] max_matching_plays@[i]@[j]) < hand@.len() by {
            crate::play::lemma_possible_play_in_hand(hand@, max_match as int, max_matching_plays@[i]@);
        }
    }
    let legal_tiles = played_tiles(&legal, hand);
    let listed = matches_a_choice(&max_matching_plays, &legal_tiles, hand);
    let ghost not_max = spec_not_max_matching(legal@, hand@, max_match as int);
    proof {
        let v = max_matching_plays@;
        if v.len() > 0 {
            assert(spec_is_possible_play(hand@, max_match as int, v[0]@));
        }
        if exists|q: Seq<usize>| #[trigger] spec_is_possible_play(hand@, max_match as int, q) {
            let q = choose|q: Seq<usize>| #[trigger] spec_is_possible_play(hand@, max_match as int, q);
            assert(v.len() > 0);
        }
        if spec_is_acceptable_choice(legal@, hand@, max_match as int) {
            let q = choose|q: Seq<usize>| #[trigger] spec_is_possible_play(hand@, max_match as int, q)
                && spec_same_tiles(spec_play_tiles(legal@, hand@), spec_choice_tiles(q, hand@));
            let i = choose|i: int| 0 <= i < v.len() && v[i]@ == q;
            assert(listed);
        }
        if listed {
            let i = choose|i: int| 0 <= i < v.len() && spec_same_tiles(legal_tiles@, spec_choice_tiles((#[trigger] v[i])@, hand@));
            assert(spec_is_possible_play(hand@, max_match as int, v[i]@));
        }
    }
    if legal.len() != max_match || (max_matching_plays.len() > 0 && !listed) {
        let ghost v = max_matching_plays@;
        assert(forall|i: int| 0 <= i < v.len() ==> spec_is_possible_play(hand@, max_match as int, (#[trigger] v[i])@));
        let ghost before_push = errors@;
        errors.push(FirstPlayError::NotMaxMatching { max_matching_plays });
        proof {
            lemma_push_first(before_push, errors@[errors@.len() - 1], 1);
            assert(errors@ == before_push.push(errors@[errors@.len() - 1]));
        }
        assert(errors@[at_max] == FirstPlayError::NotMaxMatching { max_matching_plays: errors@[at_max]->max_matching_plays });
        assert(spec_first_error_holds(errors@[at_max], p, hand@, max_match as int));
    }
    proof {
        assert forall|i: int| 0 <= i < errors@.len() implies spec_first_error_holds(#[trigger] errors@[i], p, hand@, max_match as int) by {
            if i == at_max && not_max {
            } else if i == at_origin && !origin_included {
                assert(errors@[i] == e3[i]);
            } else if i == at_coordinates && out_of_bounds_seq.len() > 0 {
                assert(errors@[i] == e2[i]);
            } else {
                assert(errors@[i] == e1[i]);
            }
        }
        if out_of_hand_seq.len() > 0 {
            assert(spec_first_kind(errors@[at_indexes]) == 1);
            assert(spec_reports_first(errors@, 1));
        }
        if out_of_bounds_seq.len() > 0 {
            assert(spec_first_kind(errors@[at_coordinates]) == 2);
            assert(spec_reports_first(errors@, 2));
        }
        if !origin_included {
            assert(spec_first_kind(errors@[at_origin]) == 3);
        }
        if not_max {
            assert(spec_first_kind(errors@[at_max]) == 4);
        }
    }
    legal
}

/// The tiles that plays take from the hand, in order.
fn played_tiles(entries: &Vec<PlayEntry>, hand: &Vec<Tile>) -> (r: Vec<Tile>)
    requires
        forall|i: int| 0 <= i < entries@.len() ==> (#[trigger] entries@[i]).0 < hand@.len(),
    ensures
        r@ == spec_play_tiles(entries@, hand@),
{
    let mut r: Vec<Tile> = Vec::new();
    let mut k: usize = 0;
    while k < entries.len()
        invariant
            k <= entries@.len(),
            forall|i: int| 0 <= i < entries@.len() ==> (#[trigger] entries@[i]).0 < hand@.len(),
            r@ == spec_play_tiles(entries@.take(k as int), hand@),
        decreases entries@.len() - k,
    {
        assert(entries@.take(k + 1) == entries@.take(k as int).push(entries@[k as int]));
        r.push(hand[entries[k].0]);
        k = k + 1;
    }
    assert(entries@.take(entries@.len() as int) == entries@);
    r
}

fn holds_tile(tiles: &Vec<Tile>, t: Tile) -> (r: bool)
    ensures
        r == tiles@.contains(t),
{
    let mut k: usize = 0;
    while k < tiles.len()
        invariant
            k <= tiles@.len(),
            forall|i: int| 0 <= i < k ==> tiles@[i] != t,
        decreases tiles@.len() - k,
    {
        if crate::tile::same_tile(tiles[k], t) {
            return true;
        }
        k = k + 1;
    }
    false
}

/// Whether the tiles are those of one of the choices.
fn matches_a_choice(choices: &Vec<Vec<usize>>, tiles: &Vec<Tile>, hand: &Vec<Tile>) -> (r: bool)
    requires
        forall|i: int| 0 <= i < choices@.len() ==> forall|j: int|
            0 <= j < (#[trigger] choices@[i])@.len() ==> (#[trigger] choices@[i]@[j]) < hand@.len(),
    ensures
        r == exists|i: int| 0 <= i < choices@.len() && spec_same_tiles(tiles@, spec_choice_tiles((#[trigger] choices@[i])@, hand@)),
{
    let mut i: usize = 0;
    while i < choices.len()
        invariant
            i <= choices@.len(),
            forall|i: int| 0 <= i < choices@.len() ==> forall|j: int|
                0 <= j < (#[trigger] choices@[i])@.len() ==> (#[trigger] choices@[i]@[j]) < hand@.len(),
            forall|m: int| 0 <= m < i ==> !spec_same_tiles(tiles@, spec_choice_tiles((#[trigger] choices@[m])@, hand@)),
        decreases choices@.len() - i,
    {
        let choice = &choices[i];
        let mut chosen: Vec<Tile> = Vec::new();
        let mut j: usize = 0;
        while j < choice.len()
            invariant
                j <= choice@.len(),
                choice@ == choices@[i as int]@,
                forall|m: int| 0 <= m < choice@.len() ==> (#[trigger] choice@[m]) < hand@.len(),
                chosen@ == spec_choice_tiles(choice@.take(j as int), hand@),
            decreases choice@.len() - j,
        {
            assert(choice@.take(j + 1) == choice@.take(j as int).push(choice@[j as int]));
            chosen.push(hand[choice[j]]);
            j = j + 1;
        }
        assert(choice@.take(choice@.len() as int) == choice@);
        let mut all_in = true;
        let mut k: usize = 0;
        while k < tiles.len()
            invariant
                k <= tiles@.len(),
                all_in == forall|m: int| 0 <= m < k ==> chosen@.contains(#[trigger] tiles@[m]),
            decreases tiles@.len() - k,
        {
            if !holds_tile(&chosen, tiles[k]) {
                all_in = false;
            }
            k = k + 1;
        }
        let mut all_back = true;
        let mut k: usize = 0;
        while k < chosen.len()
            invariant
                k <= chosen@.len(),
                all_back == forall|m: int| 0 <= m < k ==> tiles@.contains(#[trigger] chosen@[m]),
            decreases chosen@.len() - k,
        {
            if !holds_tile(tiles, chosen[k]) {
                all_back = false;
            }
            k = k + 1;
        }
        if all_in && all_back {
            assert(spec_same_tiles(tiles@, spec_choice_tiles(choices@[i as int]@, hand@)));
            return true;
        }
        i = i + 1;
    }
    false
}

/// Checks the line that the legal plays form on an empty board: it must be a single tile,
/// a row or a column, without holes, whose tiles match. Returns its points, or every fault.
fn first_line_errors(legal: &Vec<PlayEntry>, hand: &Vec<Tile>) -> (r: Result<usize, Vec<FirstPlayError>>)
    requires
        legal@.len() > 0,
        is_plays_seq(legal@),
        hand@.len() <= TILE_LIMIT,
        forall|i: int| 0 <= i < legal@.len() ==> spec_in_bounds((#[trigger] legal@[i]).1) && legal@[i].0 < hand@.len(),
    ensures
        ({
            let line = spec_played_line(legal@, hand@);
            let is_line = spec_is_column(legal@) || spec_is_row(legal@);
            match r {
                Ok(points) => is_line && spec_line_holes(Map::empty(), legal@, legal@).is_empty()
                    && !spec_line_fails(line) && points == spec_line_points(line),
                Err(errors) => {
                    &&& errors@.len() > 0
                    &&& spec_first_kinds_increase(errors@)
                    &&& spec_first_kinds_within(errors@, 6, 9)
                    &&& forall|i: int| 0 <= i < errors@.len() ==> spec_first_line_error_holds(#[trigger] errors@[i], legal@, hand@)
                    &&& !is_line ==> spec_reports_first(errors@, 6)
                    &&& is_line && !spec_line_holes(Map::empty(), legal@, legal@).is_empty() ==> spec_reports_first(errors@, 7)
                    &&& is_line && spec_line_fails(line) && !spec_duplicate_groups(line).is_empty() ==> spec_reports_first(errors@, 8)
                    &&& is_line && spec_line_fails(line) && !spec_multiple_groups(line).is_empty() ==> spec_reports_first(errors@, 9)
                },
            }
        }),
{
    let ghost legal_seq = legal@;
    let coordinates = coordinates_of(legal);
    let mut errors: Vec<FirstPlayError> = Vec::new();
    let (min_x, min_y, max_x, max_y) = match find_component_minimums_and_maximums(coordinates.as_slice()) {
        None => {
            return Err(errors);
        },
        Some(b) => b,
    };
    let (mid_x, mid_y) = match find_coordinate_by_minimum_distance(coordinates.as_slice()) {
        None => {
            return Err(errors);
        },
        Some(m) => m,
    };
    proof {
        let cs = spec_coordinates(legal_seq);
        assert forall|i: int| 0 <= i < cs.len() implies spec_in_bounds(#[trigger] cs[i]) by {
            assert(cs[i] == legal_seq[i].1);
        }
        let i0 = choose|i: int| 0 <= i < cs.len() && (#[trigger] cs[i]).0 == min_x;
        let i1 = choose|i: int| 0 <= i < cs.len() && (#[trigger] cs[i]).1 == min_y;
        let i2 = choose|i: int| 0 <= i < cs.len() && (#[trigger] cs[i]).0 == max_x;
        let i3 = choose|i: int| 0 <= i < cs.len() && (#[trigger] cs[i]).1 == max_y;
        let k = crate::coordinate::spec_nearest_index(cs, cs.len() as int);
        crate::coordinate::lemma_nearest(cs, cs.len() as int);
        assert(spec_in_bounds(cs[i0]) && spec_in_bounds(cs[i1]) && spec_in_bounds(cs[i2]) && spec_in_bounds(cs[i3]) && spec_in_bounds(cs[k]));
    }
    let empty_board = Board::new();
    let holes = if min_x == max_x {
        find_holes_on_line(&empty_board, legal, true, min_x, mid_y, min_y, max_y)
    } else if min_y == max_y {
        find_holes_on_line(&empty_board, legal, false, min_y, mid_x, min_x, max_x)
    } else {
        errors.push(FirstPlayError::NoLegalLines);
        assert(spec_first_kind(errors@[0]) == 6);
        return Err(errors);
    };
    let ghost at_holes = errors@.len() as int;
    let has_holes = !holes.is_empty();
    if has_holes {
        let ghost before_push = errors@;
        errors.push(FirstPlayError::Holes { holes });
        proof {
            lemma_push_first(before_push, errors@[errors@.len() - 1], 6);
            assert(errors@ == before_push.push(errors@[errors@.len() - 1]));
        }
    }
    let ghost e1 = errors@;
    let line = played_line(legal, hand);
    proof {
        lemma_increasing_indexes_len(legal_seq, hand@.len() as int);
        assert forall|i: int, j: int| 0 <= i < line@.len() && 0 <= j < line@.len() && i != j
            implies (#[trigger] line@[i]).0 != (#[trigger] line@[j]).0 by {
            assert(line@[i].0 == legal_seq[i].1);
            assert(line@[j].0 == legal_seq[j].1);
        }
    }
    let ghost at_duplicates = errors@.len() as int;
    let ghost mut at_multiple = errors@.len() as int;
    match check_line_entries(&line) {
        Err((duplicates, multiple_matching)) => {
            let ghost d = duplicates@;
            let ghost m = multiple_matching@;
            if duplicates.len() > 0 {
                proof {
                    assert(spec_groups(duplicates@).contains(duplicates@[0]@.to_set()));
                }
                let ghost before_push = errors@;
                errors.push(FirstPlayError::Duplicates { duplicates });
                proof {
                    lemma_push_first(before_push, errors@[errors@.len() - 1], 6);
                    assert(errors@ == before_push.push(errors@[errors@.len() - 1]));
                }
            }
            let ghost e2 = errors@;
            proof {
                at_multiple = errors@.len() as int;
            }
            if multiple_matching.len() > 0 {
                proof {
                    assert(spec_groups(multiple_matching@).contains(multiple_matching@[0]@.to_set()));
                }
                let ghost before_push = errors@;
                errors.push(FirstPlayError::MultipleMatching { multiple_matching });
                proof {
                    lemma_push_first(before_push, errors@[errors@.len() - 1], 6);
                    assert(errors@ == before_push.push(errors@[errors@.len() - 1]));
                }
            }
            proof {
                lemma_line_fails_groups(line@);
                if !spec_duplicate_groups(line@).is_empty() {
                    let g = choose|g: Set<Coordinate>| spec_duplicate_groups(line@).contains(g);
                    assert(spec_groups(d).contains(g));
                    assert(spec_first_kind(errors@[at_duplicates]) == 8);
                }
                if !spec_multiple_groups(line@).is_empty() {
                    let g = choose|g: Set<Coordinate>| spec_multiple_groups(line@).contains(g);
                    assert(spec_groups(m).contains(g));
                    assert(spec_first_kind(errors@[at_multiple]) == 9);
                }
                assert forall|i: int| 0 <= i < errors@.len() implies spec_first_line_error_holds(#[trigger] errors@[i], legal_seq, hand@) by {
                    if i == at_multiple && m.len() > 0 {
                    } else if i == at_duplicates && d.len() > 0 {
                        assert(errors@[i] == e2[i]);
                    } else {
                        assert(errors@[i] == e1[i]);
                    }
                }
                if has_holes {
                    assert(spec_first_kind(errors@[at_holes]) == 7);
                }
            }
            Err(errors)
        },
        Ok(points) => {
            if has_holes {
                proof {
                    assert(spec_first_kind(errors@[at_holes]) == 7);
                }
                Err(errors)
            } else {
                Ok(points)
            }
        },
    }
}

impl FirstState {
    /// Checks a first play and returns its points, or every rule that it breaks.
    ///
    /// The plays must not be empty. Plays whose index is not in the current hand, and plays
    /// outside the coordinate limit, are reported; the other plays are the legal ones. The
    /// plays must include the origin, and the legal plays must be as many as the most matching
    /// tiles of the hand and, when the hand has acceptable choices of that many tiles, put down
    /// the tiles of one of them; else every acceptable choice of that many tiles is reported. The
    /// legal plays must form a single tile or a line without holes whose tiles match.
    fn check_plays(&self, plays: &Plays) -> (r: Result<usize, Vec<FirstPlayError>>)
        requires
            self.wf(),
        ensures
            ({
                let p = plays_entries(*plays);
                let hand = self.hands@[self.current_player as int]@;
                let max_match = self.max_matches@[self.current_player as int] as int;
                let legal = spec_first_legal(p, hand.len() as int);
                let line = spec_played_line(legal, hand);
                let is_line = legal.len() > 0 && (spec_is_column(legal) || spec_is_row(legal));
                match r {
                    Ok(points) => spec_first_play_is_legal(p, hand, max_match) && points == spec_line_points(line),
                    Err(errors) => spec_first_rejection(errors@, p, hand, max_match),
                }
            }),
    {
        let ghost p = plays_entries(*plays);
        let ghost hand_seq = self.hands@[self.current_player as int]@;
        let ghost max_match_int = self.max_matches@[self.current_player as int] as int;
        let entries = entries_of(plays);
        if entries.len() == 0 {
            let mut errors: Vec<FirstPlayError> = Vec::new();
            errors.push(FirstPlayError::EmptyPlays);
            assert(spec_first_kind(errors@[0]) == 0);
            assert(errors@.no_duplicates());
            return Err(errors);
        }
        let hand = &self.hands[self.current_player];
        let max_match = self.max_matches[self.current_player];
        let mut errors: Vec<FirstPlayError> = Vec::new();
        let legal = first_input_errors(&entries, hand, max_match, &mut errors);
        let ghost input_errors = errors@;
        proof {
            lemma_first_legal(p, hand_seq.len() as int);
        }
        if legal.len() == 0 {
            let ghost before_push = errors@;
            errors.push(FirstPlayError::NoLegalPlays);
            proof {
                lemma_push_first(before_push, errors@[errors@.len() - 1], 1);
                assert(errors@ == before_push.push(errors@[errors@.len() - 1]));
            }
            proof {
                assert(spec_first_kind(errors@[errors@.len() - 1]) == 5);
                assert forall|i: int| 0 <= i < errors@.len() implies spec_first_error_holds(#[trigger] errors@[i], p, hand_seq, max_match_int) by {
                    if i < input_errors.len() {
                        assert(errors@[i] == input_errors[i]);
                    }
                }
                lemma_still_reported(input_errors, errors@);
                lemma_increasing_first_distinct(errors@);
            }
            return Err(errors);
        }
        match first_line_errors(&legal, hand) {
            Ok(points) => {
                if errors.len() > 0 {
                    proof {
                        assert(spec_first_error_holds(errors@[0], p, hand_seq, max_match_int));
                    }
                    Err(errors)
                } else {
                    Ok(points)
                }
            },
            Err(line_errors) => {
                let ghost tail = line_errors@;
                let mut line_errors = line_errors;
                errors.append(&mut line_errors);
                proof {
                    assert forall|i: int| 0 <= i < errors@.len() implies spec_first_error_holds(#[trigger] errors@[i], p, hand_seq, max_match_int) by {
                        if i < input_errors.len() {
                            assert(errors@[i] == input_errors[i]);
                        } else {
                            assert(errors@[i] == tail[i - input_errors.len()]);
                            assert(spec_first_line_error_holds(tail[i - input_errors.len()], legal@, hand_seq));
                        }
                    }
                    lemma_still_reported(input_errors, errors@);
                    lemma_line_errors_reported(tail, input_errors, errors@);
                    assert(spec_first_line_error_holds(tail[0], legal@, hand_seq));
                    lemma_concat_first(input_errors, tail);
                    assert(errors@ == input_errors + tail);
                    lemma_increasing_first_distinct(errors@);
                }
                Err(errors)
            },
        }
    }
}

impl FirstState {
    /// Plays the first turn. When the plays break no rule (see [FirstState::check_plays]),
    /// their tiles leave the current hand, highest index first, and go onto an empty board at
    /// their coordinates; the hand draws as many tiles from the end of the bag as it played,
    /// or what is left; the current player earns the points of the line and every other
    /// player none; and the turn passes to the next player. Otherwise the state comes back
    /// unchanged with every rule that the plays break.
    pub fn first_play(self, plays: &Plays) -> (r: Result<NextState, (FirstState, Vec<FirstPlayError>)>)
        requires
            self.wf(),
        ensures
            ({
                let p = plays_entries(*plays);
                let cp = self.current_player as int;
                let hand = self.hands@[cp]@;
                let max_match = self.max_matches@[cp] as int;
                match r {
                    Ok(next) => {
                        &&& spec_first_play_is_legal(p, hand, max_match)
                        &&& next.wf()
                        &&& next.spec_tile_count() == self.spec_tile_count()
                        &&& next.hands@.len() == self.hands@.len()
                        &&& forall|i: int| 0 <= i < self.hands@.len() && i != cp ==> next.hands@[i] == #[trigger] self.hands@[i]
                        &&& next.hands@[cp]@ == crate::turn::spec_without_plays(hand, p) + self.bag@.skip(next.bag@.len() as int)
                        &&& next.bag@ == self.bag@.take(next.bag@.len() as int)
                        &&& next.bag@.len() == if p.len() <= self.bag@.len() { self.bag@.len() - p.len() } else { 0 }
                        &&& next.board@.len() == p.len()
                        &&& forall|i: int| 0 <= i < p.len() ==> next.board@.contains_key((#[trigger] p[i]).1)
                            && next.board@[p[i].1] == hand[p[i].0 as int]
                        &&& next.points@[cp] == spec_line_points(spec_played_line(p, hand))
                        &&& forall|i: int| 0 <= i < next.points@.len() && i != cp ==> #[trigger] next.points@[i] == 0
                        &&& next.current_player == (self.current_player + 1) % (self.hands@.len() as int)
                    },
                    Err((state, errors)) => state == self && spec_first_rejection(errors@, p, hand, max_match),
                }
            }),
    {
        let first_play_points = match self.check_plays(plays) {
            Ok(points) => points,
            Err(errors) => {
                return Err((self, errors));
            },
        };
        let mut state = self;
        let ghost old_hands = state.hands@;
        let ghost old_bag = state.bag@;
        let entries = entries_of(plays);
        let cp = state.current_player;
        let ghost hand_seq = old_hands[cp as int]@;
        proof {
            let n = hand_seq.len() as int;
            lemma_all_inside_limit(entries@);
            lemma_all_below_index(entries@, n);
            lemma_first_legal(entries@, n);
            assert(spec_first_legal(entries@, n) == entries@);
        }
        let mut hand = state.hands.remove(cp);
        let mut board = Board::new();
        place_tiles(&mut hand, &entries, &mut board);
        draw_tiles(&mut hand, &mut state.bag, entries.len());
        let ghost new_hand = hand;
        state.hands.insert(cp, hand);
        proof {
            assert(state.hands@ == old_hands.update(cp as int, new_hand));
            lemma_hands_len_update(old_hands, cp as int, new_hand, old_hands.len() as int);
            lemma_increasing_indexes_len(entries@, hand_seq.len() as int);
        }
        let players = state.hands.len();
        let mut points: Vec<usize> = Vec::new();
        let mut k: usize = 0;
        while k < players
            invariant
                k <= players,
                points@.len() == k,
                forall|i: int| 0 <= i < k ==> points@[i] == (if i == cp { first_play_points } else { 0 }),
            decreases players - k,
        {
            if k == cp {
                points.push(first_play_points);
            } else {
                points.push(0);
            }
            k = k + 1;
        }
        let next = NextState {
            bag: state.bag,
            board,
            points,
            hands: state.hands,
            current_player: (cp + 1) % players,
        };
        proof {
            assert forall|i: int| 0 <= i < next.hands@.len() implies (#[trigger] next.hands@[i])@.len() <= TILE_LIMIT by {
                if i != cp {
                    assert(next.hands@[i] == old_hands[i]);
                }
            }
            assert forall|c: Coordinate| #[trigger] next.board@.contains_key(c) implies crate::play::spec_in_bounds(c) by {
                if !crate::turn::spec_played_at(entries@, c) {
                    assert(crate::turn::spec_keeps(Map::empty(), next.board@, c));
                } else {
                    let i = choose|i: int| 0 <= i < entries@.len() && (#[trigger] entries@[i]).1 == c;
                    assert(spec_first_legal(entries@, hand_seq.len() as int)[i] == entries@[i]);
                    assert(crate::play::spec_in_bounds((spec_first_legal(entries@, hand_seq.len() as int)[i]).1));
                }
            }
        }
        Ok(next)
    }
}

proof fn lemma_still_reported(before: Seq<FirstPlayError>, after: Seq<FirstPlayError>)
    requires
        before.len() <= after.len(),
        forall|i: int| 0 <= i < before.len() ==> after[i] == before[i],
    ensures
        forall|kind: int| #[trigger] spec_reports_first(before, kind) ==> spec_reports_first(after, kind),
{
    assert forall|kind: int| #[trigger] spec_reports_first(before, kind) implies spec_reports_first(after, kind) by {
        let i = choose|i: int| 0 <= i < before.len() && spec_first_kind(#[trigger] before[i]) == kind;
        assert(spec_first_kind(after[i]) == kind);
    }
}

proof fn lemma_line_errors_reported(tail: Seq<FirstPlayError>, head: Seq<FirstPlayError>, all: Seq<FirstPlayError>)
    requires
        all == head + tail,
    ensures
        forall|kind: int| #[trigger] spec_reports_first(tail, kind) ==> spec_reports_first(all, kind),
{
    assert forall|kind: int| #[trigger] spec_reports_first(tail, kind) implies spec_reports_first(all, kind) by {
        let i = choose|i: int| 0 <= i < tail.len() && spec_first_kind(#[trigger] tail[i]) == kind;
        assert(spec_first_kind(all[head.len() + i]) == kind);
    }
}

} // verus!
