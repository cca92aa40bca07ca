use crate::consts::{COORDINATE_LIMIT, FULL_MATCH_BONUS};
use crate::coordinate::{same_coordinate, Coordinate};
use crate::holes::spec_line_point;
use crate::line::{check_line_entries, spec_duplicate_groups, spec_groups, spec_line_fails, spec_line_points, spec_multiple_groups, Groups};
use crate::play::{spec_in_bounds, PlayEntry};
use crate::tile::Tile;
use crate::types::Board;
use vstd::prelude::*;

verus! {

/// Position of the first play of `legal`, from position `i` on, at `c`; `-1` when none is.
pub open spec fn spec_play_position(legal: Seq<PlayEntry>, c: Coordinate, i: int) -> int
    decreases legal.len() - i,
{
    if i < 0 || i >= legal.len() {
        -1
    } else if legal[i].1 == c {
        i
    } else {
        spec_play_position(legal, c, i + 1)
    }
}

/// Whether `c` holds a tile: on the board, or as one of the plays.
pub open spec fn spec_filled(board: Map<Coordinate, Tile>, legal: Seq<PlayEntry>, c: Coordinate) -> bool {
    board.contains_key(c) || spec_play_position(legal, c, 0) >= 0
}

/// The tile at `c`: the tile of the hand that a play puts there, else the tile of the board.
pub open spec fn spec_cell(board: Map<Coordinate, Tile>, legal: Seq<PlayEntry>, hand: Seq<Tile>, c: Coordinate) -> (Coordinate, Tile) {
    let i = spec_play_position(legal, c, 0);
    if i >= 0 {
        (c, hand[legal[i].0 as int])
    } else {
        (c, board[c])
    }
}

/// The last value, from `v` on upward, of the run of filled points of a row or column.
pub open spec fn spec_extent_up(board: Map<Coordinate, Tile>, legal: Seq<PlayEntry>, vertical: bool, fixed: isize, v: isize) -> isize
    decreases COORDINATE_LIMIT - v,
{
    if v + 1 < COORDINATE_LIMIT && spec_filled(board, legal, spec_line_point(vertical, fixed, (v + 1) as isize)) {
        spec_extent_up(board, legal, vertical, fixed, (v + 1) as isize)
    } else {
        v
    }
}

/// The last value, from `v` on downward, of the run of filled points of a row or column.
pub open spec fn spec_extent_down(board: Map<Coordinate, Tile>, legal: Seq<PlayEntry>, vertical: bool, fixed: isize, v: isize) -> isize
    decreases v + COORDINATE_LIMIT,
{
    if v - 1 > -COORDINATE_LIMIT && spec_filled(board, legal, spec_line_point(vertical, fixed, (v - 1) as isize)) {
        spec_extent_down(board, legal, vertical, fixed, (v - 1) as isize)
    } else {
        v
    }
}

/// The line of a row or column through `mid`: the run of filled points around it, with
/// their tiles, in ascending order.
pub open spec fn spec_line_through(
    board: Map<Coordinate, Tile>,
    legal: Seq<PlayEntry>,
    hand: Seq<Tile>,
    vertical: bool,
    fixed: isize,
    mid: isize,
) -> Seq<(Coordinate, Tile)> {
    let lo = spec_extent_down(board, legal, vertical, fixed, mid);
    let hi = spec_extent_up(board, legal, vertical, fixed, mid);
    Seq::new((hi - lo + 1) as nat, |k: int| spec_cell(board, legal, hand, spec_line_point(vertical, fixed, (lo + k) as isize)))
}

/// The line crossing a play: the tile of the play and the board's tiles next to it, across
/// the direction of the main line.
pub open spec fn spec_cross_line(board: Map<Coordinate, Tile>, e: PlayEntry, hand: Seq<Tile>, vertical: bool) -> Seq<(Coordinate, Tile)> {
    if vertical {
        spec_line_through(board, seq![e], hand, false, e.1.1, e.1.0)
    } else {
        spec_line_through(board, seq![e], hand, true, e.1.0, e.1.1)
    }
}

/// The lines that the first `k` legal plays cross, those of more than one tile.
pub open spec fn spec_cross_lines(board: Map<Coordinate, Tile>, legal: Seq<PlayEntry>, hand: Seq<Tile>, vertical: bool, k: int) -> Seq<Seq<(Coordinate, Tile)>>
    decreases k,
{
    if k <= 0 {
        Seq::empty()
    } else {
        let line = spec_cross_line(board, legal[k - 1], hand, vertical);
        let rest = spec_cross_lines(board, legal, hand, vertical, k - 1);
        if line.len() > 1 {
            rest.push(line)
        } else {
            rest
        }
    }
}

/// Every line that a play makes: the main line, then the crossing lines of more than one tile.
pub open spec fn spec_play_lines(
    board: Map<Coordinate, Tile>,
    legal: Seq<PlayEntry>,
    hand: Seq<Tile>,
    vertical: bool,
    fixed: isize,
    mid: isize,
) -> Seq<Seq<(Coordinate, Tile)>> {
    seq![spec_line_through(board, legal, hand, vertical, fixed, mid)] + spec_cross_lines(board, legal, hand, vertical, legal.len() as int)
}

/// Sum of the points of the first `k` lines.
pub open spec fn spec_points_sum(lines: Seq<Seq<(Coordinate, Tile)>>, k: int) -> int
    decreases k,
{
    if k <= 0 {
        0
    } else {
        spec_points_sum(lines, k - 1) + spec_line_points(lines[k - 1])
    }
}

/// Whether some of the lines breaks a rule.
pub open spec fn spec_some_line_fails(lines: Seq<Seq<(Coordinate, Tile)>>) -> bool {
    exists|i: int| 0 <= i < lines.len() && spec_line_fails(#[trigger] lines[i])
}

proof fn lemma_extent_up_filled(board: Map<Coordinate, Tile>, legal: Seq<PlayEntry>, vertical: bool, fixed: isize, v: isize, w: isize)
    requires
        v <= w <= spec_extent_up(board, legal, vertical, fixed, v),
        spec_filled(board, legal, spec_line_point(vertical, fixed, v)),
    ensures
        spec_filled(board, legal, spec_line_point(vertical, fixed, w)),
    decreases COORDINATE_LIMIT - v,
{
    if w > v {
        lemma_extent_up_filled(board, legal, vertical, fixed, (v + 1) as isize, w);
    }
}

proof fn lemma_extent_down_filled(board: Map<Coordinate, Tile>, legal: Seq<PlayEntry>, vertical: bool, fixed: isize, v: isize, w: isize)
    requires
        spec_extent_down(board, legal, vertical, fixed, v) <= w <= v,
        spec_filled(board, legal, spec_line_point(vertical, fixed, v)),
    ensures
        spec_filled(board, legal, spec_line_point(vertical, fixed, w)),
    decreases v + COORDINATE_LIMIT,
{
    if w < v {
        lemma_extent_down_filled(board, legal, vertical, fixed, (v - 1) as isize, w);
    }
}

fn play_position(legal: &Vec<PlayEntry>, c: Coordinate) -> (r: Option<usize>)
    ensures
        r is None <==> spec_play_position(legal@, c, 0) == -1,
        r is Some ==> r->0 == spec_play_position(legal@, c, 0) && r->0 < legal@.len() && legal@[r->0 as int].1 == c,
{
    let mut i: usize = 0;
    while i < legal.len()
        invariant
            i <= legal@.len(),
            spec_play_position(legal@, c, 0) == spec_play_position(legal@, c, i as int),
        decreases legal@.len() - i,
    {
        if same_coordinate(legal[i].1, c) {
            return Some(i);
        }
        i = i + 1;
    }
    None
}

fn filled(board: &Board, legal: &Vec<PlayEntry>, c: Coordinate) -> (r: bool)
    ensures
        r == spec_filled(board@, legal@, c),
{
    board.contains_key(&c) || play_position(legal, c).is_some()
}

fn line_point(vertical: bool, fixed: isize, v: isize) -> (r: Coordinate)
    ensures
        r == spec_line_point(vertical, fixed, v),
{
    if vertical {
        (fixed, v)
    } else {
        (v, fixed)
    }
}

/// The line of a row or column through `mid`, with the tiles of the plays and the board.
fn line_through(
    board: &Board,
    legal: &Vec<PlayEntry>,
    hand: &Vec<Tile>,
    vertical: bool,
    fixed: isize,
    mid: isize,
) -> (r: Vec<(Coordinate, Tile)>)
    requires
        -COORDINATE_LIMIT < mid < COORDINATE_LIMIT,
        forall|i: int| 0 <= i < legal@.len() ==> (#[trigger] legal@[i]).0 < hand@.len(),
        spec_filled(board@, legal@, spec_line_point(vertical, fixed, mid)),
    ensures
        r@ == spec_line_through(board@, legal@, hand@, vertical, fixed, mid),
        r@.len() < 2 * COORDINATE_LIMIT,
        forall|i: int, j: int| 0 <= i < r@.len() && 0 <= j < r@.len() && i != j ==> (#[trigger] r@[i]).0 != (#[trigger] r@[j]).0,
{
    let mut hi = mid;
    while hi + 1 < COORDINATE_LIMIT && filled(board, legal, line_point(vertical, fixed, hi + 1))
        invariant
                mid <= hi < COORDINATE_LIMIT,
            spec_extent_up(board@, legal@, vertical, fixed, mid) == spec_extent_up(board@, legal@, vertical, fixed, hi),
        decreases COORDINATE_LIMIT - hi,
    {
        hi = hi + 1;
    }
    let mut lo = mid;
    while lo - 1 > -COORDINATE_LIMIT && filled(board, legal, line_point(vertical, fixed, lo - 1))
        invariant
                -COORDINATE_LIMIT < lo <= mid,
            spec_extent_down(board@, legal@, vertical, fixed, mid) == spec_extent_down(board@, legal@, vertical, fixed, lo),
        decreases lo + COORDINATE_LIMIT,
    {
        lo = lo - 1;
    }
    let ghost target = spec_line_through(board@, legal@, hand@, vertical, fixed, mid);
    let mut r: Vec<(Coordinate, Tile)> = Vec::new();
    let mut w = lo;
    while w <= hi
        invariant
                -COORDINATE_LIMIT < lo <= mid <= hi < COORDINATE_LIMIT,
            lo <= w <= hi + 1,
            lo == spec_extent_down(board@, legal@, vertical, fixed, mid),
            hi == spec_extent_up(board@, legal@, vertical, fixed, mid),
            forall|i: int| 0 <= i < legal@.len() ==> (#[trigger] legal@[i]).0 < hand@.len(),
            target == spec_line_through(board@, legal@, hand@, vertical, fixed, mid),
            spec_filled(board@, legal@, spec_line_point(vertical, fixed, mid)),
            r@ == target.take(w - lo),
        decreases hi + 1 - w,
    {
        let c = line_point(vertical, fixed, w);
        let position = play_position(legal, c);
        let tile = if let Some(index) = position {
            let t = hand[legal[index].0];
            assert(t == hand@[legal@[index as int].0 as int]);
            assert(spec_cell(board@, legal@, hand@, c) == (c, t));
            t
        } else {
            proof {
                if w >= mid {
                    lemma_extent_up_filled(board@, legal@, vertical, fixed, mid, w);
                } else {
                    lemma_extent_down_filled(board@, legal@, vertical, fixed, mid, w);
                }
            }
            match board.get(&c) {
                Some(t) => {
                    assert(board@.contains_key(c) && board@[c] == *t);
                    assert(spec_cell(board@, legal@, hand@, c) == (c, *t));
                    *t
                },
                None => {
                    assert(false);
                    (crate::tile::Color::Red, crate::tile::Shape::Circle)
                },
            }
        };
        assert(target[w - lo] == spec_cell(board@, legal@, hand@, spec_line_point(vertical, fixed, (lo + (w - lo)) as isize)));
        assert(target[w - lo] == (c, tile));
        assert(target.take(w - lo + 1) == target.take(w - lo).push((c, tile)));
        r.push((c, tile));
        w = w + 1;
    }
    assert(target.take(hi - lo + 1) == target);
    r
}

/// The lines as sequences of pairs.
pub open spec fn spec_lines_view(lines: Seq<Vec<(Coordinate, Tile)>>) -> Seq<Seq<(Coordinate, Tile)>> {
    lines.map_values(|l: Vec<(Coordinate, Tile)>| l@)
}

/// Builds every line that a play makes: the main line through `mid`, then each crossing
/// line of more than one tile.
pub(crate) fn play_lines(
    board: &Board,
    legal: &Vec<PlayEntry>,
    hand: &Vec<Tile>,
    vertical: bool,
    fixed: isize,
    mid: isize,
) -> (r: Vec<Vec<(Coordinate, Tile)>>)
    requires
        -COORDINATE_LIMIT < mid < COORDINATE_LIMIT,
        forall|i: int| 0 <= i < legal@.len() ==> (#[trigger] legal@[i]).0 < hand@.len() && spec_in_bounds(legal@[i].1),
        spec_filled(board@, legal@, spec_line_point(vertical, fixed, mid)),
    ensures
        spec_lines_view(r@) == spec_play_lines(board@, legal@, hand@, vertical, fixed, mid),
        forall|i: int| 0 <= i < r@.len() ==> (#[trigger] r@[i])@.len() < 2 * COORDINATE_LIMIT
            && forall|a: int, b: int| 0 <= a < r@[i]@.len() && 0 <= b < r@[i]@.len() && a != b ==> (#[trigger] r@[i]@[a]).0 != (#[trigger] r@[i]@[b]).0,
        r@.len() <= legal@.len() + 1,
{
    let mut lines: Vec<Vec<(Coordinate, Tile)>> = Vec::new();
    lines.push(line_through(board, legal, hand, vertical, fixed, mid));
    let ghost first = spec_line_through(board@, legal@, hand@, vertical, fixed, mid);
    let mut k: usize = 0;
    while k < legal.len()
        invariant
            k <= legal@.len(),
            forall|i: int| 0 <= i < legal@.len() ==> (#[trigger] legal@[i]).0 < hand@.len() && spec_in_bounds(legal@[i].1),
            first == spec_line_through(board@, legal@, hand@, vertical, fixed, mid),
            spec_lines_view(lines@) == seq![first] + spec_cross_lines(board@, legal@, hand@, vertical, k as int),
            forall|i: int| 0 <= i < lines@.len() ==> (#[trigger] lines@[i])@.len() < 2 * COORDINATE_LIMIT
                && forall|a: int, b: int| 0 <= a < lines@[i]@.len() && 0 <= b < lines@[i]@.len() && a != b ==> (#[trigger] lines@[i]@[a]).0 != (#[trigger] lines@[i]@[b]).0,
            lines@.len() <= k + 1,
        decreases legal@.len() - k,
    {
        let e = legal[k];
        let mut single: Vec<PlayEntry> = Vec::new();
        single.push(e);
        assert(single@ == seq![e]);
        assert(spec_play_position(single@, e.1, 0) == 0);
        let cross = if vertical {
            line_through(board, &single, hand, false, e.1.1, e.1.0)
        } else {
            line_through(board, &single, hand, true, e.1.0, e.1.1)
        };
        let ghost before = lines@;
        if cross.len() > 1 {
            lines.push(cross);
            proof {
                assert(spec_lines_view(lines@) == spec_lines_view(before).push(cross@)) by {
                    assert(spec_lines_view(lines@) =~= spec_lines_view(before).push(cross@));
                }
                assert((seq![first] + spec_cross_lines(board@, legal@, hand@, vertical, k as int)).push(cross@)
                    =~= seq![first] + spec_cross_lines(board@, legal@, hand@, vertical, k + 1));
            }
        }
        k = k + 1;
    }
    lines
}

} // verus!
