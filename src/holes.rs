use crate::consts::{COORDINATE_LIMIT, HOLES_LIMIT};
use crate::coordinate::{same_coordinate, Coordinate};
use crate::play::{
    batch_continuous_decreasing_range, batch_continuous_increasing_range,
    spec_decreasing_run_end, spec_increasing_run_end, PlayEntry,
};
use crate::tile::Tile;
use crate::types::Board;
use std::collections::BTreeSet;
use vstd::prelude::*;

verus! {

broadcast use Seq::lemma_filter_push;

/// The maximal runs, as (first, last), of values of `s` that rise by one at a time, read from
/// position `i` on, where the run under way began at position `start`.
pub open spec fn spec_increasing_runs(s: Seq<isize>, i: int, start: int) -> Set<(isize, isize)>
    decreases s.len() - i,
{
    if i < 0 || i >= s.len() {
        Set::empty()
    } else if i + 1 < s.len() && s[i + 1] == s[i] + 1 {
        spec_increasing_runs(s, i + 1, start)
    } else {
        spec_increasing_runs(s, i + 1, i + 1).insert((s[start], s[i]))
    }
}

/// The maximal runs, as (smallest, largest), of values of `s` that fall by one at a time,
/// read from position `i` on, where the run under way began at position `start`.
pub open spec fn spec_decreasing_runs(s: Seq<isize>, i: int, start: int) -> Set<(isize, isize)>
    decreases s.len() - i,
{
    if i < 0 || i >= s.len() {
        Set::empty()
    } else if i + 1 < s.len() && s[i + 1] == s[i] - 1 {
        spec_decreasing_runs(s, i + 1, start)
    } else {
        spec_decreasing_runs(s, i + 1, i + 1).insert((s[i], s[start]))
    }
}

/// The point of a row (`vertical` false) or column (`vertical` true) at `fixed` whose varying
/// component is `v`.
pub open spec fn spec_line_point(vertical: bool, fixed: isize, v: isize) -> Coordinate {
    if vertical {
        (fixed, v)
    } else {
        (v, fixed)
    }
}

/// Whether `c` holds a tile on the board or is the coordinate of one of `plays`.
pub open spec fn spec_occupied(board: Map<Coordinate, Tile>, plays: Seq<PlayEntry>, c: Coordinate) -> bool {
    board.contains_key(c) || exists|i: int| 0 <= i < plays.len() && (#[trigger] plays[i]).1 == c
}

/// Number of integers strictly after `a` up to `b`.
pub open spec fn spec_span(a: isize, b: isize) -> nat {
    if b > a {
        (b - a) as nat
    } else {
        0
    }
}

/// At most `limit` elements of `s`, from the front.
pub open spec fn spec_at_most(s: Seq<isize>, limit: int) -> Seq<isize> {
    if s.len() <= limit {
        s
    } else {
        s.take(limit)
    }
}

/// Whether the point at `v` of the line is free.
pub open spec fn spec_free_on_line(
    board: Map<Coordinate, Tile>,
    plays: Seq<PlayEntry>,
    vertical: bool,
    fixed: isize,
) -> spec_fn(isize) -> bool {
    |v: isize| !spec_occupied(board, plays, spec_line_point(vertical, fixed, v))
}

/// The free points of the line after `mid` up to `max`, nearest first, at most `limit`.
pub open spec fn spec_free_above(
    board: Map<Coordinate, Tile>,
    plays: Seq<PlayEntry>,
    vertical: bool,
    fixed: isize,
    mid: isize,
    max: isize,
    limit: int,
) -> Seq<isize> {
    spec_at_most(
        Seq::new(spec_span(mid, max), |i: int| (mid + 1 + i) as isize).filter(
            spec_free_on_line(board, plays, vertical, fixed),
        ),
        limit,
    )
}

/// The free points of the line before `mid` down to `min`, nearest first, at most `limit`.
pub open spec fn spec_free_below(
    board: Map<Coordinate, Tile>,
    plays: Seq<PlayEntry>,
    vertical: bool,
    fixed: isize,
    mid: isize,
    min: isize,
    limit: int,
) -> Seq<isize> {
    spec_at_most(
        Seq::new(spec_span(min, mid), |i: int| (mid - 1 - i) as isize).filter(
            spec_free_on_line(board, plays, vertical, fixed),
        ),
        limit,
    )
}

/// Number of free points reported at most after the point nearest the origin.
pub open spec fn spec_holes_above_limit() -> int {
    (HOLES_LIMIT as int + 1) / 2
}

/// Number of free points reported at most before the point nearest the origin.
pub open spec fn spec_holes_below_limit() -> int {
    HOLES_LIMIT as int - (HOLES_LIMIT as int + 1) / 2
}

/// A run of a line as a pair of coordinates.
pub open spec fn spec_hole(vertical: bool, fixed: isize, run: (isize, isize)) -> (Coordinate, Coordinate) {
    (spec_line_point(vertical, fixed, run.0), spec_line_point(vertical, fixed, run.1))
}

/// The holes of a row or column between `min` and `max`: the runs of free points, scanned
/// outward from `mid` in both directions, each direction capped at its half of the limit.
pub open spec fn spec_holes(
    board: Map<Coordinate, Tile>,
    plays: Seq<PlayEntry>,
    vertical: bool,
    fixed: isize,
    mid: isize,
    min: isize,
    max: isize,
) -> Set<(Coordinate, Coordinate)> {
    let above = spec_free_above(board, plays, vertical, fixed, mid, max, spec_holes_above_limit());
    let below = spec_free_below(board, plays, vertical, fixed, mid, min, spec_holes_below_limit());
    spec_increasing_runs(above, 0, 0).map(|run: (isize, isize)| spec_hole(vertical, fixed, run))
        + spec_decreasing_runs(below, 0, 0).map(
        |run: (isize, isize)| spec_hole(vertical, fixed, run),
    )
}

proof fn lemma_map_insert<A, B>(s: Set<A>, x: A, f: spec_fn(A) -> B)
    ensures
        s.insert(x).map(f) == s.map(f).insert(f(x)),
{
    assert forall|y: B| #[trigger] s.insert(x).map(f).contains(y) <==> s.map(f).insert(
        f(x),
    ).contains(y) by {
        if s.insert(x).map(f).contains(y) {
            let w = choose|w: A| s.insert(x).contains(w) && f(w) == y;
            if w != x {
                assert(s.map(f).contains(f(w)));
            }
        }
        if s.map(f).contains(y) {
            let w = choose|w: A| s.contains(w) && f(w) == y;
            assert(s.insert(x).contains(w));
        }
        if y == f(x) {
            assert(s.insert(x).contains(x));
        }
    }
    assert(s.insert(x).map(f) =~= s.map(f).insert(f(x)));
}

proof fn lemma_increasing_runs_step(s: Seq<isize>, p: int, i: int)
    requires
        0 <= p <= i < s.len(),
        spec_increasing_run_end(s, p) == spec_increasing_run_end(s, i),
    ensures
        spec_increasing_runs(s, i, p) == spec_increasing_runs(
            s,
            spec_increasing_run_end(s, p) + 1,
            spec_increasing_run_end(s, p) + 1,
        ).insert((s[p], s[spec_increasing_run_end(s, p)])),
    decreases s.len() - i,
{
    if i + 1 < s.len() && s[i + 1] == s[i] + 1 {
        lemma_increasing_runs_step(s, p, i + 1);
    }
}

proof fn lemma_decreasing_runs_step(s: Seq<isize>, p: int, i: int)
    requires
        0 <= p <= i < s.len(),
        spec_decreasing_run_end(s, p) == spec_decreasing_run_end(s, i),
    ensures
        spec_decreasing_runs(s, i, p) == spec_decreasing_runs(
            s,
            spec_decreasing_run_end(s, p) + 1,
            spec_decreasing_run_end(s, p) + 1,
        ).insert((s[spec_decreasing_run_end(s, p)], s[p])),
    decreases s.len() - i,
{
    if i + 1 < s.len() && s[i + 1] == s[i] - 1 {
        lemma_decreasing_runs_step(s, p, i + 1);
    }
}

/// Whether one of `plays` is at `c`.
pub(crate) fn plays_hold_coordinate(plays: &Vec<PlayEntry>, c: Coordinate) -> (r: bool)
    ensures
        r == exists|i: int| 0 <= i < plays@.len() && (#[trigger] plays@[i]).1 == c,
{
    let mut k: usize = 0;
    while k < plays.len()
        invariant
            k <= plays@.len(),
            forall|i: int| 0 <= i < k ==> (#[trigger] plays@[i]).1 != c,
        decreases plays@.len() - k,
    {
        if same_coordinate(plays[k].1, c) {
            return true;
        }
        k = k + 1;
    }
    false
}

fn line_point(vertical: bool, fixed: isize, v: isize) -> (r: Coordinate)
    ensures
        r == spec_line_point(vertical, fixed, v),
{
    if vertical {
        (fixed, v)
    } else {
        (v, fixed)
    }
}

proof fn lemma_prefix_filter_at_most(s: Seq<isize>, k: int, keep: spec_fn(isize) -> bool, limit: int)
    requires
        0 <= k <= s.len(),
        0 <= limit,
        s.take(k).filter(keep).len() <= limit,
        k == s.len() || s.take(k).filter(keep).len() == limit,
    ensures
        s.take(k).filter(keep) == spec_at_most(s.filter(keep), limit),
{
    if k < s.len() {
        assert(s == s.take(k) + s.skip(k));
        Seq::filter_distributes_over_add(s.take(k), s.skip(k), keep);
        assert(s.filter(keep).take(limit) =~= s.take(k).filter(keep));
    } else {
        assert(s.take(k) == s);
    }
}

/// The free points of the line after `mid` up to `max`, nearest first, at most `limit`.
fn free_above(
    board: &Board,
    plays: &Vec<PlayEntry>,
    vertical: bool,
    fixed: isize,
    mid: isize,
    max: isize,
    limit: usize,
) -> (r: Vec<isize>)
    requires
        -COORDINATE_LIMIT < mid < COORDINATE_LIMIT,
        -COORDINATE_LIMIT < max < COORDINATE_LIMIT,
    ensures
        r@ == spec_free_above(board@, plays@, vertical, fixed, mid, max, limit as int),
{
    let ghost candidates = Seq::new(spec_span(mid, max), |i: int| (mid + 1 + i) as isize);
    let ghost keep = spec_free_on_line(board@, plays@, vertical, fixed);
    let mut r: Vec<isize> = Vec::new();
    let mut v: isize = mid + 1;
    while v <= max && r.len() < limit
        invariant
            -COORDINATE_LIMIT < mid < COORDINATE_LIMIT,
            -COORDINATE_LIMIT < max < COORDINATE_LIMIT,
            mid + 1 <= v,
            v <= max + 1 || v == mid + 1,
            candidates == Seq::new(spec_span(mid, max), |i: int| (mid + 1 + i) as isize),
            keep == spec_free_on_line(board@, plays@, vertical, fixed),
            r@ == candidates.take(if v <= max + 1 { v - mid - 1 } else { 0 }).filter(keep),
            r@.len() <= limit,
        decreases max + 1 - v,
    {
        let ghost k = v - mid - 1;
        assert(candidates.take(k + 1) == candidates.take(k).push(v));
        let c = line_point(vertical, fixed, v);
        let free = !(board.contains_key(&c) || plays_hold_coordinate(plays, c));
        if free {
            r.push(v);
        }
        v = v + 1;
    }
    proof {
        let k = if v <= max + 1 { v - mid - 1 } else { 0 };
        if max < mid + 1 {
            assert(candidates.len() == 0);
            assert(candidates.take(k) =~= candidates);
        }
        lemma_prefix_filter_at_most(candidates, k, keep, limit as int);
    }
    r
}

/// The free points of the line before `mid` down to `min`, nearest first, at most `limit`.
fn free_below(
    board: &Board,
    plays: &Vec<PlayEntry>,
    vertical: bool,
    fixed: isize,
    mid: isize,
    min: isize,
    limit: usize,
) -> (r: Vec<isize>)
    requires
        -COORDINATE_LIMIT < mid < COORDINATE_LIMIT,
        -COORDINATE_LIMIT < min < COORDINATE_LIMIT,
    ensures
        r@ == spec_free_below(board@, plays@, vertical, fixed, mid, min, limit as int),
{
    let ghost candidates = Seq::new(spec_span(min, mid), |i: int| (mid - 1 - i) as isize);
    let ghost keep = spec_free_on_line(board@, plays@, vertical, fixed);
    let mut r: Vec<isize> = Vec::new();
    let mut v: isize = mid - 1;
    while v >= min && r.len() < limit
        invariant
            -COORDINATE_LIMIT < mid < COORDINATE_LIMIT,
            -COORDINATE_LIMIT < min < COORDINATE_LIMIT,
            v <= mid - 1,
            v >= min - 1 || v == mid - 1,
            candidates == Seq::new(spec_span(min, mid), |i: int| (mid - 1 - i) as isize),
            keep == spec_free_on_line(board@, plays@, vertical, fixed),
            r@ == candidates.take(if v >= min - 1 { mid - 1 - v } else { 0 }).filter(keep),
            r@.len() <= limit,
        decreases v - min + 1,
    {
        let ghost k = mid - 1 - v;
        assert(candidates.take(k + 1) == candidates.take(k).push(v));
        let c = line_point(vertical, fixed, v);
        let free = !(board.contains_key(&c) || plays_hold_coordinate(plays, c));
        if free {
            r.push(v);
        }
        v = v - 1;
    }
    proof {
        let k = if v >= min - 1 { mid - 1 - v } else { 0 };
        if min > mid - 1 {
            assert(candidates.len() == 0);
            assert(candidates.take(k) =~= candidates);
        }
        lemma_prefix_filter_at_most(candidates, k, keep, limit as int);
    }
    r
}

/// Finds the holes of a row or column: the runs of free points between `min` and `max`,
/// scanned outward from `mid`, at most half of the holes limit in each direction.
pub(crate) fn find_holes_on_line(
    board: &Board,
    plays: &Vec<PlayEntry>,
    vertical: bool,
    fixed: isize,
    mid: isize,
    min: isize,
    max: isize,
) -> (r: BTreeSet<(Coordinate, Coordinate)>)
    requires
        -COORDINATE_LIMIT < mid < COORDINATE_LIMIT,
        -COORDINATE_LIMIT < min < COORDINATE_LIMIT,
        -COORDINATE_LIMIT < max < COORDINATE_LIMIT,
    ensures
        r@ == spec_holes(board@, plays@, vertical, fixed, mid, min, max),
{
    let above = free_above(board, plays, vertical, fixed, mid, max, (HOLES_LIMIT + 1) / 2);
    let below = free_below(
        board,
        plays,
        vertical,
        fixed,
        mid,
        min,
        HOLES_LIMIT - (HOLES_LIMIT + 1) / 2,
    );
    let ghost to_hole = |run: (isize, isize)| spec_hole(vertical, fixed, run);
    let ghost up = spec_increasing_runs(above@, 0, 0).map(to_hole);
    let ghost down = spec_decreasing_runs(below@, 0, 0).map(to_hole);
    let mut holes: BTreeSet<(Coordinate, Coordinate)> = BTreeSet::new();
    let mut position: usize = 0;
    loop
        invariant
            position <= above@.len(),
            holes@ + spec_increasing_runs(above@, position as int, position as int).map(to_hole)
                == up,
            up == spec_increasing_runs(above@, 0, 0).map(to_hole),
            to_hole == (|run: (isize, isize)| spec_hole(vertical, fixed, run)),
        ensures
            holes@ == up,
        decreases above@.len() - position,
    {
        let ghost before = position;
        match batch_continuous_increasing_range(&above, &mut position) {
            None => {
                assert(spec_increasing_runs(above@, position as int, position as int) =~= Set::empty());
                assert(holes@ =~= up);
                break;
            },
            Some((first, last)) => {
                proof {
                    crate::play::lemma_run_end_bounds(above@, before as int);
                    lemma_increasing_runs_step(above@, before as int, before as int);
                    let rest = spec_increasing_runs(above@, position as int, position as int);
                    let hole = spec_hole(vertical, fixed, (first, last));
                    lemma_map_insert(rest, (first, last), to_hole);
                    assert(holes@.insert(hole) + rest.map(to_hole) =~= holes@ + rest.map(to_hole).insert(hole));
                }
                holes.insert((line_point(vertical, fixed, first), line_point(vertical, fixed, last)));
            },
        }
    }
    position = 0;
    assert(holes@ + spec_decreasing_runs(below@, 0, 0).map(to_hole) == up + down);
    loop
        invariant
            position <= below@.len(),
            holes@ + spec_decreasing_runs(below@, position as int, position as int).map(to_hole)
                == up + down,
            down == spec_decreasing_runs(below@, 0, 0).map(to_hole),
            up == spec_increasing_runs(above@, 0, 0).map(to_hole),
            to_hole == (|run: (isize, isize)| spec_hole(vertical, fixed, run)),
        ensures
            holes@ == up + down,
        decreases below@.len() - position,
    {
        let ghost before = position;
        match batch_continuous_decreasing_range(&below, &mut position) {
            None => {
                assert(spec_decreasing_runs(below@, position as int, position as int) =~= Set::empty());
                assert(holes@ =~= up + down);
                break;
            },
            Some((first, last)) => {
                proof {
                    crate::play::lemma_run_end_bounds(below@, before as int);
                    lemma_decreasing_runs_step(below@, before as int, before as int);
                    let rest = spec_decreasing_runs(below@, position as int, position as int);
                    let hole = spec_hole(vertical, fixed, (first, last));
                    lemma_map_insert(rest, (first, last), to_hole);
                    assert(holes@.insert(hole) + rest.map(to_hole) =~= holes@ + rest.map(to_hole).insert(hole));
                }
                holes.insert((line_point(vertical, fixed, first), line_point(vertical, fixed, last)));
            },
        }
    }
    holes
}

} // verus!
