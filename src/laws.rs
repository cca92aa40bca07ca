use crate::coordinate::Coordinate;
use crate::first_play::{
    spec_first_error_holds, spec_first_kind, spec_first_legal, spec_first_rejection, spec_reports_first, FirstPlayError,
};
use crate::next_play::{spec_next_play_is_legal, spec_next_rejection, spec_occupied, spec_reports_next};
use crate::play::{spec_in_bounds, spec_inside_limit, spec_is_possible_play, PlayEntry};
use crate::tile::Tile;
use vstd::prelude::*;

verus! {

broadcast use Seq::lemma_filter_push;

/// A play after the first turn that puts a tile inside the coordinate limit where the board
/// already holds one breaks a rule, and every rejection of it reports the occupied
/// coordinates.
pub proof fn law_occupied_coordinate_rejected(
    board: Map<Coordinate, Tile>,
    p: Seq<PlayEntry>,
    hand: Seq<Tile>,
    errors: Seq<crate::next_play::NextPlayError>,
    i: int,
)
    requires
        0 <= i < p.len(),
        board.contains_key(p[i].1),
        spec_in_bounds(p[i].1),
    ensures
        !spec_next_play_is_legal(board, p, hand),
        spec_next_rejection(errors, board, p, hand) ==> spec_reports_next(errors, 3),
{
    broadcast use Seq::lemma_filter_contains;
    let inside = spec_inside_limit(p);
    Seq::lemma_filter_contains(p, |e: PlayEntry| spec_in_bounds(e.1), i);
    assert(inside.contains(p[i]));
    let k = choose|k: int| 0 <= k < inside.len() && inside[k] == p[i];
    Seq::lemma_filter_contains(inside, |e: PlayEntry| board.contains_key(e.1), k);
    assert(spec_occupied(board, p).contains(p[i]));
    assert(spec_occupied(board, p).len() > 0);
}

/// A first play that names a tile outside the hand and also puts a tile outside the
/// coordinate limit is rejected with both faults reported in the same answer.
pub proof fn law_first_play_reports_every_fault(errors: Seq<FirstPlayError>, p: Seq<PlayEntry>, hand: Seq<Tile>, max_match: int)
    requires
        spec_first_rejection(errors, p, hand, max_match),
        exists|i: int| 0 <= i < p.len() && (#[trigger] p[i]).0 >= hand.len(),
        exists|i: int| 0 <= i < p.len() && !spec_in_bounds((#[trigger] p[i]).1),
    ensures
        spec_reports_first(errors, 1),
        spec_reports_first(errors, 2),
        errors.len() >= 2,
{
    broadcast use Seq::lemma_filter_contains;
    let a = choose|i: int| 0 <= i < p.len() && (#[trigger] p[i]).0 >= hand.len();
    let b = choose|i: int| 0 <= i < p.len() && !spec_in_bounds((#[trigger] p[i]).1);
    Seq::lemma_filter_contains(p, |e: PlayEntry| e.0 >= hand.len(), a);
    Seq::lemma_filter_contains(p, |e: PlayEntry| !spec_in_bounds(e.1), b);
    assert(crate::first_play::spec_out_of_hand(p, hand.len() as int).contains(p[a]));
    assert(crate::first_play::spec_out_of_bounds_plays(p).contains(p[b]));
    let i = choose|i: int| 0 <= i < errors.len() && spec_first_kind(#[trigger] errors[i]) == 1;
    let j = choose|j: int| 0 <= j < errors.len() && spec_first_kind(#[trigger] errors[j]) == 2;
    assert(i != j);
}

/// A first play whose legal plays are not as many as the most matching tiles of the hand, or
/// are that many but do not put down the tiles of an acceptable choice while the hand has one, is rejected, and
/// the rejection lists every acceptable choice of that many tiles.
pub proof fn law_max_match_enforced(errors: Seq<FirstPlayError>, p: Seq<PlayEntry>, hand: Seq<Tile>, max_match: int)
    requires
        spec_first_rejection(errors, p, hand, max_match),
        p.len() > 0,
        crate::first_play::spec_not_max_matching(spec_first_legal(p, hand.len() as int), hand, max_match),
    ensures
        exists|i: int| #![trigger errors[i]] 0 <= i < errors.len() && errors[i] is NotMaxMatching
            && forall|q: Seq<usize>| #[trigger] spec_is_possible_play(hand, max_match, q) ==> exists|j: int|
                0 <= j < errors[i]->max_matching_plays@.len() && errors[i]->max_matching_plays@[j]@ == q,
{
    let i = choose|i: int| 0 <= i < errors.len() && spec_first_kind(#[trigger] errors[i]) == 4;
    assert(spec_first_error_holds(errors[i], p, hand, max_match));
}

/// Two rejections of the same first play from the same state report the same kinds of
/// fault: the answer depends only on the state and the plays.
pub proof fn law_first_rejection_repeats(
    first: Seq<FirstPlayError>,
    second: Seq<FirstPlayError>,
    p: Seq<PlayEntry>,
    hand: Seq<Tile>,
    max_match: int,
)
    requires
        spec_first_rejection(first, p, hand, max_match),
        spec_first_rejection(second, p, hand, max_match),
    ensures
        forall|kind: int| spec_reports_first(first, kind) <==> #[trigger] spec_reports_first(second, kind),
{
    assert forall|kind: int| spec_reports_first(first, kind) <==> #[trigger] spec_reports_first(second, kind) by {
        if spec_reports_first(first, kind) {
            lemma_reported_kind_holds(first, second, p, hand, max_match, kind);
        }
        if spec_reports_first(second, kind) {
            lemma_reported_kind_holds(second, first, p, hand, max_match, kind);
        }
    }
}

proof fn lemma_reported_kind_holds(
    a: Seq<FirstPlayError>,
    b: Seq<FirstPlayError>,
    p: Seq<PlayEntry>,
    hand: Seq<Tile>,
    max_match: int,
    kind: int,
)
    requires
        spec_first_rejection(a, p, hand, max_match),
        spec_first_rejection(b, p, hand, max_match),
        spec_reports_first(a, kind),
    ensures
        spec_reports_first(b, kind),
{
    let i = choose|i: int| 0 <= i < a.len() && spec_first_kind(#[trigger] a[i]) == kind;
    assert(spec_first_error_holds(a[i], p, hand, max_match));
}

/// Two rejections of the same play after the first turn, from the same state, report the
/// same kinds of fault.
pub proof fn law_next_rejection_repeats(
    first: Seq<crate::next_play::NextPlayError>,
    second: Seq<crate::next_play::NextPlayError>,
    board: Map<Coordinate, Tile>,
    p: Seq<PlayEntry>,
    hand: Seq<Tile>,
)
    requires
        spec_next_rejection(first, board, p, hand),
        spec_next_rejection(second, board, p, hand),
    ensures
        forall|kind: int| spec_reports_next(first, kind) <==> #[trigger] spec_reports_next(second, kind),
{
    assert forall|kind: int| spec_reports_next(first, kind) <==> #[trigger] spec_reports_next(second, kind) by {
        if spec_reports_next(first, kind) {
            lemma_next_reported_kind_holds(first, second, board, p, hand, kind);
        }
        if spec_reports_next(second, kind) {
            lemma_next_reported_kind_holds(second, first, board, p, hand, kind);
        }
    }
}

proof fn lemma_next_reported_kind_holds(
    a: Seq<crate::next_play::NextPlayError>,
    b: Seq<crate::next_play::NextPlayError>,
    board: Map<Coordinate, Tile>,
    p: Seq<PlayEntry>,
    hand: Seq<Tile>,
    kind: int,
)
    requires
        spec_next_rejection(a, board, p, hand),
        spec_next_rejection(b, board, p, hand),
        spec_reports_next(a, kind),
    ensures
        spec_reports_next(b, kind),
{
    let i = choose|i: int| 0 <= i < a.len() && crate::next_play::spec_next_kind(#[trigger] a[i]) == kind;
    assert(crate::next_play::spec_next_error_holds(a[i], board, p, hand));
    let legal = crate::next_play::spec_next_legal(board, p, hand.len() as int);
    let lines = crate::next_play::spec_next_lines(board, legal, hand);
    if kind == 8 {
        let k = choose|k: int| 0 <= k < lines.len() && crate::line::spec_line_fails(#[trigger] lines[k])
            && !crate::line::spec_duplicate_groups(lines[k]).is_empty()
            && crate::line::spec_groups(a[i]->duplicates@) == crate::line::spec_duplicate_groups(lines[k]);
        assert(crate::next_play::spec_reports_duplicates(b, crate::line::spec_duplicate_groups(lines[k])));
        let j = choose|j: int| 0 <= j < b.len() && (#[trigger] b[j]) is Duplicates
            && crate::line::spec_groups(b[j]->duplicates@) == crate::line::spec_duplicate_groups(lines[k]);
        assert(crate::next_play::spec_next_kind(b[j]) == 8);
    } else if kind == 9 {
        let k = choose|k: int| 0 <= k < lines.len() && crate::line::spec_line_fails(#[trigger] lines[k])
            && !crate::line::spec_multiple_groups(lines[k]).is_empty()
            && crate::line::spec_groups(a[i]->multiple_matching@) == crate::line::spec_multiple_groups(lines[k]);
        assert(crate::next_play::spec_reports_multiple(b, crate::line::spec_multiple_groups(lines[k])));
        let j = choose|j: int| 0 <= j < b.len() && (#[trigger] b[j]) is MultipleMatching
            && crate::line::spec_groups(b[j]->multiple_matching@) == crate::line::spec_multiple_groups(lines[k]);
        assert(crate::next_play::spec_next_kind(b[j]) == 9);
    }
}

proof fn lemma_one_color_counts(s: crate::line::LineEntries, c: crate::tile::Color, k: int)
    requires
        0 <= k <= 6,
        forall|d: crate::tile::Color| crate::line::spec_color_survives(s, d) <==> d == c,
        forall|h: crate::tile::Shape| !crate::line::spec_shape_survives(s, h),
    ensures
        crate::line::spec_surviving_colors(s, k) == if c.spec_index() < k { 1int } else { 0int },
        crate::line::spec_surviving_shapes(s, k) == 0,
    decreases k,
{
    if k > 0 {
        lemma_one_color_counts(s, c, k - 1);
        let d = crate::tile::Color::spec_from_index(k - 1);
        assert(d.spec_index() == k - 1);
        assert((d == c) <==> (c.spec_index() == k - 1)) by {
            if c.spec_index() == k - 1 {
                assert(crate::tile::Color::spec_from_index(c.spec_index() as int) == c) by {
                    match c {
                        crate::tile::Color::Red => {},
                        crate::tile::Color::Orange => {},
                        crate::tile::Color::Yellow => {},
                        crate::tile::Color::Green => {},
                        crate::tile::Color::Blue => {},
                        crate::tile::Color::Purple => {},
                    }
                }
            }
        }
    }
}

/// A line of two or more tiles of one color and distinct shapes breaks no rule and is worth
/// its length, plus the full match bonus when it holds every shape.
pub proof fn law_one_color_line_points(s: crate::line::LineEntries, c: crate::tile::Color)
    requires
        s.len() >= 2,
        forall|i: int| 0 <= i < s.len() ==> (#[trigger] s[i]).1.0 == c,
        forall|i: int, j: int| 0 <= i < s.len() && 0 <= j < s.len() && i != j ==> (#[trigger] s[i]).1.1 != (#[trigger] s[j]).1.1,
    ensures
        !crate::line::spec_line_fails(s),
        crate::line::spec_line_points(s) == s.len() + if s.len() == crate::tile::Shape::SHAPES_LEN {
            crate::consts::FULL_MATCH_BONUS as int
        } else {
            0int
        },
{
    assert(s[0].1.1 != s[1].1.1);
    assert forall|d: crate::tile::Color| crate::line::spec_color_survives(s, d) <==> d == c by {
        if d == c {
            assert(crate::line::spec_has_color(s, c)) by {
                assert(s[0].1.0 == c);
            }
            assert forall|h: crate::tile::Shape| !(crate::line::spec_has_shape(s, h) && #[trigger] crate::line::spec_color_within_shape(s, c, h)) by {
                if crate::line::spec_color_within_shape(s, c, h) {
                    assert(s[0].1.0 == c && s[1].1.0 == c);
                    assert(s[0].1.1 == h && s[1].1.1 == h);
                }
            }
        } else {
            if crate::line::spec_has_color(s, d) {
                let i = choose|i: int| 0 <= i < s.len() && (#[trigger] s[i]).1.0 == d;
            }
        }
    }
    assert forall|h: crate::tile::Shape| !crate::line::spec_shape_survives(s, h) by {
        assert(crate::line::spec_shape_within_color(s, h, c));
    }
    lemma_one_color_counts(s, c, 6);
    assert(c.spec_index() < 6) by {
        match c {
            crate::tile::Color::Red => {},
            crate::tile::Color::Orange => {},
            crate::tile::Color::Yellow => {},
            crate::tile::Color::Green => {},
            crate::tile::Color::Blue => {},
            crate::tile::Color::Purple => {},
        }
    }
    assert forall|t: Tile| !crate::line::spec_is_duplicated(s, t) by {
        if crate::line::spec_is_duplicated(s, t) {
            let (i, j) = choose|i: int, j: int| 0 <= i < s.len() && 0 <= j < s.len() && i != j && (#[trigger] s[i]).1 == t && (#[trigger] s[j]).1 == t;
        }
    }
}

/// A play after the first turn that names a tile outside the hand and also puts a tile on an
/// occupied coordinate inside the limit is rejected with both faults in the same answer.
pub proof fn law_next_play_reports_every_fault(
    errors: Seq<crate::next_play::NextPlayError>,
    board: Map<Coordinate, Tile>,
    p: Seq<PlayEntry>,
    hand: Seq<Tile>,
    a: int,
    b: int,
)
    requires
        spec_next_rejection(errors, board, p, hand),
        0 <= a < p.len(),
        p[a].0 >= hand.len(),
        0 <= b < p.len(),
        board.contains_key(p[b].1),
        spec_in_bounds(p[b].1),
    ensures
        spec_reports_next(errors, 1),
        spec_reports_next(errors, 3),
        errors.len() >= 2,
{
    Seq::lemma_filter_contains(p, |e: PlayEntry| e.0 >= hand.len(), a);
    assert(crate::play::spec_from_index(p, hand.len() as int).contains(p[a]));
    law_occupied_coordinate_rejected(board, p, hand, errors, b);
    let i = choose|i: int| 0 <= i < errors.len() && crate::next_play::spec_next_kind(#[trigger] errors[i]) == 1;
    let j = choose|j: int| 0 <= j < errors.len() && crate::next_play::spec_next_kind(#[trigger] errors[j]) == 3;
    assert(i != j);
}

proof fn lemma_one_shape_counts(s: crate::line::LineEntries, h: crate::tile::Shape, k: int)
    requires
        0 <= k <= 6,
        forall|c: crate::tile::Color| !crate::line::spec_color_survives(s, c),
        forall|g: crate::tile::Shape| crate::line::spec_shape_survives(s, g) <==> g == h,
    ensures
        crate::line::spec_surviving_shapes(s, k) == if h.spec_index() < k { 1int } else { 0int },
        crate::line::spec_surviving_colors(s, k) == 0,
    decreases k,
{
    if k > 0 {
        lemma_one_shape_counts(s, h, k - 1);
        let g = crate::tile::Shape::spec_from_index(k - 1);
        assert(g.spec_index() == k - 1);
        assert((g == h) <==> (h.spec_index() == k - 1)) by {
            if h.spec_index() == k - 1 {
                assert(crate::tile::Shape::spec_from_index(h.spec_index() as int) == h) by {
                    match h {
                        crate::tile::Shape::Circle => {},
                        crate::tile::Shape::Clover => {},
                        crate::tile::Shape::Diamond => {},
                        crate::tile::Shape::Square => {},
                        crate::tile::Shape::Starburst => {},
                        crate::tile::Shape::X => {},
                    }
                }
            }
        }
    }
}

/// A line of two or more tiles of one shape and distinct colors breaks no rule and is worth
/// its length, plus the full match bonus when it holds every color.
pub proof fn law_one_shape_line_points(s: crate::line::LineEntries, h: crate::tile::Shape)
    requires
        s.len() >= 2,
        forall|i: int| 0 <= i < s.len() ==> (#[trigger] s[i]).1.1 == h,
        forall|i: int, j: int| 0 <= i < s.len() && 0 <= j < s.len() && i != j ==> (#[trigger] s[i]).1.0 != (#[trigger] s[j]).1.0,
    ensures
        !crate::line::spec_line_fails(s),
        crate::line::spec_line_points(s) == s.len() + if s.len() == crate::tile::Color::COLORS_LEN {
            crate::consts::FULL_MATCH_BONUS as int
        } else {
            0int
        },
{
    assert(s[0].1.0 != s[1].1.0);
    assert forall|c: crate::tile::Color| !crate::line::spec_color_survives(s, c) by {
        if crate::line::spec_has_color(s, c) {
            assert(crate::line::spec_has_shape(s, h)) by {
                assert(s[0].1.1 == h);
            }
            assert(crate::line::spec_color_within_shape(s, c, h));
        }
    }
    assert forall|g: crate::tile::Shape| crate::line::spec_shape_survives(s, g) <==> g == h by {
        if g == h {
            assert(crate::line::spec_has_shape(s, h)) by {
                assert(s[0].1.1 == h);
            }
        } else {
            if crate::line::spec_has_shape(s, g) {
                let i = choose|i: int| 0 <= i < s.len() && (#[trigger] s[i]).1.1 == g;
            }
        }
    }
    lemma_one_shape_counts(s, h, 6);
    assert(h.spec_index() < 6) by {
        match h {
            crate::tile::Shape::Circle => {},
            crate::tile::Shape::Clover => {},
            crate::tile::Shape::Diamond => {},
            crate::tile::Shape::Square => {},
            crate::tile::Shape::Starburst => {},
            crate::tile::Shape::X => {},
        }
    }
    assert forall|t: Tile| !crate::line::spec_is_duplicated(s, t) by {
        if crate::line::spec_is_duplicated(s, t) {
            let (i, j) = choose|i: int, j: int| 0 <= i < s.len() && 0 <= j < s.len() && i != j && (#[trigger] s[i]).1 == t && (#[trigger] s[j]).1 == t;
        }
    }
}

} // verus!
