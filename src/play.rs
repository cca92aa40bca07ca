use crate::consts::COORDINATE_LIMIT;
use crate::coordinate::Coordinate;
use crate::tile::{same_tile, Tile};
use crate::types::{entries_of, is_plays_seq, plays_entries, plays_from, Board, Plays};
use itertools::Itertools;
use std::collections::BTreeSet;
use vstd::prelude::*;

verus! {

broadcast use Seq::lemma_filter_push;

/// The plays whose index is below `n`.
pub open spec fn spec_below_index(p: Seq<PlayEntry>, n: int) -> Seq<PlayEntry> {
    p.filter(|e: PlayEntry| e.0 < n)
}

/// The plays whose index is at least `n`.
pub open spec fn spec_from_index(p: Seq<PlayEntry>, n: int) -> Seq<PlayEntry> {
    p.filter(|e: PlayEntry| e.0 >= n)
}

/// The plays whose coordinate lies inside the coordinate limit.
pub open spec fn spec_inside_limit(p: Seq<PlayEntry>) -> Seq<PlayEntry> {
    p.filter(|e: PlayEntry| spec_in_bounds(e.1))
}

/// The plays whose coordinate lies on or beyond the coordinate limit.
pub open spec fn spec_outside_limit(p: Seq<PlayEntry>) -> Seq<PlayEntry> {
    p.filter(|e: PlayEntry| !spec_in_bounds(e.1))
}

/// One pair of a bimap of plays: an index into the current hand and a coordinate.
pub type PlayEntry = (usize, Coordinate);

/// Whether both components of `c` lie strictly between `-COORDINATE_LIMIT` and
/// `COORDINATE_LIMIT`.
pub open spec fn spec_in_bounds(c: Coordinate) -> bool {
    -COORDINATE_LIMIT < c.0 < COORDINATE_LIMIT && -COORDINATE_LIMIT < c.1 < COORDINATE_LIMIT
}

/// Keeping some pairs of a valid sequence of plays gives a valid sequence of plays.
pub proof fn lemma_filter_plays_seq(s: Seq<PlayEntry>, keep: spec_fn(PlayEntry) -> bool)
    requires
        is_plays_seq(s),
    ensures
        is_plays_seq(s.filter(keep)),
        forall|i: int| 0 <= i < s.filter(keep).len() ==> s.contains(#[trigger] s.filter(keep)[i]),
    decreases s.len(),
{
    broadcast use Seq::lemma_filter_contains_rev;

    if s.len() > 0 {
        let init = s.drop_last();
        assert(is_plays_seq(init));
        lemma_filter_plays_seq(init, keep);
        assert(s == init.push(s.last()));
        let f = init.filter(keep);
        assert forall|i: int| 0 <= i < f.len() implies (#[trigger] f[i]).0 < s.last().0 && f[i].1
            != s.last().1 by {
            assert(init.contains(f[i]));
            let j = choose|j: int| 0 <= j < init.len() && init[j] == f[i];
            assert(s[j] == init[j]);
        }
        assert forall|i: int| 0 <= i < s.filter(keep).len() implies s.contains(
            #[trigger] s.filter(keep)[i],
        ) by {
            if i < f.len() {
                assert(init.contains(f[i]));
                let j = choose|j: int| 0 <= j < init.len() && init[j] == f[i];
                assert(s[j] == init[j]);
            } else {
                assert(s[s.len() - 1] == s.last());
            }
        }
    } else {
        assert(s.filter(keep) =~= Seq::<PlayEntry>::empty()) by {
            reveal(Seq::filter);
        }
    }
}

/// Splits plays into those whose coordinate is in bounds and the others, keeping order.
pub(crate) fn split_by_bounds(entries: &Vec<PlayEntry>) -> (r: (Vec<PlayEntry>, Vec<PlayEntry>))
    ensures
        r.0@ == spec_inside_limit(entries@),
        r.1@ == spec_outside_limit(entries@),
{
    let mut inside: Vec<PlayEntry> = Vec::new();
    let mut outside: Vec<PlayEntry> = Vec::new();
    let mut k: usize = 0;
    while k < entries.len()
        invariant
            k <= entries@.len(),
            inside@ == spec_inside_limit(entries@.take(k as int)),
            outside@ == spec_outside_limit(entries@.take(k as int)),
        decreases entries@.len() - k,
    {
        let e = entries[k];
        assert(entries@.take(k + 1) == entries@.take(k as int).push(e));
        let (x, y) = e.1;
        if -COORDINATE_LIMIT < x && x < COORDINATE_LIMIT && -COORDINATE_LIMIT < y && y
            < COORDINATE_LIMIT {
            inside.push(e);
        } else {
            outside.push(e);
        }
        k = k + 1;
    }
    assert(entries@.take(entries@.len() as int) == entries@);
    (inside, outside)
}

/// Splits plays into those whose index is below `n` and the others, keeping order.
pub(crate) fn split_by_index(entries: &Vec<PlayEntry>, n: usize) -> (r: (Vec<PlayEntry>, Vec<PlayEntry>))
    ensures
        r.0@ == spec_below_index(entries@, n as int),
        r.1@ == spec_from_index(entries@, n as int),
{
    let mut inside: Vec<PlayEntry> = Vec::new();
    let mut outside: Vec<PlayEntry> = Vec::new();
    let mut k: usize = 0;
    while k < entries.len()
        invariant
            k <= entries@.len(),
            inside@ == spec_below_index(entries@.take(k as int), n as int),
            outside@ == spec_from_index(entries@.take(k as int), n as int),
        decreases entries@.len() - k,
    {
        let e = entries[k];
        assert(entries@.take(k + 1) == entries@.take(k as int).push(e));
        if e.0 < n {
            inside.push(e);
        } else {
            outside.push(e);
        }
        k = k + 1;
    }
    assert(entries@.take(entries@.len() as int) == entries@);
    (inside, outside)
}

/// The coordinates of plays, in order.
pub(crate) fn coordinates_of(entries: &Vec<PlayEntry>) -> (r: Vec<Coordinate>)
    ensures
        r@ == spec_coordinates(entries@),
{
    let mut r: Vec<Coordinate> = Vec::new();
    let mut k: usize = 0;
    while k < entries.len()
        invariant
            k <= entries@.len(),
            r@ == spec_coordinates(entries@.take(k as int)),
        decreases entries@.len() - k,
    {
        assert(entries@.take(k + 1) == entries@.take(k as int).push(entries@[k as int]));
        r.push(entries[k].1);
        k = k + 1;
    }
    assert(entries@.take(entries@.len() as int) == entries@);
    r
}

/// The coordinates of plays, in order.
pub open spec fn spec_coordinates(entries: Seq<PlayEntry>) -> Seq<Coordinate> {
    entries.map_values(|e: PlayEntry| e.1)
}

/// The line that plays form from the tiles of `hand`: each coordinate with its tile.
pub open spec fn spec_played_line(entries: Seq<PlayEntry>, hand: Seq<Tile>) -> Seq<(Coordinate, Tile)> {
    entries.map_values(|e: PlayEntry| (e.1, hand[e.0 as int]))
}

/// The line that plays form from the tiles of `hand`: each coordinate with its tile.
pub(crate) fn played_line(entries: &Vec<PlayEntry>, hand: &Vec<Tile>) -> (r: Vec<(Coordinate, Tile)>)
    requires
        forall|i: int| 0 <= i < entries@.len() ==> (#[trigger] entries@[i]).0 < hand@.len(),
    ensures
        r@ == spec_played_line(entries@, hand@),
{
    let mut r: Vec<(Coordinate, Tile)> = Vec::new();
    let mut k: usize = 0;
    while k < entries.len()
        invariant
            k <= entries@.len(),
            forall|i: int| 0 <= i < entries@.len() ==> (#[trigger] entries@[i]).0 < hand@.len(),
            r@ == spec_played_line(entries@.take(k as int), hand@),
        decreases entries@.len() - k,
    {
        assert(entries@.take(k + 1) == entries@.take(k as int).push(entries@[k as int]));
        let (index, coordinate) = entries[k];
        r.push((coordinate, hand[index]));
        k = k + 1;
    }
    assert(entries@.take(entries@.len() as int) == entries@);
    r
}

/// When no play has an index of `n` or more, all of them are below `n`.
pub proof fn lemma_all_below_index(p: Seq<PlayEntry>, n: int)
    requires
        spec_from_index(p, n).len() == 0,
    ensures
        spec_below_index(p, n) == p,
    decreases p.len(),
{
    if p.len() > 0 {
        let init = p.drop_last();
        assert(p == init.push(p.last()));
        Seq::lemma_filter_len_push(init, |e: PlayEntry| e.0 >= n, p.last());
        lemma_filter_len_zero(init, |e: PlayEntry| e.0 >= n, p.last(), p);
        lemma_all_below_index(init, n);
    } else {
        reveal(Seq::filter);
        assert(spec_below_index(p, n) =~= p);
    }
}

/// When no play lies outside the coordinate limit, all of them lie inside.
pub proof fn lemma_all_inside_limit(p: Seq<PlayEntry>)
    requires
        spec_outside_limit(p).len() == 0,
    ensures
        spec_inside_limit(p) == p,
    decreases p.len(),
{
    if p.len() > 0 {
        let init = p.drop_last();
        assert(p == init.push(p.last()));
        Seq::lemma_filter_len_push(init, |e: PlayEntry| !spec_in_bounds(e.1), p.last());
        lemma_filter_len_zero(init, |e: PlayEntry| !spec_in_bounds(e.1), p.last(), p);
        lemma_all_inside_limit(init);
    } else {
        reveal(Seq::filter);
        assert(spec_inside_limit(p) =~= p);
    }
}

proof fn lemma_filter_len_zero(init: Seq<PlayEntry>, keep: spec_fn(PlayEntry) -> bool, last: PlayEntry, p: Seq<PlayEntry>)
    requires
        p == init.push(last),
        p.filter(keep).len() == 0,
    ensures
        init.filter(keep).len() == 0,
        !keep(last),
{
    Seq::lemma_filter_len_push(init, keep, last);
}

/// Partitions plays into those whose coordinate lies inside the coordinate limit and those
/// on or outside it.
pub fn partition_by_coordinates(plays: &Plays) -> (r: (Plays, Plays))
    ensures
        plays_entries(r.0) == spec_inside_limit(plays_entries(*plays)),
        plays_entries(r.1) == spec_outside_limit(plays_entries(*plays)),
{
    let entries = entries_of(plays);
    let (inside, outside) = split_by_bounds(&entries);
    proof {
        lemma_filter_plays_seq(entries@, |e: PlayEntry| spec_in_bounds(e.1));
        lemma_filter_plays_seq(entries@, |e: PlayEntry| !spec_in_bounds(e.1));
    }
    (plays_from(inside), plays_from(outside))
}


/// Index of the last value of the run of values that rise by one at a time starting at
/// position `i` of `s`.
pub open spec fn spec_increasing_run_end(s: Seq<isize>, i: int) -> int
    decreases s.len() - i,
{
    if 0 <= i && i + 1 < s.len() && s[i + 1] == s[i] + 1 {
        spec_increasing_run_end(s, i + 1)
    } else {
        i
    }
}

/// Index of the last value of the run of values that fall by one at a time starting at
/// position `i` of `s`.
pub open spec fn spec_decreasing_run_end(s: Seq<isize>, i: int) -> int
    decreases s.len() - i,
{
    if 0 <= i && i + 1 < s.len() && s[i + 1] == s[i] - 1 {
        spec_decreasing_run_end(s, i + 1)
    } else {
        i
    }
}

/// The runs that the batch functions take end inside the sequence.
pub(crate) proof fn lemma_run_end_bounds(s: Seq<isize>, i: int)
    requires
        0 <= i < s.len(),
    ensures
        i <= spec_increasing_run_end(s, i) < s.len(),
        i <= spec_decreasing_run_end(s, i) < s.len(),
{
    lemma_increasing_run_end(s, i);
    lemma_decreasing_run_end(s, i);
}

proof fn lemma_increasing_run_end(s: Seq<isize>, i: int)
    requires
        0 <= i < s.len(),
    ensures
        i <= spec_increasing_run_end(s, i) < s.len(),
    decreases s.len() - i,
{
    if i + 1 < s.len() && s[i + 1] == s[i] + 1 {
        lemma_increasing_run_end(s, i + 1);
    }
}

proof fn lemma_decreasing_run_end(s: Seq<isize>, i: int)
    requires
        0 <= i < s.len(),
    ensures
        i <= spec_decreasing_run_end(s, i) < s.len(),
    decreases s.len() - i,
{
    if i + 1 < s.len() && s[i + 1] == s[i] - 1 {
        lemma_decreasing_run_end(s, i + 1);
    }
}

/// Takes the run of values rising by one at a time that starts at `*position` of `values`,
/// moves `*position` past it, and returns its first and last value. [None] when no value
/// is left.
pub fn batch_continuous_increasing_range(values: &Vec<isize>, position: &mut usize) -> (r: Option<
    (isize, isize),
>)
    ensures
        *old(position) >= values@.len() ==> r is None && *final(position) == *old(position),
        *old(position) < values@.len() ==> {
            let end = spec_increasing_run_end(values@, *old(position) as int);
            &&& r == Some((values@[*old(position) as int], values@[end]))
            &&& *final(position) == end + 1
        },
{
    if *position >= values.len() {
        return None;
    }
    let start = *position;
    proof {
        lemma_increasing_run_end(values@, start as int);
    }
    let first = values[start];
    let mut last_index = start;
    while last_index < values.len() - 1 && values[last_index] < isize::MAX && values[last_index
        + 1] == values[last_index] + 1
        invariant
            start <= last_index < values@.len(),
            spec_increasing_run_end(values@, start as int) == spec_increasing_run_end(
                values@,
                last_index as int,
            ),
        decreases values@.len() - last_index,
    {
        last_index = last_index + 1;
    }
    *position = last_index + 1;
    Some((first, values[last_index]))
}

/// Takes the run of values falling by one at a time that starts at `*position` of `values`,
/// moves `*position` past it, and returns its last and first value, smallest first. [None]
/// when no value is left.
pub fn batch_continuous_decreasing_range(values: &Vec<isize>, position: &mut usize) -> (r: Option<
    (isize, isize),
>)
    ensures
        *old(position) >= values@.len() ==> r is None && *final(position) == *old(position),
        *old(position) < values@.len() ==> {
            let end = spec_decreasing_run_end(values@, *old(position) as int);
            &&& r == Some((values@[end], values@[*old(position) as int]))
            &&& *final(position) == end + 1
        },
{
    if *position >= values.len() {
        return None;
    }
    let start = *position;
    proof {
        lemma_decreasing_run_end(values@, start as int);
    }
    let first = values[start];
    let mut last_index = start;
    while last_index < values.len() - 1 && values[last_index] > isize::MIN && values[last_index
        + 1] == values[last_index] - 1
        invariant
            start <= last_index < values@.len(),
            spec_decreasing_run_end(values@, start as int) == spec_decreasing_run_end(
                values@,
                last_index as int,
            ),
        decreases values@.len() - last_index,
    {
        last_index = last_index + 1;
    }
    *position = last_index + 1;
    Some((values[last_index], first))
}

/// A tile of a hand together with its index there.
pub type IndexedTile = (usize, Tile);

/// The tiles of the first `n` places of `hand` with their indexes, each tile at its first
/// place only.
pub open spec fn spec_first_copies(hand: Seq<Tile>, n: int) -> Seq<IndexedTile>
    decreases n,
{
    if n <= 0 {
        Seq::empty()
    } else if exists|j: int| 0 <= j < n - 1 && #[trigger] hand[j] == hand[n - 1] {
        spec_first_copies(hand, n - 1)
    } else {
        spec_first_copies(hand, n - 1).push(((n - 1) as usize, hand[n - 1]))
    }
}

/// Whether `c` takes `k` elements of `s` at strictly increasing positions, in order.
pub open spec fn spec_is_combination<T>(c: Seq<T>, s: Seq<T>, k: int) -> bool {
    c.len() == k && exists|positions: Seq<int>|
        positions.len() == k && (forall|m: int, n: int|
            0 <= m < n < k ==> #[trigger] positions[m] < #[trigger] positions[n]) && (forall|m: int|
            0 <= m < k ==> 0 <= #[trigger] positions[m] < s.len() && c[m] == s[positions[m]])
}

/// Whether the tiles of `c` all share a color or all share a shape.
pub open spec fn spec_is_matching(c: Seq<IndexedTile>) -> bool {
    c.len() == 0 || (forall|i: int| 0 <= i < c.len() ==> (#[trigger] c[i]).1.0 == c[0].1.0)
        || (forall|i: int| 0 <= i < c.len() ==> (#[trigger] c[i]).1.1 == c[0].1.1)
}

/// The indexes of a combination of tiles.
pub open spec fn spec_indexes(c: Seq<IndexedTile>) -> Seq<usize> {
    c.map_values(|e: IndexedTile| e.0)
}

/// Whether `p` is the indexes of a matching combination of `k` distinct tiles of `hand`.
pub open spec fn spec_is_possible_play(hand: Seq<Tile>, k: int, p: Seq<usize>) -> bool {
    exists|c: Seq<IndexedTile>|
        spec_is_combination(c, spec_first_copies(hand, hand.len() as int), k) && spec_is_matching(c)
            && p == #[trigger] spec_indexes(c)
}

/// Whether index list `a` comes strictly before `b` in lexicographic order.
pub open spec fn spec_index_lex_less(a: Seq<usize>, b: Seq<usize>) -> bool
    decreases a.len(),
{
    if a.len() == 0 {
        b.len() > 0
    } else if b.len() == 0 {
        false
    } else if a[0] != b[0] {
        a[0] < b[0]
    } else {
        spec_index_lex_less(a.drop_first(), b.drop_first())
    }
}

/// Relies on `Itertools::combinations`: it yields every choice of `k` elements at strictly
/// increasing positions, each choice of positions once, in lexicographic order of the
/// positions, and nothing else; so with distinct elements no two choices are equal, and when
/// the elements' indexes rise with their positions the choices' index lists rise
/// lexicographically.
#[verifier::external_body]
fn combinations_of(items: Vec<IndexedTile>, k: usize) -> (r: Vec<Vec<IndexedTile>>)
    ensures
        forall|i: int| 0 <= i < r@.len() ==> spec_is_combination((#[trigger] r@[i])@, items@, k as int),
        forall|c: Seq<IndexedTile>| #[trigger] spec_is_combination(c, items@, k as int) ==> exists|i: int|
            0 <= i < r@.len() && r@[i]@ == c,
        items@.no_duplicates() ==> forall|i: int, j: int| 0 <= i < j < r@.len() ==> (#[trigger] r@[i])@ != (#[trigger] r@[j])@,
        (forall|a: int, b: int| 0 <= a < b < items@.len() ==> (#[trigger] items@[a]).0 < (#[trigger] items@[b]).0)
            ==> forall|i: int, j: int| 0 <= i < j < r@.len() ==> spec_index_lex_less(
            spec_indexes((#[trigger] r@[i])@),
            spec_indexes((#[trigger] r@[j])@),
        ),
{
    items.into_iter().combinations(k).collect()
}

pub(crate) fn first_copies(hand: &Vec<Tile>) -> (r: Vec<IndexedTile>)
    ensures
        r@ == spec_first_copies(hand@, hand@.len() as int),
{
    let mut r: Vec<IndexedTile> = Vec::new();
    let mut n: usize = 0;
    while n < hand.len()
        invariant
            n <= hand@.len(),
            r@ == spec_first_copies(hand@, n as int),
        decreases hand@.len() - n,
    {
        let t = hand[n];
        let mut seen = false;
        let mut j: usize = 0;
        while j < n
            invariant
                j <= n < hand@.len(),
                t == hand@[n as int],
                seen == exists|i: int| 0 <= i < j && #[trigger] hand@[i] == t,
            decreases n - j,
        {
            if same_tile(hand[j], t) {
                seen = true;
            }
            j = j + 1;
        }
        if !seen {
            r.push((n, t));
        }
        n = n + 1;
    }
    r
}

fn is_matching(c: &Vec<IndexedTile>) -> (r: bool)
    ensures
        r == spec_is_matching(c@),
{
    if c.len() == 0 {
        return true;
    }
    let (color, shape) = c[0].1;
    let mut same_color = true;
    let mut same_shape = true;
    let mut i: usize = 0;
    while i < c.len()
        invariant
            0 < c@.len(),
            i <= c@.len(),
            color == c@[0].1.0,
            shape == c@[0].1.1,
            same_color == forall|m: int| 0 <= m < i ==> (#[trigger] c@[m]).1.0 == color,
            same_shape == forall|m: int| 0 <= m < i ==> (#[trigger] c@[m]).1.1 == shape,
        decreases c@.len() - i,
    {
        if c[i].1.0 != color {
            same_color = false;
        }
        if c[i].1.1 != shape {
            same_shape = false;
        }
        i = i + 1;
    }
    same_color || same_shape
}

fn indexes_of(c: &Vec<IndexedTile>) -> (r: Vec<usize>)
    ensures
        r@ == spec_indexes(c@),
{
    let mut r: Vec<usize> = Vec::new();
    let mut i: usize = 0;
    while i < c.len()
        invariant
            i <= c@.len(),
            r@ == spec_indexes(c@.take(i as int)),
        decreases c@.len() - i,
    {
        assert(c@.take(i + 1) == c@.take(i as int).push(c@[i as int]));
        r.push(c[i].0);
        i = i + 1;
    }
    assert(c@.take(c@.len() as int) == c@);
    r
}

proof fn lemma_first_copies_pairs(hand: Seq<Tile>, n: int)
    requires
        0 <= n <= hand.len() <= usize::MAX,
    ensures
        forall|i: int| 0 <= i < spec_first_copies(hand, n).len() ==> (#[trigger] spec_first_copies(hand, n)[i]).0 < n
            && spec_first_copies(hand, n)[i].1 == hand[spec_first_copies(hand, n)[i].0 as int],
        forall|i: int, j: int| 0 <= i < j < spec_first_copies(hand, n).len() ==> (#[trigger] spec_first_copies(hand, n)[i]).0
            < (#[trigger] spec_first_copies(hand, n)[j]).0,
    decreases n,
{
    if n > 0 {
        lemma_first_copies_pairs(hand, n - 1);
        let prev = spec_first_copies(hand, n - 1);
        let cur = spec_first_copies(hand, n);
        if cur != prev {
            assert(cur == prev.push(((n - 1) as usize, hand[n - 1])));
            assert forall|i: int| 0 <= i < cur.len() implies (#[trigger] cur[i]).0 < n && cur[i].1 == hand[cur[i].0 as int] by {
                if i < prev.len() {
                    assert(cur[i] == prev[i]);
                } else {
                    assert(cur[i] == ((n - 1) as usize, hand[n - 1]));
                    assert(((n - 1) as usize) as int == n - 1);
                }
            }
            assert forall|i: int, j: int| 0 <= i < j < cur.len() implies (#[trigger] cur[i]).0 < (#[trigger] cur[j]).0 by {
                assert(cur[i] == prev[i]);
                if j < prev.len() {
                    assert(cur[j] == prev[j]);
                }
            }
        }
    }
}

proof fn lemma_combination_by_indexes(hand: Seq<Tile>, s: Seq<IndexedTile>, k: int, a: Seq<IndexedTile>, b: Seq<IndexedTile>)
    requires
        forall|i: int| 0 <= i < s.len() ==> (#[trigger] s[i]).1 == hand[s[i].0 as int],
        spec_is_combination(a, s, k),
        spec_is_combination(b, s, k),
        spec_indexes(a) == spec_indexes(b),
    ensures
        a == b,
{
    let pa = choose|positions: Seq<int>| positions.len() == k && (forall|m: int, n: int|
        0 <= m < n < k ==> #[trigger] positions[m] < #[trigger] positions[n]) && (forall|m: int|
        0 <= m < k ==> 0 <= #[trigger] positions[m] < s.len() && a[m] == s[positions[m]]);
    let pb = choose|positions: Seq<int>| positions.len() == k && (forall|m: int, n: int|
        0 <= m < n < k ==> #[trigger] positions[m] < #[trigger] positions[n]) && (forall|m: int|
        0 <= m < k ==> 0 <= #[trigger] positions[m] < s.len() && b[m] == s[positions[m]]);
    assert forall|m: int| 0 <= m < k implies a[m] == b[m] by {
        assert(0 <= pa[m] < s.len() && a[m] == s[pa[m]]);
        assert(0 <= pb[m] < s.len() && b[m] == s[pb[m]]);
        assert(s[pa[m]].1 == hand[s[pa[m]].0 as int]);
        assert(s[pb[m]].1 == hand[s[pb[m]].0 as int]);
        assert(spec_indexes(a)[m] == a[m].0);
        assert(spec_indexes(b)[m] == b[m].0);
    }
    assert(a =~= b);
}

/// The indexes of an acceptable choice of tiles name tiles of the hand.
pub proof fn lemma_possible_play_in_hand(hand: Seq<Tile>, k: int, q: Seq<usize>)
    requires
        spec_is_possible_play(hand, k, q),
        hand.len() <= usize::MAX,
    ensures
        forall|j: int| 0 <= j < q.len() ==> (#[trigger] q[j]) < hand.len(),
{
    let s = spec_first_copies(hand, hand.len() as int);
    lemma_first_copies_pairs(hand, hand.len() as int);
    let c = choose|c: Seq<IndexedTile>|
        spec_is_combination(c, s, k) && spec_is_matching(c) && q == #[trigger] spec_indexes(c);
    let pos = choose|positions: Seq<int>| positions.len() == k && (forall|m: int, n: int|
        0 <= m < n < k ==> #[trigger] positions[m] < #[trigger] positions[n]) && (forall|m: int|
        0 <= m < k ==> 0 <= #[trigger] positions[m] < s.len() && c[m] == s[positions[m]]);
    assert forall|j: int| 0 <= j < q.len() implies (#[trigger] q[j]) < hand.len() by {
        assert(q[j] == c[j].0);
        assert(0 <= pos[j] < s.len() && c[j] == s[pos[j]]);
        assert(s[pos[j]].0 < hand.len());
    }
}

/// Finds every choice of `k` tiles of `hand`, no tile value twice (the first copy of each
/// counts), whose tiles all share a color or all share a shape, as their indexes in `hand`.
pub fn possible_plays(hand: &Vec<Tile>, k: usize) -> (r: Vec<Vec<usize>>)
    ensures
        forall|i: int| 0 <= i < r@.len() ==> spec_is_possible_play(hand@, k as int, (#[trigger] r@[i])@),
        forall|p: Seq<usize>| #[trigger] spec_is_possible_play(hand@, k as int, p) ==> exists|i: int|
            0 <= i < r@.len() && r@[i]@ == p,
        forall|i: int, j: int| 0 <= i < j < r@.len() ==> (#[trigger] r@[i])@ != (#[trigger] r@[j])@,
        forall|i: int, j: int| 0 <= i < j < r@.len() ==> spec_index_lex_less((#[trigger] r@[i])@, (#[trigger] r@[j])@),
{
    let items = first_copies(hand);
    let ghost s = items@;
    let hand_len = hand.len();
    proof {
        lemma_first_copies_pairs(hand@, hand_len as int);
        assert(s.no_duplicates()) by {
            assert forall|i: int, j: int| 0 <= i < s.len() && 0 <= j < s.len() && i != j implies s[i] != s[j] by {
                if i < j {
                    assert(s[i].0 < s[j].0);
                } else {
                    assert(s[j].0 < s[i].0);
                }
            }
        }
    }
    let combinations = combinations_of(items, k);
    let ghost mut from: Seq<int> = Seq::empty();
    let mut r: Vec<Vec<usize>> = Vec::new();
    let mut i: usize = 0;
    while i < combinations.len()
        invariant
            i <= combinations@.len(),
            s == spec_first_copies(hand@, hand@.len() as int),
            forall|j: int| 0 <= j < combinations@.len() ==> spec_is_combination((#[trigger] combinations@[j])@, s, k as int),
            forall|m: int| 0 <= m < r@.len() ==> spec_is_possible_play(hand@, k as int, (#[trigger] r@[m])@),
            forall|j: int| 0 <= j < i && spec_is_matching((#[trigger] combinations@[j])@) ==> exists|m: int|
                0 <= m < r@.len() && r@[m]@ == spec_indexes(combinations@[j]@),
            forall|a: int, b: int| 0 <= a < b < combinations@.len() ==> (#[trigger] combinations@[a])@ != (#[trigger] combinations@[b])@,
            forall|x: int| 0 <= x < s.len() ==> (#[trigger] s[x]).1 == hand@[s[x].0 as int],
            from.len() == r@.len(),
            forall|m: int| 0 <= m < from.len() ==> 0 <= #[trigger] from[m] < i && r@[m]@ == spec_indexes(combinations@[from[m]]@),
            forall|m: int, n: int| 0 <= m < n < from.len() ==> #[trigger] from[m] < #[trigger] from[n],
            forall|m: int, n: int| 0 <= m < n < r@.len() ==> (#[trigger] r@[m])@ != (#[trigger] r@[n])@,
            forall|a: int, b: int| 0 <= a < b < combinations@.len() ==> spec_index_lex_less(
                spec_indexes((#[trigger] combinations@[a])@),
                spec_indexes((#[trigger] combinations@[b])@),
            ),
            forall|m: int, n: int| 0 <= m < n < r@.len() ==> spec_index_lex_less((#[trigger] r@[m])@, (#[trigger] r@[n])@),
        decreases combinations@.len() - i,
    {
        let c = &combinations[i];
        let ghost before = r@;
        let ghost before_from = from;
        if is_matching(c) {
            let p = indexes_of(c);
            proof {
                assert(spec_is_possible_play(hand@, k as int, p@));
            }
            r.push(p);
            proof {
                from = from.push(i as int);
                assert(r@[r@.len() - 1]@ == spec_indexes(combinations@[i as int]@));
                assert forall|m: int, n: int| 0 <= m < n < r@.len() implies spec_index_lex_less((#[trigger] r@[m])@, (#[trigger] r@[n])@) by {
                    if n == r@.len() - 1 {
                        assert(before_from[m] < i);
                        assert(r@[m]@ == spec_indexes(combinations@[before_from[m]]@));
                    } else {
                        assert(r@[m] == before[m] && r@[n] == before[n]);
                    }
                }
                assert forall|m: int, n: int| 0 <= m < n < r@.len() implies (#[trigger] r@[m])@ != (#[trigger] r@[n])@ by {
                    if n == r@.len() - 1 {
                        if r@[m]@ == r@[n]@ {
                            assert(before_from[m] < i);
                            lemma_combination_by_indexes(hand@, s, k as int, combinations@[before_from[m]]@, combinations@[i as int]@);
                        }
                    } else {
                        assert(r@[m] == before[m] && r@[n] == before[n]);
                    }
                }
            }
        }
        proof {
            assert forall|j: int| 0 <= j < i + 1 && spec_is_matching((#[trigger] combinations@[j])@) implies exists|m: int|
                0 <= m < r@.len() && r@[m]@ == spec_indexes(combinations@[j]@) by {
                if j < i {
                    let m = choose|m: int| 0 <= m < before.len() && before[m]@ == spec_indexes(combinations@[j]@);
                    assert(r@[m] == before[m]);
                } else {
                    assert(r@[r@.len() - 1]@ == spec_indexes(combinations@[i as int]@));
                }
            }
        }
        i = i + 1;
    }
    proof {
        assert forall|p: Seq<usize>| #[trigger] spec_is_possible_play(hand@, k as int, p) implies exists|m: int|
            0 <= m < r@.len() && r@[m]@ == p by {
            let c = choose|c: Seq<IndexedTile>|
                spec_is_combination(c, s, k as int) && spec_is_matching(c) && p == #[trigger] spec_indexes(c);
            let j = choose|j: int| 0 <= j < combinations@.len() && combinations@[j]@ == c;
            assert(spec_is_matching(combinations@[j]@));
        }
    }
    r
}

} // verus!
