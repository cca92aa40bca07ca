use crate::consts::FULL_MATCH_BONUS;
use crate::coordinate::{same_coordinate, Coordinate};
use crate::tile::{spec_tile_at, tiles, Color, Shape, Tile};
use crate::types::{board_entries, spec_distinct_coordinates, spec_lists_board, Board};
use vstd::prelude::*;

verus! {

/// Groups of coordinates, each group listed in the order of the line it was taken from.
pub type Groups = Vec<Vec<Coordinate>>;

/// A line as pairs of a coordinate and the tile there.
pub type LineEntries = Seq<(Coordinate, Tile)>;

/// The groups of a list of groups, each as a set.
pub open spec fn spec_groups(v: Seq<Vec<Coordinate>>) -> Set<Set<Coordinate>> {
    Set::new(|g: Set<Coordinate>| exists|i: int| 0 <= i < v.len() && g == (#[trigger] v[i])@.to_set())
}

/// Whether some tile of the line has color `c`.
pub open spec fn spec_has_color(s: LineEntries, c: Color) -> bool {
    exists|i: int| 0 <= i < s.len() && (#[trigger] s[i]).1.0 == c
}

/// Whether some tile of the line has shape `h`.
pub open spec fn spec_has_shape(s: LineEntries, h: Shape) -> bool {
    exists|i: int| 0 <= i < s.len() && (#[trigger] s[i]).1.1 == h
}

/// The coordinates of the tiles of color `c`.
pub open spec fn spec_color_group(s: LineEntries, c: Color) -> Set<Coordinate> {
    Set::new(|p: Coordinate| exists|i: int| 0 <= i < s.len() && (#[trigger] s[i]).0 == p && s[i].1.0 == c)
}

/// The coordinates of the tiles of shape `h`.
pub open spec fn spec_shape_group(s: LineEntries, h: Shape) -> Set<Coordinate> {
    Set::new(|p: Coordinate| exists|i: int| 0 <= i < s.len() && (#[trigger] s[i]).0 == p && s[i].1.1 == h)
}

/// The coordinates of the copies of tile `t`.
pub open spec fn spec_tile_group(s: LineEntries, t: Tile) -> Set<Coordinate> {
    Set::new(|p: Coordinate| exists|i: int| 0 <= i < s.len() && (#[trigger] s[i]).0 == p && s[i].1 == t)
}

/// Whether tile `t` occurs at two places of the line.
pub open spec fn spec_is_duplicated(s: LineEntries, t: Tile) -> bool {
    exists|i: int, j: int|
        0 <= i < s.len() && 0 <= j < s.len() && i != j && (#[trigger] s[i]).1 == t && (#[trigger] s[j]).1 == t
}

/// Whether every tile of color `c` has shape `h`: the group of the color lies inside the
/// group of the shape.
pub open spec fn spec_color_within_shape(s: LineEntries, c: Color, h: Shape) -> bool {
    forall|i: int| 0 <= i < s.len() && (#[trigger] s[i]).1.0 == c ==> s[i].1.1 == h
}

/// Whether every tile of shape `h` has color `c`: the group of the shape lies inside the
/// group of the color.
pub open spec fn spec_shape_within_color(s: LineEntries, h: Shape, c: Color) -> bool {
    forall|i: int| 0 <= i < s.len() && (#[trigger] s[i]).1.1 == h ==> s[i].1.0 == c
}

/// Whether color `c` forms a matching group of its own: it occurs, and its group does not
/// lie inside the group of a shape.
pub open spec fn spec_color_survives(s: LineEntries, c: Color) -> bool {
    spec_has_color(s, c) && !exists|h: Shape| spec_has_shape(s, h) && #[trigger] spec_color_within_shape(s, c, h)
}

/// Whether shape `h` forms a matching group of its own: it occurs, and its group does not
/// lie inside the group of a color that forms a group of its own.
pub open spec fn spec_shape_survives(s: LineEntries, h: Shape) -> bool {
    spec_has_shape(s, h) && !exists|c: Color| spec_color_survives(s, c) && #[trigger] spec_shape_within_color(s, h, c)
}

/// Number of the first `k` colors that form a matching group of their own.
pub open spec fn spec_surviving_colors(s: LineEntries, k: int) -> int
    decreases k,
{
    if k <= 0 {
        0
    } else {
        spec_surviving_colors(s, k - 1) + if spec_color_survives(s, Color::spec_from_index(k - 1)) {
            1int
        } else {
            0int
        }
    }
}

/// Number of the first `k` shapes that form a matching group of their own.
pub open spec fn spec_surviving_shapes(s: LineEntries, k: int) -> int
    decreases k,
{
    if k <= 0 {
        0
    } else {
        spec_surviving_shapes(s, k - 1) + if spec_shape_survives(s, Shape::spec_from_index(k - 1)) {
            1int
        } else {
            0int
        }
    }
}

/// Number of matching groups of the line.
pub open spec fn spec_matching_count(s: LineEntries) -> int {
    spec_surviving_colors(s, 6) + spec_surviving_shapes(s, 6)
}

/// The groups of copies of a tile that occurs more than once.
pub open spec fn spec_duplicate_groups(s: LineEntries) -> Set<Set<Coordinate>> {
    Set::new(|g: Set<Coordinate>| exists|t: Tile| spec_is_duplicated(s, t) && g == #[trigger] spec_tile_group(s, t))
}

/// The matching groups, when there are more than one; otherwise none.
pub open spec fn spec_multiple_groups(s: LineEntries) -> Set<Set<Coordinate>> {
    if spec_matching_count(s) > 1 {
        Set::new(|g: Set<Coordinate>| exists|c: Color| spec_color_survives(s, c) && g == #[trigger] spec_color_group(s, c))
            + Set::new(|g: Set<Coordinate>| exists|h: Shape| spec_shape_survives(s, h) && g == #[trigger] spec_shape_group(s, h))
    } else {
        Set::empty()
    }
}

/// Whether the line breaks a rule: a tile twice, or more than one matching group.
pub open spec fn spec_line_fails(s: LineEntries) -> bool {
    spec_matching_count(s) > 1 || exists|t: Tile| #[trigger] spec_is_duplicated(s, t)
}

/// Points of a legal line: its length, plus the bonus when it holds every color or every
/// shape.
pub open spec fn spec_line_points(s: LineEntries) -> int {
    let is_color_line = spec_surviving_shapes(s, 6) > 0;
    if (is_color_line && s.len() == Color::COLORS_LEN) || s.len() == Shape::SHAPES_LEN {
        s.len() + FULL_MATCH_BONUS
    } else {
        s.len() as int
    }
}

proof fn lemma_color_index(c: Color)
    ensures
        c.spec_index() < 6,
        Color::spec_from_index(c.spec_index() as int) == c,
{
}

proof fn lemma_shape_index(h: Shape)
    ensures
        h.spec_index() < 6,
        Shape::spec_from_index(h.spec_index() as int) == h,
{
}

pub(crate) proof fn lemma_tile_index(t: Tile)
    ensures
        spec_tile_at((t.0.spec_index() * 6 + t.1.spec_index()) as int) == t,
{
    let i = t.0.spec_index() * 6 + t.1.spec_index();
    assert(i / 6 == t.0.spec_index() && i % 6 == t.1.spec_index() as int) by (nonlinear_arith)
        requires i == t.0.spec_index() * 6 + t.1.spec_index(), t.1.spec_index() < 6;
}

/// Whether the pair `e` has the color of `t` (when `by_color`) and the shape of `t` (when
/// `by_shape`).
pub open spec fn spec_selected(e: (Coordinate, Tile), by_color: bool, by_shape: bool, t: Tile) -> bool {
    (!by_color || e.1.0 == t.0) && (!by_shape || e.1.1 == t.1)
}

/// The coordinates of the pairs of `line` that have the color of `t` (when `by_color`) and
/// the shape of `t` (when `by_shape`), in order.
fn select_coordinates(line: &Vec<(Coordinate, Tile)>, by_color: bool, by_shape: bool, t: Tile) -> (r: Vec<Coordinate>)
    ensures
        forall|p: Coordinate|
            r@.contains(p) <==> exists|i: int|
                0 <= i < line@.len() && (#[trigger] line@[i]).0 == p && spec_selected(line@[i], by_color, by_shape, t),
        spec_distinct_coordinates(line@) ==> r@.no_duplicates(),
        (r@.len() > 1) <==> exists|i: int, j: int|
            0 <= i < line@.len() && 0 <= j < line@.len() && i != j
                && #[trigger] spec_selected(line@[i], by_color, by_shape, t)
                && #[trigger] spec_selected(line@[j], by_color, by_shape, t),
{
    let mut r: Vec<Coordinate> = Vec::new();
    let ghost mut picked: Seq<int> = Seq::empty();
    let mut k: usize = 0;
    while k < line.len()
        invariant
            k <= line@.len(),
            picked.len() == r@.len(),
            forall|m: int| 0 <= m < picked.len() ==> 0 <= #[trigger] picked[m] < k,
            forall|m: int, n: int| 0 <= m < n < picked.len() ==> #[trigger] picked[m] < #[trigger] picked[n],
            forall|m: int| 0 <= m < picked.len() ==> line@[#[trigger] picked[m]].0 == r@[m],
            forall|m: int| 0 <= m < picked.len() ==> spec_selected(line@[#[trigger] picked[m]], by_color, by_shape, t),
            forall|i: int| 0 <= i < k && #[trigger] spec_selected(line@[i], by_color, by_shape, t)
                ==> exists|m: int| 0 <= m < picked.len() && picked[m] == i,
        decreases line@.len() - k,
    {
        let (p, u) = line[k];
        let color_ok = !by_color || u.0 == t.0;
        let shape_ok = !by_shape || u.1 == t.1;
        let ghost old_picked = picked;
        if color_ok && shape_ok {
            r.push(p);
            proof {
                picked = picked.push(k as int);
                assert(picked[picked.len() - 1] == k);
            }
        }
        proof {
            assert forall|i: int| 0 <= i < k + 1 && #[trigger] spec_selected(line@[i], by_color, by_shape, t)
                implies exists|m: int| 0 <= m < picked.len() && picked[m] == i by {
                if i < k {
                    let m = choose|m: int| 0 <= m < old_picked.len() && old_picked[m] == i;
                    assert(picked[m] == i);
                } else {
                    assert(picked[picked.len() - 1] == k);
                }
            }
        }
        k = k + 1;
    }
    proof {
        assert forall|p: Coordinate| r@.contains(p) <==> exists|i: int|
                0 <= i < line@.len() && (#[trigger] line@[i]).0 == p && spec_selected(line@[i], by_color, by_shape, t) by {
            if r@.contains(p) {
                let m = choose|m: int| 0 <= m < r@.len() && r@[m] == p;
                assert(line@[picked[m]].0 == p);
                assert(spec_selected(line@[picked[m]], by_color, by_shape, t));
            }
            if exists|i: int| 0 <= i < line@.len() && (#[trigger] line@[i]).0 == p && spec_selected(line@[i], by_color, by_shape, t) {
                let i = choose|i: int| 0 <= i < line@.len() && (#[trigger] line@[i]).0 == p && spec_selected(line@[i], by_color, by_shape, t);
                let m = choose|m: int| 0 <= m < picked.len() && picked[m] == i;
                assert(r@[m] == p);
            }
        }
        if spec_distinct_coordinates(line@) {
            assert forall|m: int, n: int| 0 <= m < r@.len() && 0 <= n < r@.len() && m != n implies r@[m] != r@[n] by {
                if m < n {
                    assert(picked[m] < picked[n]);
                } else {
                    assert(picked[n] < picked[m]);
                }
                assert(line@[picked[m]].0 == r@[m]);
                assert(line@[picked[n]].0 == r@[n]);
            }
        }
        if r@.len() > 1 {
            assert(picked[0] < picked[1]);
            assert(spec_selected(line@[picked[0]], by_color, by_shape, t));
            assert(spec_selected(line@[picked[1]], by_color, by_shape, t));
        }
        if exists|i: int, j: int|
            0 <= i < line@.len() && 0 <= j < line@.len() && i != j
                && #[trigger] spec_selected(line@[i], by_color, by_shape, t)
                && #[trigger] spec_selected(line@[j], by_color, by_shape, t) {
            let (i, j) = choose|i: int, j: int|
                0 <= i < line@.len() && 0 <= j < line@.len() && i != j
                    && #[trigger] spec_selected(line@[i], by_color, by_shape, t)
                    && #[trigger] spec_selected(line@[j], by_color, by_shape, t);
            let m = choose|m: int| 0 <= m < picked.len() && picked[m] == i;
            let n = choose|n: int| 0 <= n < picked.len() && picked[n] == j;
            assert(m != n);
        }
    }
    r
}

fn has_color(line: &Vec<(Coordinate, Tile)>, c: Color) -> (r: bool)
    ensures
        r == spec_has_color(line@, c),
{
    let mut k: usize = 0;
    while k < line.len()
        invariant
            k <= line@.len(),
            forall|i: int| 0 <= i < k ==> (#[trigger] line@[i]).1.0 != c,
        decreases line@.len() - k,
    {
        if line[k].1.0 == c {
            return true;
        }
        k = k + 1;
    }
    false
}

fn has_shape(line: &Vec<(Coordinate, Tile)>, h: Shape) -> (r: bool)
    ensures
        r == spec_has_shape(line@, h),
{
    let mut k: usize = 0;
    while k < line.len()
        invariant
            k <= line@.len(),
            forall|i: int| 0 <= i < k ==> (#[trigger] line@[i]).1.1 != h,
        decreases line@.len() - k,
    {
        if line[k].1.1 == h {
            return true;
        }
        k = k + 1;
    }
    false
}

fn color_within_shape(line: &Vec<(Coordinate, Tile)>, c: Color, h: Shape) -> (r: bool)
    ensures
        r == spec_color_within_shape(line@, c, h),
{
    let mut k: usize = 0;
    while k < line.len()
        invariant
            k <= line@.len(),
            forall|i: int| 0 <= i < k && (#[trigger] line@[i]).1.0 == c ==> line@[i].1.1 == h,
        decreases line@.len() - k,
    {
        if line[k].1.0 == c && line[k].1.1 != h {
            return false;
        }
        k = k + 1;
    }
    true
}

fn shape_within_color(line: &Vec<(Coordinate, Tile)>, h: Shape, c: Color) -> (r: bool)
    ensures
        r == spec_shape_within_color(line@, h, c),
{
    let mut k: usize = 0;
    while k < line.len()
        invariant
            k <= line@.len(),
            forall|i: int| 0 <= i < k && (#[trigger] line@[i]).1.1 == h ==> line@[i].1.0 == c,
        decreases line@.len() - k,
    {
        if line[k].1.1 == h && line[k].1.0 != c {
            return false;
        }
        k = k + 1;
    }
    true
}

fn color_survives(line: &Vec<(Coordinate, Tile)>, c: Color) -> (r: bool)
    ensures
        r == spec_color_survives(line@, c),
{
    if !has_color(line, c) {
        return false;
    }
    let shapes = Shape::shapes();
    let mut k: usize = 0;
    while k < 6
        invariant
            k <= 6,
            forall|j: int| 0 <= j < 6 ==> (#[trigger] shapes@[j]) == Shape::spec_from_index(j),
            forall|h: Shape| h.spec_index() < k ==> !(spec_has_shape(line@, h) && #[trigger] spec_color_within_shape(line@, c, h)),
        decreases 6 - k,
    {
        let h = shapes[k];
        if has_shape(line, h) && color_within_shape(line, c, h) {
            return false;
        }
        proof {
            assert forall|g: Shape| g.spec_index() < k + 1 implies !(spec_has_shape(line@, g) && #[trigger] spec_color_within_shape(line@, c, g)) by {
                lemma_shape_index(g);
            }
        }
        k = k + 1;
    }
    proof {
        assert forall|g: Shape| !(spec_has_shape(line@, g) && #[trigger] spec_color_within_shape(line@, c, g)) by {
            lemma_shape_index(g);
        }
    }
    true
}

fn shape_survives(line: &Vec<(Coordinate, Tile)>, h: Shape) -> (r: bool)
    ensures
        r == spec_shape_survives(line@, h),
{
    if !has_shape(line, h) {
        return false;
    }
    let colors = Color::colors();
    let mut k: usize = 0;
    while k < 6
        invariant
            k <= 6,
            forall|j: int| 0 <= j < 6 ==> (#[trigger] colors@[j]) == Color::spec_from_index(j),
            forall|c: Color| c.spec_index() < k ==> !(spec_color_survives(line@, c) && #[trigger] spec_shape_within_color(line@, h, c)),
        decreases 6 - k,
    {
        let c = colors[k];
        if color_survives(line, c) && shape_within_color(line, h, c) {
            return false;
        }
        proof {
            assert forall|d: Color| d.spec_index() < k + 1 implies !(spec_color_survives(line@, d) && #[trigger] spec_shape_within_color(line@, h, d)) by {
                lemma_color_index(d);
            }
        }
        k = k + 1;
    }
    proof {
        assert forall|d: Color| !(spec_color_survives(line@, d) && #[trigger] spec_shape_within_color(line@, h, d)) by {
            lemma_color_index(d);
        }
    }
    true
}

/// Whether coordinate `a` comes no later than `b`: by x, then by y.
pub open spec fn spec_coordinate_le(a: Coordinate, b: Coordinate) -> bool {
    a.0 < b.0 || (a.0 == b.0 && a.1 <= b.1)
}

/// Whether the coordinates are in ascending order.
pub open spec fn spec_sorted_coordinates(s: Seq<Coordinate>) -> bool {
    forall|i: int, j: int| 0 <= i < j < s.len() ==> spec_coordinate_le(#[trigger] s[i], #[trigger] s[j])
}

/// Whether group `a` comes no later than `b` in lexicographic order.
pub open spec fn spec_group_le(a: Seq<Coordinate>, b: Seq<Coordinate>) -> bool
    decreases a.len(),
{
    if a.len() == 0 {
        true
    } else if b.len() == 0 {
        false
    } else if a[0] != b[0] {
        spec_coordinate_le(a[0], b[0])
    } else {
        spec_group_le(a.drop_first(), b.drop_first())
    }
}

/// Whether every group is in ascending order and the groups are in lexicographic order.
pub open spec fn spec_sorted_groups(v: Seq<Vec<Coordinate>>) -> bool {
    &&& forall|i: int| 0 <= i < v.len() ==> spec_sorted_coordinates((#[trigger] v[i])@)
    &&& forall|i: int, j: int| 0 <= i < j < v.len() ==> spec_group_le((#[trigger] v[i])@, (#[trigger] v[j])@)
}

/// Relies on `slice::sort`: it only reorders the groups, into ascending order of `Vec`'s
/// lexicographic `Ord`.
#[verifier::external_body]
fn sort_groups(groups: &mut Groups)
    ensures
        final(groups)@.to_multiset() == old(groups)@.to_multiset(),
        forall|i: int, j: int| 0 <= i < j < final(groups)@.len() ==> spec_group_le(
            (#[trigger] final(groups)@[i])@,
            (#[trigger] final(groups)@[j])@,
        ),
{
    groups.sort();
}

/// Relies on `slice::sort`: it only reorders the coordinates, into ascending order of the
/// tuples' `Ord`.
#[verifier::external_body]
fn sort_coordinates(group: &mut Vec<Coordinate>)
    ensures
        final(group)@.to_multiset() == old(group)@.to_multiset(),
        spec_sorted_coordinates(final(group)@),
{
    group.sort();
}

/// Puts each group, and then the list of groups, in ascending order.
fn sort_each(groups: Groups) -> (r: Groups)
    ensures
        spec_groups(r@) == spec_groups(groups@),
        spec_sorted_groups(r@),
{
    let mut sorted: Groups = Vec::new();
    let mut rest = groups;
    let ghost original = rest@;
    let total = rest.len();
    let mut k: usize = 0;
    while rest.len() > 0
        invariant
            k <= original.len(),
            rest@ == original.skip(k as int),
            original.len() == total,
            sorted@.len() == k,
            forall|i: int| 0 <= i < k ==> (#[trigger] sorted@[i])@.to_set() == original[i]@.to_set(),
            forall|i: int| 0 <= i < k ==> spec_sorted_coordinates((#[trigger] sorted@[i])@),
        decreases rest@.len(),
    {
        let mut group = rest.remove(0);
        assert(group == original[k as int]);
        let ghost before = group@;
        sort_coordinates(&mut group);
        proof {
            lemma_same_multiset_same_set(before, group@);
            assert(rest@ =~= original.skip(k + 1));
        }
        sorted.push(group);
        k = k + 1;
    }
    assert(k == original.len());
    proof {
        assert forall|g: Set<Coordinate>| spec_groups(sorted@).contains(g) <==> spec_groups(original).contains(g) by {
            if spec_groups(sorted@).contains(g) {
                let i = choose|i: int| 0 <= i < sorted@.len() && g == (#[trigger] sorted@[i])@.to_set();
                assert(g == original[i]@.to_set());
            }
            if spec_groups(original).contains(g) {
                let i = choose|i: int| 0 <= i < original.len() && g == (#[trigger] original[i])@.to_set();
                assert(g == sorted@[i]@.to_set());
            }
        }
        assert(spec_groups(sorted@) =~= spec_groups(original));
    }
    let ghost before = sorted@;
    sort_groups(&mut sorted);
    proof {
        lemma_sorted_groups(before, sorted@);
        broadcast use vstd::seq_lib::group_to_multiset_ensures;
        assert forall|i: int| 0 <= i < sorted@.len() implies spec_sorted_coordinates((#[trigger] sorted@[i])@) by {
            assert(sorted@.to_multiset().count(sorted@[i]) > 0);
            assert(before.contains(sorted@[i]));
            let m = choose|m: int| 0 <= m < before.len() && before[m] == sorted@[i];
        }
    }
    sorted
}

proof fn lemma_same_multiset_same_set(a: Seq<Coordinate>, b: Seq<Coordinate>)
    requires
        a.to_multiset() == b.to_multiset(),
    ensures
        a.to_set() == b.to_set(),
{
    broadcast use vstd::seq_lib::group_to_multiset_ensures;
    assert forall|x: Coordinate| a.to_set().contains(x) <==> b.to_set().contains(x) by {
        assert(a.contains(x) <==> a.to_multiset().count(x) > 0);
        assert(b.contains(x) <==> b.to_multiset().count(x) > 0);
    }
    assert(a.to_set() =~= b.to_set());
}

proof fn lemma_sorted_groups(before: Seq<Vec<Coordinate>>, after: Seq<Vec<Coordinate>>)
    requires
        after.to_multiset() == before.to_multiset(),
    ensures
        spec_groups(after) == spec_groups(before),
{
    broadcast use vstd::seq_lib::group_to_multiset_ensures;
    assert forall|g: Set<Coordinate>| spec_groups(after).contains(g) <==> spec_groups(before).contains(g) by {
        if spec_groups(after).contains(g) {
            let i = choose|i: int| 0 <= i < after.len() && g == (#[trigger] after[i])@.to_set();
            assert(after.to_multiset().count(after[i]) > 0);
            assert(before.contains(after[i]));
        }
        if spec_groups(before).contains(g) {
            let i = choose|i: int| 0 <= i < before.len() && g == (#[trigger] before[i])@.to_set();
            assert(before.to_multiset().count(before[i]) > 0);
            assert(after.contains(before[i]));
        }
    }
    assert(spec_groups(after) =~= spec_groups(before));
}

proof fn lemma_group_push(v: Seq<Vec<Coordinate>>, g: Vec<Coordinate>)
    ensures
        spec_groups(v.push(g)) == spec_groups(v).insert(g@.to_set()),
{
    assert forall|s: Set<Coordinate>| spec_groups(v.push(g)).contains(s) <==> spec_groups(v).insert(g@.to_set()).contains(s) by {
        if spec_groups(v.push(g)).contains(s) {
            let i = choose|i: int| 0 <= i < v.push(g).len() && s == (#[trigger] v.push(g)[i])@.to_set();
            if i < v.len() {
                assert(v[i] == v.push(g)[i]);
            }
        }
        if spec_groups(v).contains(s) {
            let i = choose|i: int| 0 <= i < v.len() && s == (#[trigger] v[i])@.to_set();
            assert(v.push(g)[i] == v[i]);
        }
        if s == g@.to_set() {
            assert(v.push(g)[v.len() as int] == g);
        }
    }
    assert(spec_groups(v.push(g)) =~= spec_groups(v).insert(g@.to_set()));
}

/// Checks a line given as pairs of a coordinate and a tile, no coordinate twice: its points
/// when it is legal, else the groups of duplicate tiles and the matching groups.
pub fn check_line_entries(line: &Vec<(Coordinate, Tile)>) -> (r: Result<usize, (Groups, Groups)>)
    requires
        spec_distinct_coordinates(line@),
        line@.len() + FULL_MATCH_BONUS <= usize::MAX,
    ensures
        match r {
            Ok(points) => !spec_line_fails(line@) && points == spec_line_points(line@),
            Err((duplicates, multiple_matching)) => {
                &&& spec_line_fails(line@)
                &&& spec_groups(duplicates@) == spec_duplicate_groups(line@)
                &&& spec_groups(multiple_matching@) == spec_multiple_groups(line@)
                &&& spec_sorted_groups(duplicates@)
                &&& spec_sorted_groups(multiple_matching@)
            },
        },
{
    let ghost s = line@;
    // groups of copies of one tile
    let all_tiles = tiles();
    let mut duplicates: Groups = Vec::new();
    let mut k: usize = 0;
    while k < all_tiles.len()
        invariant
            k <= all_tiles@.len() == 36,
            s == line@,
            forall|i: int| 0 <= i < 36 ==> (#[trigger] all_tiles@[i]) == spec_tile_at(i),
            spec_groups(duplicates@) == Set::new(|g: Set<Coordinate>| exists|j: int| 0 <= j < k
                && spec_is_duplicated(s, #[trigger] all_tiles@[j]) && g == spec_tile_group(s, all_tiles@[j])),
        decreases 36 - k,
    {
        let t = all_tiles[k];
        let group = select_coordinates(line, true, true, t);
        proof {
            assert forall|e: (Coordinate, Tile)| #[trigger] spec_selected(e, true, true, t) <==> e.1 == t by {}
            assert(group@.to_set() =~= spec_tile_group(s, t)) by {
                assert forall|p: Coordinate| group@.to_set().contains(p) <==> spec_tile_group(s, t).contains(p) by {
                    if group@.contains(p) {
                        let i = choose|i: int| 0 <= i < line@.len() && (#[trigger] line@[i]).0 == p && spec_selected(line@[i], true, true, t);
                        assert(s[i].0 == p && s[i].1 == t);
                    }
                    if spec_tile_group(s, t).contains(p) {
                        let i = choose|i: int| 0 <= i < s.len() && (#[trigger] s[i]).0 == p && s[i].1 == t;
                        assert(spec_selected(line@[i], true, true, t));
                    }
                }
            }
            assert((group@.len() > 1) == spec_is_duplicated(s, t)) by {
                if spec_is_duplicated(s, t) {
                    let (i, j) = choose|i: int, j: int| 0 <= i < s.len() && 0 <= j < s.len() && i != j && (#[trigger] s[i]).1 == t && (#[trigger] s[j]).1 == t;
                    assert(spec_selected(line@[i], true, true, t) && spec_selected(line@[j], true, true, t));
                }
                if group@.len() > 1 {
                    let (i, j) = choose|i: int, j: int|
                        0 <= i < line@.len() && 0 <= j < line@.len() && i != j
                            && #[trigger] spec_selected(line@[i], true, true, t)
                            && #[trigger] spec_selected(line@[j], true, true, t);
                    assert(s[i].1 == t && s[j].1 == t);
                }
            }
        }
        let ghost before = duplicates@;
        if group.len() > 1 {
            duplicates.push(group);
            proof {
                lemma_group_push(before, group);
            }
        }
        proof {
            let target = Set::new(|g: Set<Coordinate>| exists|j: int| 0 <= j < k + 1
                && spec_is_duplicated(s, #[trigger] all_tiles@[j]) && g == spec_tile_group(s, all_tiles@[j]));
            assert forall|g: Set<Coordinate>| spec_groups(duplicates@).contains(g) <==> target.contains(g) by {
                if target.contains(g) {
                    let j = choose|j: int| 0 <= j < k + 1
                        && spec_is_duplicated(s, #[trigger] all_tiles@[j]) && g == spec_tile_group(s, all_tiles@[j]);
                    if j < k {
                        assert(spec_groups(before).contains(g));
                    }
                }
                if spec_groups(before).contains(g) {
                    let j = choose|j: int| 0 <= j < k
                        && spec_is_duplicated(s, #[trigger] all_tiles@[j]) && g == spec_tile_group(s, all_tiles@[j]);
                    assert(target.contains(g));
                }
                if group@.len() > 1 && g == group@.to_set() {
                    assert(target.contains(g));
                }
            }
            assert(spec_groups(duplicates@) =~= target);
        }
        k = k + 1;
    }
    proof {
        assert forall|g: Set<Coordinate>| spec_groups(duplicates@).contains(g) <==> spec_duplicate_groups(s).contains(g) by {
            if spec_duplicate_groups(s).contains(g) {
                let t = choose|t: Tile| spec_is_duplicated(s, t) && g == #[trigger] spec_tile_group(s, t);
                lemma_tile_index(t);
                lemma_color_index(t.0);
                lemma_shape_index(t.1);
                let j = (t.0.spec_index() * 6 + t.1.spec_index()) as int;
                assert(all_tiles@[j] == t);
            }
        }
        assert(spec_groups(duplicates@) =~= spec_duplicate_groups(s));
    }
    // matching groups by color and by shape
    let colors = Color::colors();
    let shapes = Shape::shapes();
    let mut color_count: usize = 0;
    let mut k: usize = 0;
    while k < 6
        invariant
            k <= 6,
            s == line@,
            forall|j: int| 0 <= j < 6 ==> (#[trigger] colors@[j]) == Color::spec_from_index(j),
            color_count == spec_surviving_colors(s, k as int),
            color_count <= k,
        decreases 6 - k,
    {
        if color_survives(line, colors[k]) {
            color_count = color_count + 1;
        }
        k = k + 1;
    }
    let mut shape_count: usize = 0;
    let mut k: usize = 0;
    while k < 6
        invariant
            k <= 6,
            s == line@,
            forall|j: int| 0 <= j < 6 ==> (#[trigger] shapes@[j]) == Shape::spec_from_index(j),
            shape_count == spec_surviving_shapes(s, k as int),
            shape_count <= k,
        decreases 6 - k,
    {
        if shape_survives(line, shapes[k]) {
            shape_count = shape_count + 1;
        }
        k = k + 1;
    }
    let ghost color_target = Set::new(|g: Set<Coordinate>| exists|c: Color| spec_color_survives(s, c) && g == #[trigger] spec_color_group(s, c));
    let ghost shape_target = Set::new(|g: Set<Coordinate>| exists|h: Shape| spec_shape_survives(s, h) && g == #[trigger] spec_shape_group(s, h));
    let mut multiple_matching: Groups = Vec::new();
    if color_count + shape_count > 1 {
        let mut k: usize = 0;
        while k < 6
            invariant
                k <= 6,
                s == line@,
                forall|j: int| 0 <= j < 6 ==> (#[trigger] colors@[j]) == Color::spec_from_index(j),
                spec_groups(multiple_matching@) == Set::new(|g: Set<Coordinate>| exists|c: Color|
                    c.spec_index() < k && spec_color_survives(s, c) && g == #[trigger] spec_color_group(s, c)),
            decreases 6 - k,
        {
            let c = colors[k];
            let ghost before = multiple_matching@;
            if color_survives(line, c) {
                let group = select_coordinates(line, true, false, (c, Shape::Circle));
                proof {
                    assert(group@.to_set() =~= spec_color_group(s, c)) by {
                        assert forall|p: Coordinate| group@.to_set().contains(p) <==> spec_color_group(s, c).contains(p) by {
                            if group@.contains(p) {
                                let i = choose|i: int| 0 <= i < line@.len() && (#[trigger] line@[i]).0 == p && spec_selected(line@[i], true, false, (c, Shape::Circle));
                                assert(s[i].0 == p && s[i].1.0 == c);
                            }
                            if spec_color_group(s, c).contains(p) {
                                let i = choose|i: int| 0 <= i < s.len() && (#[trigger] s[i]).0 == p && s[i].1.0 == c;
                                assert(spec_selected(line@[i], true, false, (c, Shape::Circle)));
                            }
                        }
                    }
                    lemma_group_push(before, group);
                }
                multiple_matching.push(group);
            }
            proof {
                let target = Set::new(|g: Set<Coordinate>| exists|d: Color|
                    d.spec_index() < k + 1 && spec_color_survives(s, d) && g == #[trigger] spec_color_group(s, d));
                assert forall|g: Set<Coordinate>| spec_groups(multiple_matching@).contains(g) <==> target.contains(g) by {
                    if target.contains(g) {
                        let d = choose|d: Color| d.spec_index() < k + 1 && spec_color_survives(s, d) && g == #[trigger] spec_color_group(s, d);
                        if d.spec_index() == k {
                            lemma_color_index(d);
                        } else {
                            assert(spec_groups(before).contains(g));
                        }
                    }
                    if spec_groups(before).contains(g) {
                        let d = choose|d: Color| d.spec_index() < k && spec_color_survives(s, d) && g == #[trigger] spec_color_group(s, d);
                        assert(target.contains(g));
                    }
                    if spec_color_survives(s, c) && g == spec_color_group(s, c) {
                        assert(target.contains(g));
                    }
                }
                assert(spec_groups(multiple_matching@) =~= target);
            }
            k = k + 1;
        }
        proof {
            assert forall|g: Set<Coordinate>| spec_groups(multiple_matching@).contains(g) <==> color_target.contains(g) by {
                if color_target.contains(g) {
                    let c = choose|c: Color| spec_color_survives(s, c) && g == #[trigger] spec_color_group(s, c);
                    lemma_color_index(c);
                }
            }
            assert(spec_groups(multiple_matching@) =~= color_target);
        }
        let mut k: usize = 0;
        while k < 6
            invariant
                k <= 6,
                s == line@,
                forall|j: int| 0 <= j < 6 ==> (#[trigger] shapes@[j]) == Shape::spec_from_index(j),
                spec_groups(multiple_matching@) == color_target + Set::new(|g: Set<Coordinate>| exists|h: Shape|
                    h.spec_index() < k && spec_shape_survives(s, h) && g == #[trigger] spec_shape_group(s, h)),
            decreases 6 - k,
        {
            let h = shapes[k];
            let ghost before = multiple_matching@;
            if shape_survives(line, h) {
                let group = select_coordinates(line, false, true, (Color::Red, h));
                proof {
                    assert(group@.to_set() =~= spec_shape_group(s, h)) by {
                        assert forall|p: Coordinate| group@.to_set().contains(p) <==> spec_shape_group(s, h).contains(p) by {
                            if group@.contains(p) {
                                let i = choose|i: int| 0 <= i < line@.len() && (#[trigger] line@[i]).0 == p && spec_selected(line@[i], false, true, (Color::Red, h));
                                assert(s[i].0 == p && s[i].1.1 == h);
                            }
                            if spec_shape_group(s, h).contains(p) {
                                let i = choose|i: int| 0 <= i < s.len() && (#[trigger] s[i]).0 == p && s[i].1.1 == h;
                                assert(spec_selected(line@[i], false, true, (Color::Red, h)));
                            }
                        }
                    }
                    lemma_group_push(before, group);
                }
                multiple_matching.push(group);
            }
            proof {
                let old_part = Set::new(|g: Set<Coordinate>| exists|e: Shape|
                    e.spec_index() < k && spec_shape_survives(s, e) && g == #[trigger] spec_shape_group(s, e));
                let part = Set::new(|g: Set<Coordinate>| exists|e: Shape|
                    e.spec_index() < k + 1 && spec_shape_survives(s, e) && g == #[trigger] spec_shape_group(s, e));
                assert forall|g: Set<Coordinate>| spec_groups(multiple_matching@).contains(g) <==> (color_target + part).contains(g) by {
                    if part.contains(g) {
                        let e = choose|e: Shape| e.spec_index() < k + 1 && spec_shape_survives(s, e) && g == #[trigger] spec_shape_group(s, e);
                        if e.spec_index() == k {
                            lemma_shape_index(e);
                        } else {
                            assert(old_part.contains(g));
                        }
                    }
                    if old_part.contains(g) {
                        let e = choose|e: Shape| e.spec_index() < k && spec_shape_survives(s, e) && g == #[trigger] spec_shape_group(s, e);
                        assert(part.contains(g));
                    }
                    if spec_shape_survives(s, h) && g == spec_shape_group(s, h) {
                        assert(part.contains(g));
                    }
                }
                assert(spec_groups(multiple_matching@) =~= color_target + part);
            }
            k = k + 1;
        }
        proof {
            let part = Set::new(|g: Set<Coordinate>| exists|e: Shape|
                e.spec_index() < 6 && spec_shape_survives(s, e) && g == #[trigger] spec_shape_group(s, e));
            assert forall|g: Set<Coordinate>| part.contains(g) <==> shape_target.contains(g) by {
                if shape_target.contains(g) {
                    let e = choose|e: Shape| spec_shape_survives(s, e) && g == #[trigger] spec_shape_group(s, e);
                    lemma_shape_index(e);
                }
            }
            assert(part =~= shape_target);
        }
    }
    let ghost dup_exists = exists|t: Tile| #[trigger] spec_is_duplicated(s, t);
    proof {
        if dup_exists {
            let t = choose|t: Tile| #[trigger] spec_is_duplicated(s, t);
            assert(spec_duplicate_groups(s).contains(spec_tile_group(s, t)));
        }
        if duplicates@.len() > 0 {
            assert(spec_groups(duplicates@).contains(duplicates@[0]@.to_set()));
        }
    }
    if color_count + shape_count > 1 || duplicates.len() > 0 {
        let duplicates = sort_each(duplicates);
        let multiple_matching = sort_each(multiple_matching);
        return Err((duplicates, multiple_matching));
    }
    let len = line.len();
    if (shape_count > 0 && len == Color::COLORS_LEN) || len == Shape::SHAPES_LEN {
        Ok(len + FULL_MATCH_BONUS)
    } else {
        Ok(len)
    }
}

proof fn lemma_surviving_counts(a: LineEntries, b: LineEntries, k: int)
    requires
        forall|c: Color| spec_color_survives(a, c) == #[trigger] spec_color_survives(b, c),
        forall|h: Shape| spec_shape_survives(a, h) == #[trigger] spec_shape_survives(b, h),
    ensures
        spec_surviving_colors(a, k) == spec_surviving_colors(b, k),
        spec_surviving_shapes(a, k) == spec_surviving_shapes(b, k),
    decreases k,
{
    if k > 0 {
        lemma_surviving_counts(a, b, k - 1);
        assert(spec_color_survives(a, Color::spec_from_index(k - 1)) == spec_color_survives(b, Color::spec_from_index(k - 1)));
        assert(spec_shape_survives(a, Shape::spec_from_index(k - 1)) == spec_shape_survives(b, Shape::spec_from_index(k - 1)));
    }
}

/// Whether every pair of `a` is a pair of `b` and the other way round.
pub open spec fn spec_same_pairs(a: LineEntries, b: LineEntries) -> bool {
    &&& forall|i: int| 0 <= i < a.len() ==> b.contains(#[trigger] a[i])
    &&& forall|i: int| 0 <= i < b.len() ==> a.contains(#[trigger] b[i])
}

proof fn lemma_same_attributes(a: LineEntries, b: LineEntries)
    requires
        spec_same_pairs(a, b),
    ensures
        forall|c: Color| spec_has_color(a, c) == #[trigger] spec_has_color(b, c),
        forall|h: Shape| spec_has_shape(a, h) == #[trigger] spec_has_shape(b, h),
{
    assert forall|c: Color| spec_has_color(a, c) == #[trigger] spec_has_color(b, c) by {
        if spec_has_color(a, c) {
            let i = choose|i: int| 0 <= i < a.len() && (#[trigger] a[i]).1.0 == c;
            assert(b.contains(a[i]));
        }
        if spec_has_color(b, c) {
            let i = choose|i: int| 0 <= i < b.len() && (#[trigger] b[i]).1.0 == c;
            assert(a.contains(b[i]));
        }
    }
    assert forall|h: Shape| spec_has_shape(a, h) == #[trigger] spec_has_shape(b, h) by {
        if spec_has_shape(a, h) {
            let i = choose|i: int| 0 <= i < a.len() && (#[trigger] a[i]).1.1 == h;
            assert(b.contains(a[i]));
        }
        if spec_has_shape(b, h) {
            let i = choose|i: int| 0 <= i < b.len() && (#[trigger] b[i]).1.1 == h;
            assert(a.contains(b[i]));
        }
    }
}

proof fn lemma_same_within(a: LineEntries, b: LineEntries)
    requires
        spec_same_pairs(a, b),
    ensures
        forall|c: Color, h: Shape| spec_color_within_shape(a, c, h) == #[trigger] spec_color_within_shape(b, c, h),
        forall|h: Shape, c: Color| spec_shape_within_color(a, h, c) == #[trigger] spec_shape_within_color(b, h, c),
{
    assert forall|c: Color, h: Shape| spec_color_within_shape(a, c, h) == #[trigger] spec_color_within_shape(b, c, h) by {
        if !spec_color_within_shape(a, c, h) {
            let i = choose|i: int| !(0 <= i < a.len() && (#[trigger] a[i]).1.0 == c ==> a[i].1.1 == h);
            assert(b.contains(a[i]));
        }
        if !spec_color_within_shape(b, c, h) {
            let i = choose|i: int| !(0 <= i < b.len() && (#[trigger] b[i]).1.0 == c ==> b[i].1.1 == h);
            assert(a.contains(b[i]));
        }
    }
    assert forall|h: Shape, c: Color| spec_shape_within_color(a, h, c) == #[trigger] spec_shape_within_color(b, h, c) by {
        if !spec_shape_within_color(a, h, c) {
            let i = choose|i: int| !(0 <= i < a.len() && (#[trigger] a[i]).1.1 == h ==> a[i].1.0 == c);
            assert(b.contains(a[i]));
        }
        if !spec_shape_within_color(b, h, c) {
            let i = choose|i: int| !(0 <= i < b.len() && (#[trigger] b[i]).1.1 == h ==> b[i].1.0 == c);
            assert(a.contains(b[i]));
        }
    }
}

proof fn lemma_same_survival(a: LineEntries, b: LineEntries)
    requires
        spec_same_pairs(a, b),
    ensures
        forall|c: Color| spec_color_survives(a, c) == #[trigger] spec_color_survives(b, c),
        forall|h: Shape| spec_shape_survives(a, h) == #[trigger] spec_shape_survives(b, h),
        spec_matching_count(a) == spec_matching_count(b),
        spec_surviving_shapes(a, 6) == spec_surviving_shapes(b, 6),
{
    lemma_same_attributes(a, b);
    lemma_same_within(a, b);
    assert forall|c: Color| spec_color_survives(a, c) == #[trigger] spec_color_survives(b, c) by {
        if spec_has_color(a, c) && exists|h: Shape| spec_has_shape(a, h) && #[trigger] spec_color_within_shape(a, c, h) {
            let h = choose|h: Shape| spec_has_shape(a, h) && #[trigger] spec_color_within_shape(a, c, h);
            assert(spec_has_shape(b, h) && spec_color_within_shape(b, c, h));
        }
        if spec_has_color(b, c) && exists|h: Shape| spec_has_shape(b, h) && #[trigger] spec_color_within_shape(b, c, h) {
            let h = choose|h: Shape| spec_has_shape(b, h) && #[trigger] spec_color_within_shape(b, c, h);
            assert(spec_has_shape(a, h) && spec_color_within_shape(a, c, h));
        }
    }
    assert forall|h: Shape| spec_shape_survives(a, h) == #[trigger] spec_shape_survives(b, h) by {
        if spec_has_shape(a, h) && exists|c: Color| spec_color_survives(a, c) && #[trigger] spec_shape_within_color(a, h, c) {
            let c = choose|c: Color| spec_color_survives(a, c) && #[trigger] spec_shape_within_color(a, h, c);
            assert(spec_color_survives(b, c) && spec_shape_within_color(b, h, c));
        }
        if spec_has_shape(b, h) && exists|c: Color| spec_color_survives(b, c) && #[trigger] spec_shape_within_color(b, h, c) {
            let c = choose|c: Color| spec_color_survives(b, c) && #[trigger] spec_shape_within_color(b, h, c);
            assert(spec_color_survives(a, c) && spec_shape_within_color(a, h, c));
        }
    }
    lemma_surviving_counts(a, b, 6);
}

proof fn lemma_same_groups(a: LineEntries, b: LineEntries)
    requires
        spec_same_pairs(a, b),
    ensures
        forall|c: Color| spec_color_group(a, c) == #[trigger] spec_color_group(b, c),
        forall|h: Shape| spec_shape_group(a, h) == #[trigger] spec_shape_group(b, h),
        forall|t: Tile| spec_tile_group(a, t) == #[trigger] spec_tile_group(b, t),
{
    assert forall|c: Color| spec_color_group(a, c) == #[trigger] spec_color_group(b, c) by {
        assert forall|p: Coordinate| spec_color_group(a, c).contains(p) <==> spec_color_group(b, c).contains(p) by {
            if spec_color_group(a, c).contains(p) {
                let i = choose|i: int| 0 <= i < a.len() && (#[trigger] a[i]).0 == p && a[i].1.0 == c;
                assert(b.contains(a[i]));
            }
            if spec_color_group(b, c).contains(p) {
                let i = choose|i: int| 0 <= i < b.len() && (#[trigger] b[i]).0 == p && b[i].1.0 == c;
                assert(a.contains(b[i]));
            }
        }
        assert(spec_color_group(a, c) =~= spec_color_group(b, c));
    }
    assert forall|h: Shape| spec_shape_group(a, h) == #[trigger] spec_shape_group(b, h) by {
        assert forall|p: Coordinate| spec_shape_group(a, h).contains(p) <==> spec_shape_group(b, h).contains(p) by {
            if spec_shape_group(a, h).contains(p) {
                let i = choose|i: int| 0 <= i < a.len() && (#[trigger] a[i]).0 == p && a[i].1.1 == h;
                assert(b.contains(a[i]));
            }
            if spec_shape_group(b, h).contains(p) {
                let i = choose|i: int| 0 <= i < b.len() && (#[trigger] b[i]).0 == p && b[i].1.1 == h;
                assert(a.contains(b[i]));
            }
        }
        assert(spec_shape_group(a, h) =~= spec_shape_group(b, h));
    }
    assert forall|t: Tile| spec_tile_group(a, t) == #[trigger] spec_tile_group(b, t) by {
        assert forall|p: Coordinate| spec_tile_group(a, t).contains(p) <==> spec_tile_group(b, t).contains(p) by {
            if spec_tile_group(a, t).contains(p) {
                let i = choose|i: int| 0 <= i < a.len() && (#[trigger] a[i]).0 == p && a[i].1 == t;
                assert(b.contains(a[i]));
            }
            if spec_tile_group(b, t).contains(p) {
                let i = choose|i: int| 0 <= i < b.len() && (#[trigger] b[i]).0 == p && b[i].1 == t;
                assert(a.contains(b[i]));
            }
        }
        assert(spec_tile_group(a, t) =~= spec_tile_group(b, t));
    }
}

proof fn lemma_duplicated_elements(a: LineEntries, b: LineEntries, t: Tile)
    requires
        spec_distinct_coordinates(a),
        spec_same_pairs(a, b),
    ensures
        spec_is_duplicated(a, t) ==> spec_is_duplicated(b, t),
{
    if spec_is_duplicated(a, t) {
        let (i, j) = choose|i: int, j: int|
            0 <= i < a.len() && 0 <= j < a.len() && i != j && (#[trigger] a[i]).1 == t && (#[trigger] a[j]).1 == t;
        assert(b.contains(a[i]));
        assert(b.contains(a[j]));
        let x = choose|x: int| 0 <= x < b.len() && b[x] == a[i];
        let y = choose|y: int| 0 <= y < b.len() && b[y] == a[j];
        assert(a[i].0 != a[j].0);
        assert(x != y);
    }
}

proof fn lemma_line_elements(a: LineEntries, b: LineEntries, m: Map<Coordinate, Tile>)
    requires
        spec_lists_board(a, m),
        spec_lists_board(b, m),
    ensures
        spec_same_pairs(a, b),
        a.len() == b.len(),
{
    assert forall|i: int| 0 <= i < a.len() implies b.contains(#[trigger] a[i]) by {
        assert(m.contains_key(a[i].0));
        let j = choose|j: int| 0 <= j < b.len() && (#[trigger] b[j]).0 == a[i].0;
        assert(b[j] == a[i]);
    }
    assert forall|i: int| 0 <= i < b.len() implies a.contains(#[trigger] b[i]) by {
        assert(m.contains_key(b[i].0));
        let j = choose|j: int| 0 <= j < a.len() && (#[trigger] a[j]).0 == b[i].0;
        assert(a[j] == b[i]);
    }
}

/// The rules of a line depend only on which pairs it holds, not on their order.
proof fn lemma_line_order_irrelevant(a: LineEntries, b: LineEntries, m: Map<Coordinate, Tile>)
    requires
        spec_lists_board(a, m),
        spec_lists_board(b, m),
    ensures
        spec_line_fails(a) == spec_line_fails(b),
        spec_line_points(a) == spec_line_points(b),
        spec_duplicate_groups(a) == spec_duplicate_groups(b),
        spec_multiple_groups(a) == spec_multiple_groups(b),
{
    lemma_line_elements(a, b, m);
    lemma_same_survival(a, b);
    lemma_same_groups(a, b);
    assert(spec_same_pairs(b, a));
    assert forall|t: Tile| spec_is_duplicated(a, t) == #[trigger] spec_is_duplicated(b, t) by {
        lemma_duplicated_elements(a, b, t);
        lemma_duplicated_elements(b, a, t);
    }
    assert forall|g: Set<Coordinate>| spec_duplicate_groups(a).contains(g) <==> spec_duplicate_groups(b).contains(g) by {
        if spec_duplicate_groups(a).contains(g) {
            let t = choose|t: Tile| spec_is_duplicated(a, t) && g == #[trigger] spec_tile_group(a, t);
            assert(spec_is_duplicated(b, t) && g == spec_tile_group(b, t));
        }
        if spec_duplicate_groups(b).contains(g) {
            let t = choose|t: Tile| spec_is_duplicated(b, t) && g == #[trigger] spec_tile_group(b, t);
            assert(spec_is_duplicated(a, t) && g == spec_tile_group(a, t));
        }
    }
    assert(spec_duplicate_groups(a) =~= spec_duplicate_groups(b));
    let ca = Set::new(|g: Set<Coordinate>| exists|c: Color| spec_color_survives(a, c) && g == #[trigger] spec_color_group(a, c));
    let cb = Set::new(|g: Set<Coordinate>| exists|c: Color| spec_color_survives(b, c) && g == #[trigger] spec_color_group(b, c));
    let ha = Set::new(|g: Set<Coordinate>| exists|h: Shape| spec_shape_survives(a, h) && g == #[trigger] spec_shape_group(a, h));
    let hb = Set::new(|g: Set<Coordinate>| exists|h: Shape| spec_shape_survives(b, h) && g == #[trigger] spec_shape_group(b, h));
    assert forall|g: Set<Coordinate>| ca.contains(g) <==> cb.contains(g) by {
        if ca.contains(g) {
            let c = choose|c: Color| spec_color_survives(a, c) && g == #[trigger] spec_color_group(a, c);
            assert(spec_color_survives(b, c) && g == spec_color_group(b, c));
        }
        if cb.contains(g) {
            let c = choose|c: Color| spec_color_survives(b, c) && g == #[trigger] spec_color_group(b, c);
            assert(spec_color_survives(a, c) && g == spec_color_group(a, c));
        }
    }
    assert forall|g: Set<Coordinate>| ha.contains(g) <==> hb.contains(g) by {
        if ha.contains(g) {
            let h = choose|h: Shape| spec_shape_survives(a, h) && g == #[trigger] spec_shape_group(a, h);
            assert(spec_shape_survives(b, h) && g == spec_shape_group(b, h));
        }
        if hb.contains(g) {
            let h = choose|h: Shape| spec_shape_survives(b, h) && g == #[trigger] spec_shape_group(b, h);
            assert(spec_shape_survives(a, h) && g == spec_shape_group(a, h));
        }
    }
    assert(ca =~= cb);
    assert(ha =~= hb);
    if exists|t: Tile| #[trigger] spec_is_duplicated(a, t) {
        let t = choose|t: Tile| #[trigger] spec_is_duplicated(a, t);
        assert(spec_is_duplicated(b, t));
    }
    if exists|t: Tile| #[trigger] spec_is_duplicated(b, t) {
        let t = choose|t: Tile| #[trigger] spec_is_duplicated(b, t);
        assert(spec_is_duplicated(a, t));
    }
}

/// Checks a line of tiles: its points when it is legal, else the groups of duplicate tiles
/// and, when the line holds more than one matching group, those groups.
///
/// A color forms a matching group of its own unless all its tiles share one shape, and a
/// shape forms one unless all its tiles share the color of such a group. A line earns its
/// length in points, plus the full match bonus when it holds every color or every shape.
pub fn check_line(line: &Board) -> (r: Result<usize, (Groups, Groups)>)
    requires
        line@.len() + FULL_MATCH_BONUS <= usize::MAX,
    ensures
        forall|s: LineEntries| #[trigger] spec_lists_board(s, line@) ==> match r {
            Ok(points) => !spec_line_fails(s) && points == spec_line_points(s),
            Err((duplicates, multiple_matching)) => {
                &&& spec_line_fails(s)
                &&& spec_groups(duplicates@) == spec_duplicate_groups(s)
                &&& spec_groups(multiple_matching@) == spec_multiple_groups(s)
            },
        },
        r matches Err((duplicates, multiple_matching)) ==> spec_sorted_groups(duplicates@)
            && spec_sorted_groups(multiple_matching@),
{
    let entries = board_entries(line);
    let r = check_line_entries(&entries);
    proof {
        assert forall|s: LineEntries| #[trigger] spec_lists_board(s, line@) implies match r {
            Ok(points) => !spec_line_fails(s) && points == spec_line_points(s),
            Err((duplicates, multiple_matching)) => {
                &&& spec_line_fails(s)
                &&& spec_groups(duplicates@) == spec_duplicate_groups(s)
                &&& spec_groups(multiple_matching@) == spec_multiple_groups(s)
            },
        } by {
            lemma_line_order_irrelevant(entries@, s, line@);
        }
    }
    r
}

proof fn lemma_surviving_colors_positive(s: LineEntries, k: int)
    requires
        spec_surviving_colors(s, k) > 0,
    ensures
        exists|c: Color| #[trigger] spec_color_survives(s, c),
    decreases k,
{
    if k > 0 {
        if spec_color_survives(s, Color::spec_from_index(k - 1)) {
        } else {
            lemma_surviving_colors_positive(s, k - 1);
        }
    }
}

proof fn lemma_surviving_shapes_positive(s: LineEntries, k: int)
    requires
        spec_surviving_shapes(s, k) > 0,
    ensures
        exists|h: Shape| #[trigger] spec_shape_survives(s, h),
    decreases k,
{
    if k > 0 {
        if spec_shape_survives(s, Shape::spec_from_index(k - 1)) {
        } else {
            lemma_surviving_shapes_positive(s, k - 1);
        }
    }
}

/// A line that breaks a rule has a group to show for it: duplicates, or matching groups.
pub proof fn lemma_line_fails_groups(s: LineEntries)
    requires
        spec_line_fails(s),
    ensures
        !spec_duplicate_groups(s).is_empty() || !spec_multiple_groups(s).is_empty(),
{
    if exists|t: Tile| #[trigger] spec_is_duplicated(s, t) {
        let t = choose|t: Tile| #[trigger] spec_is_duplicated(s, t);
        assert(spec_duplicate_groups(s).contains(spec_tile_group(s, t)));
    } else {
        if spec_surviving_colors(s, 6) > 0 {
            lemma_surviving_colors_positive(s, 6);
            let c = choose|c: Color| #[trigger] spec_color_survives(s, c);
            assert(spec_multiple_groups(s).contains(spec_color_group(s, c)));
        } else {
            lemma_surviving_shapes_positive(s, 6);
            let h = choose|h: Shape| #[trigger] spec_shape_survives(s, h);
            assert(spec_multiple_groups(s).contains(spec_shape_group(s, h)));
        }
    }
}

} // verus!
