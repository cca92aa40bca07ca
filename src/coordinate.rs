use vstd::prelude::*;

verus! {

/// A position on the board: a horizontal and a vertical component.
pub type Coordinate = (isize, isize);

/// Squared Euclidean distance of a coordinate from the origin.
pub open spec fn spec_squared_distance(c: Coordinate) -> int {
    c.0 * c.0 + c.1 * c.1
}

/// The four coordinates next to `c`, not diagonally.
pub open spec fn spec_adjacent(c: Coordinate) -> Seq<Coordinate> {
    seq![((c.0 - 1) as isize, c.1), (c.0, (c.1 - 1) as isize),
        (c.0, (c.1 + 1) as isize), ((c.0 + 1) as isize, c.1)]
}

/// Whether two coordinates are next to each other, not diagonally.
pub open spec fn spec_is_adjacent(a: Coordinate, b: Coordinate) -> bool {
    (a.0 == b.0 && (a.1 - b.1 == 1 || b.1 - a.1 == 1))
        || (a.1 == b.1 && (a.0 - b.0 == 1 || b.0 - a.0 == 1))
}

/// Whether two coordinates are the same.
pub fn same_coordinate(a: Coordinate, b: Coordinate) -> (r: bool)
    ensures
        r == (a == b),
{
    a.0 == b.0 && a.1 == b.1
}

/// The smaller of two integers.
pub open spec fn spec_min(a: isize, b: isize) -> isize {
    if b < a {
        b
    } else {
        a
    }
}

/// The larger of two integers.
pub open spec fn spec_max(a: isize, b: isize) -> isize {
    if b > a {
        b
    } else {
        a
    }
}

/// The smallest and largest x and y components of the first `k` coordinates of `s`, in the
/// order minimum x, minimum y, maximum x, maximum y.
pub open spec fn spec_bounds(s: Seq<Coordinate>, k: int) -> (isize, isize, isize, isize)
    decreases k,
{
    if k <= 1 {
        (s[0].0, s[0].1, s[0].0, s[0].1)
    } else {
        let (a, b, c, d) = spec_bounds(s, k - 1);
        let (x, y) = s[k - 1];
        (spec_min(a, x), spec_min(b, y), spec_max(c, x), spec_max(d, y))
    }
}

/// Position of the first coordinate among the first `k` of `s` that is nearest to the
/// origin.
pub open spec fn spec_nearest_index(s: Seq<Coordinate>, k: int) -> int
    decreases k,
{
    if k <= 1 {
        0
    } else {
        let best = spec_nearest_index(s, k - 1);
        if spec_squared_distance(s[k - 1]) < spec_squared_distance(s[best]) {
            k - 1
        } else {
            best
        }
    }
}

proof fn lemma_bounds(s: Seq<Coordinate>, k: int)
    requires
        1 <= k <= s.len(),
    ensures
        ({
            let (min_x, min_y, max_x, max_y) = spec_bounds(s, k);
            &&& forall|i: int| 0 <= i < k ==> min_x <= (#[trigger] s[i]).0 <= max_x && min_y <= s[i].1 <= max_y
            &&& exists|i: int| 0 <= i < k && (#[trigger] s[i]).0 == min_x
            &&& exists|i: int| 0 <= i < k && (#[trigger] s[i]).1 == min_y
            &&& exists|i: int| 0 <= i < k && (#[trigger] s[i]).0 == max_x
            &&& exists|i: int| 0 <= i < k && (#[trigger] s[i]).1 == max_y
        }),
    decreases k,
{
    if k > 1 {
        lemma_bounds(s, k - 1);
        let (a, b, c, d) = spec_bounds(s, k - 1);
        let i0 = choose|i: int| 0 <= i < k - 1 && (#[trigger] s[i]).0 == a;
        let i1 = choose|i: int| 0 <= i < k - 1 && (#[trigger] s[i]).1 == b;
        let i2 = choose|i: int| 0 <= i < k - 1 && (#[trigger] s[i]).0 == c;
        let i3 = choose|i: int| 0 <= i < k - 1 && (#[trigger] s[i]).1 == d;
        let last = s[k - 1];
        assert(s[k - 1] == last);
        assert(s[i0].0 == a && s[i1].1 == b && s[i2].0 == c && s[i3].1 == d);
    } else {
        assert(s[0] == s[0]);
    }
}

pub(crate) proof fn lemma_nearest(s: Seq<Coordinate>, k: int)
    requires
        1 <= k <= s.len(),
    ensures
        0 <= spec_nearest_index(s, k) < k,
        forall|j: int| 0 <= j < k ==> spec_squared_distance(#[trigger] s[j]) >= spec_squared_distance(s[spec_nearest_index(s, k)]),
        forall|j: int| 0 <= j < spec_nearest_index(s, k) ==> spec_squared_distance(#[trigger] s[j]) > spec_squared_distance(s[spec_nearest_index(s, k)]),
    decreases k,
{
    if k > 1 {
        lemma_nearest(s, k - 1);
    }
}

/// Finds the smallest and largest x and y components of `coordinates`, in the order
/// minimum x, minimum y, maximum x, maximum y. [None] when `coordinates` is empty.
pub fn find_component_minimums_and_maximums(coordinates: &[Coordinate]) -> (r: Option<
    (isize, isize, isize, isize),
>)
    ensures
        coordinates@.len() == 0 <==> r is None,
        r is Some ==> r->0 == spec_bounds(coordinates@, coordinates@.len() as int),
        r matches Some((min_x, min_y, max_x, max_y)) ==> {
            &&& forall|i: int|
                0 <= i < coordinates@.len() ==> min_x <= (#[trigger] coordinates@[i]).0 <= max_x
                    && min_y <= coordinates@[i].1 <= max_y
            &&& exists|i: int| 0 <= i < coordinates@.len() && (#[trigger] coordinates@[i]).0 == min_x
            &&& exists|i: int| 0 <= i < coordinates@.len() && (#[trigger] coordinates@[i]).1 == min_y
            &&& exists|i: int| 0 <= i < coordinates@.len() && (#[trigger] coordinates@[i]).0 == max_x
            &&& exists|i: int| 0 <= i < coordinates@.len() && (#[trigger] coordinates@[i]).1 == max_y
        },
{
    if coordinates.len() == 0 {
        return None;
    }
    let (x, y) = coordinates[0];
    let (mut min_x, mut min_y, mut max_x, mut max_y) = (x, y, x, y);
    let mut k: usize = 1;
    while k < coordinates.len()
        invariant
            1 <= k <= coordinates@.len(),
            (min_x, min_y, max_x, max_y) == spec_bounds(coordinates@, k as int),
        decreases coordinates@.len() - k,
    {
        let (x, y) = coordinates[k];
        if x < min_x {
            min_x = x;
        }
        if y < min_y {
            min_y = y;
        }
        if x > max_x {
            max_x = x;
        }
        if y > max_y {
            max_y = y;
        }
        k = k + 1;
    }
    proof {
        lemma_bounds(coordinates@, coordinates@.len() as int);
    }
    Some((min_x, min_y, max_x, max_y))
}

/// Squared distance of `c` from the origin, exactly.
fn squared_distance(c: Coordinate) -> (r: u128)
    ensures
        r == spec_squared_distance(c),
{
    let wide_x = c.0 as i128;
    let wide_y = c.1 as i128;
    let x = (if wide_x < 0 { -wide_x } else { wide_x }) as u128;
    let y = (if wide_y < 0 { -wide_y } else { wide_y }) as u128;
    proof {
        assert(x * x <= 0x4000_0000_0000_0000_0000_0000_0000_0000) by (nonlinear_arith)
            requires x <= 0x8000_0000_0000_0000;
        assert(y * y <= 0x4000_0000_0000_0000_0000_0000_0000_0000) by (nonlinear_arith)
            requires y <= 0x8000_0000_0000_0000;
        assert(x * x == c.0 * c.0) by (nonlinear_arith)
            requires x == c.0 || x == -c.0;
        assert(y * y == c.1 * c.1) by (nonlinear_arith)
            requires y == c.1 || y == -c.1;
    }
    x * x + y * y
}

/// Finds the coordinate of `coordinates` nearest to the origin; of several equally near
/// ones, the first. [None] when `coordinates` is empty.
pub fn find_coordinate_by_minimum_distance(coordinates: &[Coordinate]) -> (r: Option<Coordinate>)
    ensures
        coordinates@.len() == 0 <==> r is None,
        r is Some ==> r->0 == coordinates@[spec_nearest_index(coordinates@, coordinates@.len() as int)],
        r is Some ==> exists|k: int|
            0 <= k < coordinates@.len() && coordinates@[k] == r->0 && (forall|j: int|
                0 <= j < coordinates@.len() ==> spec_squared_distance(#[trigger] coordinates@[j])
                    >= spec_squared_distance(coordinates@[k])) && (forall|j: int|
                0 <= j < k ==> spec_squared_distance(#[trigger] coordinates@[j])
                    > spec_squared_distance(coordinates@[k])),
{
    if coordinates.len() == 0 {
        return None;
    }
    let mut best: usize = 0;
    let mut best_distance = squared_distance(coordinates[0]);
    let mut k: usize = 1;
    while k < coordinates.len()
        invariant
            1 <= k <= coordinates@.len(),
            best == spec_nearest_index(coordinates@, k as int),
            best < k,
            best_distance == spec_squared_distance(coordinates@[best as int]),
        decreases coordinates@.len() - k,
    {
        proof {
            lemma_nearest(coordinates@, k as int);
        }
        let distance = squared_distance(coordinates[k]);
        if distance < best_distance {
            best = k;
            best_distance = distance;
        }
        k = k + 1;
    }
    proof {
        lemma_nearest(coordinates@, coordinates@.len() as int);
    }
    Some(coordinates[best])
}

/// The four coordinates next to `c`, not diagonally, in ascending order.
pub fn adjacent_coordinates(c: Coordinate) -> (r: [Coordinate; 4])
    requires
        isize::MIN < c.0 < isize::MAX,
        isize::MIN < c.1 < isize::MAX,
    ensures
        r@ == spec_adjacent(c),
{
    let (x, y) = c;
    let r = [(x - 1, y), (x, y - 1), (x, y + 1), (x + 1, y)];
    assert(r@ =~= spec_adjacent(c));
    r
}

} // verus!
