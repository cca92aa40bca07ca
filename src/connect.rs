use crate::consts::COORDINATE_LIMIT;
use crate::coordinate::{same_coordinate, spec_is_adjacent, Coordinate};
use crate::play::PlayEntry;
use crate::tile::Tile;
use crate::types::Board;
use vstd::prelude::*;

verus! {

broadcast use Seq::lemma_filter_push;

/// Whether a tile of the board lies next to `c`.
pub open spec fn spec_touches_board(board: Map<Coordinate, Tile>, c: Coordinate) -> bool {
    exists|d: Coordinate| #[trigger] board.contains_key(d) && spec_is_adjacent(c, d)
}

/// Whether each coordinate of `order` touches the board or a coordinate before it: a way to
/// reach every one of them from the board.
pub open spec fn spec_is_chain(board: Map<Coordinate, Tile>, order: Seq<Coordinate>) -> bool {
    forall|k: int| 0 <= k < order.len() ==> spec_touches_board(board, #[trigger] order[k])
        || exists|j: int| 0 <= j < k && spec_is_adjacent(#[trigger] order[j], order[k])
}

/// Whether `connected` is the set of candidate coordinates that reach the board through
/// neighbouring candidates: each of them is reached by a chain from the board, and no other
/// candidate touches the board or one of them.
pub open spec fn spec_is_connected_set(board: Map<Coordinate, Tile>, candidates: Seq<PlayEntry>, connected: Set<Coordinate>) -> bool {
    &&& forall|c: Coordinate| #[trigger] connected.contains(c) ==> exists|i: int| 0 <= i < candidates.len() && (#[trigger] candidates[i]).1 == c
    &&& exists|order: Seq<Coordinate>| #[trigger] order.to_set() == connected && spec_is_chain(board, order)
    &&& forall|i: int| 0 <= i < candidates.len() && !connected.contains((#[trigger] candidates[i]).1) ==> !spec_touches_board(board, candidates[i].1)
        && forall|d: Coordinate| #[trigger] connected.contains(d) ==> !spec_is_adjacent(candidates[i].1, d)
}

/// Whether every coordinate of `order` is the coordinate of one of the plays.
pub open spec fn spec_from_candidates(order: Seq<Coordinate>, candidates: Seq<PlayEntry>) -> bool {
    forall|j: int| #![trigger order[j]] 0 <= j < order.len() ==> exists|i: int| 0 <= i < candidates.len() && (#[trigger] candidates[i]).1 == order[j]
}

/// Whether neither component of `c` is the smallest or the largest `isize`, so that every
/// neighbour of `c` is a coordinate.
pub open spec fn spec_not_extreme(c: Coordinate) -> bool {
    isize::MIN < c.0 < isize::MAX && isize::MIN < c.1 < isize::MAX
}

/// Whether a tile of the board lies next to `c`.
fn touches_board(board: &Board, c: Coordinate) -> (r: bool)
    requires
        spec_not_extreme(c),
    ensures
        r == spec_touches_board(board@, c),
{
    let (x, y) = c;
    let left: Coordinate = (x - 1, y);
    let below: Coordinate = (x, y - 1);
    let above: Coordinate = (x, y + 1);
    let right: Coordinate = (x + 1, y);
    let r = board.contains_key(&left) || board.contains_key(&below) || board.contains_key(&above)
        || board.contains_key(&right);
    proof {
        if spec_touches_board(board@, c) {
            let d = choose|d: Coordinate| #[trigger] board@.contains_key(d) && spec_is_adjacent(c, d);
            assert(d == left || d == below || d == above || d == right);
        }
        if board@.contains_key(left) {
            assert(spec_is_adjacent(c, left));
        }
        if board@.contains_key(below) {
            assert(spec_is_adjacent(c, below));
        }
        if board@.contains_key(above) {
            assert(spec_is_adjacent(c, above));
        }
        if board@.contains_key(right) {
            assert(spec_is_adjacent(c, right));
        }
    }
    r
}

fn is_adjacent(a: Coordinate, b: Coordinate) -> (r: bool)
    requires
        spec_not_extreme(a),
        spec_not_extreme(b),
    ensures
        r == spec_is_adjacent(a, b),
{
    (a.0 == b.0 && (a.1 == b.1 + 1 || b.1 == a.1 + 1)) || (a.1 == b.1 && (a.0 == b.0 + 1 || b.0 == a.0 + 1))
}

fn touches_any(order: &Vec<Coordinate>, c: Coordinate) -> (r: bool)
    requires
        spec_not_extreme(c),
        forall|j: int| 0 <= j < order@.len() ==> spec_not_extreme(#[trigger] order@[j]),
    ensures
        r == exists|j: int| 0 <= j < order@.len() && spec_is_adjacent(#[trigger] order@[j], c),
{
    let mut k: usize = 0;
    while k < order.len()
        invariant
            k <= order@.len(),
            spec_not_extreme(c),
            forall|j: int| 0 <= j < order@.len() ==> spec_not_extreme(#[trigger] order@[j]),
            forall|j: int| 0 <= j < k ==> !spec_is_adjacent(#[trigger] order@[j], c),
        decreases order@.len() - k,
    {
        if is_adjacent(order[k], c) {
            return true;
        }
        k = k + 1;
    }
    false
}

fn holds_coordinate(order: &Vec<Coordinate>, c: Coordinate) -> (r: bool)
    ensures
        r == order@.contains(c),
{
    let mut k: usize = 0;
    while k < order.len()
        invariant
            k <= order@.len(),
            forall|j: int| 0 <= j < k ==> order@[j] != c,
        decreases order@.len() - k,
    {
        if same_coordinate(order[k], c) {
            return true;
        }
        k = k + 1;
    }
    false
}

/// Partitions plays by whether their coordinate reaches the board: next to a tile of the
/// board, or next to a play that reaches it. Keeps the order of the plays in both parts.
pub(crate) fn partition_connected(board: &Board, candidates: &Vec<PlayEntry>) -> (r: (Vec<PlayEntry>, Vec<PlayEntry>))
    requires
        forall|i: int| 0 <= i < candidates@.len() ==> spec_not_extreme((#[trigger] candidates@[i]).1),
    ensures
        exists|connected: Set<Coordinate>| #[trigger] spec_is_connected_set(board@, candidates@, connected)
            && r.0@ == candidates@.filter(|e: PlayEntry| connected.contains(e.1))
            && r.1@ == candidates@.filter(|e: PlayEntry| !connected.contains(e.1)),
{
    let mut order: Vec<Coordinate> = Vec::new();
    let mut changed = true;
    while changed
        invariant
            forall|i: int| 0 <= i < candidates@.len() ==> spec_not_extreme((#[trigger] candidates@[i]).1),
            forall|j: int| 0 <= j < order@.len() ==> spec_not_extreme(#[trigger] order@[j]),
            order@.no_duplicates(),
            spec_from_candidates(order@, candidates@),
            spec_is_chain(board@, order@),
            order@.len() <= candidates@.len(),
            !changed ==> forall|i: int| 0 <= i < candidates@.len() && !order@.contains((#[trigger] candidates@[i]).1)
                ==> !spec_touches_board(board@, candidates@[i].1)
                && forall|j: int| 0 <= j < order@.len() ==> !spec_is_adjacent(candidates@[i].1, #[trigger] order@[j]),
        decreases candidates@.len() - order@.len() + if changed { 1int } else { 0int },
    {
        changed = false;
        let ghost start_len = order@.len();
        let mut k: usize = 0;
        while k < candidates.len()
            invariant
                k <= candidates@.len(),
                forall|i: int| 0 <= i < candidates@.len() ==> spec_not_extreme((#[trigger] candidates@[i]).1),
                forall|j: int| 0 <= j < order@.len() ==> spec_not_extreme(#[trigger] order@[j]),
                order@.no_duplicates(),
                spec_from_candidates(order@, candidates@),
                spec_is_chain(board@, order@),
                order@.len() >= start_len,
                changed == (order@.len() > start_len),
                !changed ==> forall|i: int| 0 <= i < k && !order@.contains((#[trigger] candidates@[i]).1)
                    ==> !spec_touches_board(board@, candidates@[i].1)
                    && forall|j: int| 0 <= j < order@.len() ==> !spec_is_adjacent(candidates@[i].1, #[trigger] order@[j]),
            decreases candidates@.len() - k,
        {
            let c = candidates[k].1;
            if !holds_coordinate(&order, c) {
                let reaches = touches_board(board, c) || touches_any(&order, c);
                if reaches {
                    let ghost before = order@;
                    order.push(c);
                    changed = true;
                    proof {
                        assert forall|j: int| #![trigger order@[j]] 0 <= j < order@.len() implies exists|i: int| 0 <= i < candidates@.len() && (#[trigger] candidates@[i]).1 == order@[j] by {
                            if j == before.len() {
                                assert(candidates@[k as int].1 == order@[j]);
                            } else {
                                assert(order@[j] == before[j]);
                            }
                        }
                        assert forall|a: int| 0 <= a < order@.len() implies spec_touches_board(board@, #[trigger] order@[a])
                            || exists|j: int| 0 <= j < a && spec_is_adjacent(#[trigger] order@[j], order@[a]) by {
                            if a < before.len() {
                                assert(order@[a] == before[a]);
                                if !spec_touches_board(board@, before[a]) {
                                    let j = choose|j: int| 0 <= j < a && spec_is_adjacent(#[trigger] before[j], before[a]);
                                    assert(order@[j] == before[j]);
                                }
                            } else if !spec_touches_board(board@, c) {
                                let j = choose|j: int| 0 <= j < before.len() && spec_is_adjacent(#[trigger] before[j], c);
                                assert(order@[j] == before[j]);
                            }
                        }
                    }
                } else {
                    proof {
                        assert forall|j: int| 0 <= j < order@.len() implies !spec_is_adjacent(c, #[trigger] order@[j]) by {
                            if spec_is_adjacent(c, order@[j]) {
                                assert(spec_is_adjacent(order@[j], c));
                            }
                        }
                    }
                }
            }
            k = k + 1;
        }
        proof {
            if changed {
                assert(order@.len() <= candidates@.len()) by {
                    lemma_distinct_coordinates_bound(order@, candidates@);
                }
            }
        }
    }
    let ghost connected = order@.to_set();
    let mut inside: Vec<PlayEntry> = Vec::new();
    let mut outside: Vec<PlayEntry> = Vec::new();
    let mut k: usize = 0;
    while k < candidates.len()
        invariant
            k <= candidates@.len(),
            connected == order@.to_set(),
            inside@ == candidates@.take(k as int).filter(|e: PlayEntry| connected.contains(e.1)),
            outside@ == candidates@.take(k as int).filter(|e: PlayEntry| !connected.contains(e.1)),
        decreases candidates@.len() - k,
    {
        let e = candidates[k];
        assert(candidates@.take(k + 1) == candidates@.take(k as int).push(e));
        let held = holds_coordinate(&order, e.1);
        assert(order@.to_set().contains(e.1) == order@.contains(e.1));
        if held {
            inside.push(e);
        } else {
            outside.push(e);
        }
        k = k + 1;
    }
    proof {
        assert(candidates@.take(candidates@.len() as int) == candidates@);
        assert(spec_is_connected_set(board@, candidates@, connected)) by {
            assert forall|c: Coordinate| #[trigger] connected.contains(c) implies exists|i: int| 0 <= i < candidates@.len() && (#[trigger] candidates@[i]).1 == c by {
                let j = choose|j: int| 0 <= j < order@.len() && order@[j] == c;
                assert(order@.contains(c));
            }
            assert(order@.to_set() == connected);
            assert forall|i: int| 0 <= i < candidates@.len() && !connected.contains((#[trigger] candidates@[i]).1) implies !spec_touches_board(board@, candidates@[i].1)
                && forall|d: Coordinate| #[trigger] connected.contains(d) ==> !spec_is_adjacent(candidates@[i].1, d) by {
                assert(!order@.contains(candidates@[i].1));
                assert forall|d: Coordinate| #[trigger] connected.contains(d) implies !spec_is_adjacent(candidates@[i].1, d) by {
                    let j = choose|j: int| 0 <= j < order@.len() && order@[j] == d;
                }
            }
        }
    }
    (inside, outside)
}

/// Distinct coordinates taken from the plays are no more than the plays.
proof fn lemma_distinct_coordinates_bound(order: Seq<Coordinate>, candidates: Seq<PlayEntry>)
    requires
        order.no_duplicates(),
        spec_from_candidates(order, candidates),
    ensures
        order.len() <= candidates.len(),
{
    let coords = candidates.map_values(|e: PlayEntry| e.1);
    assert(order.to_set().subset_of(coords.to_set())) by {
        assert forall|c: Coordinate| order.to_set().contains(c) implies coords.to_set().contains(c) by {
            let j = choose|j: int| 0 <= j < order.len() && order[j] == c;
            let i = choose|i: int| 0 <= i < candidates.len() && (#[trigger] candidates[i]).1 == order[j];
            assert(coords[i] == c);
        }
    }
    order.unique_seq_to_set();
    coords.lemma_cardinality_of_set();
    vstd::set_lib::lemma_len_subset(order.to_set(), coords.to_set());
}

} // verus!
