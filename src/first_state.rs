use crate::consts::{
    DEFAULT_HAND_LEN, DEFAULT_UNIQUE_TILE_COPIED_COUNT, TILES_LEN, TILE_LIMIT,
};
use crate::play::{spec_first_copies, IndexedTile};
use crate::random::{random_below, shuffle_tiles};
use crate::tile::{tiles, Color, Shape, Tile};
use crate::turn::spec_total_hands_len;
use crate::types::{Bag, HandLens, Hands, MaxMatches};
use std::collections::BTreeSet;
use vstd::multiset::Multiset;
use vstd::prelude::*;

verus! {

/// The state of a game on its first turn, before any tile is on the board.
#[derive(Debug)]
pub struct FirstState {
    /// The tiles that nobody has drawn yet.
    pub bag: Bag,
    /// The hand of each player.
    pub hands: Hands,
    /// The largest number of matching tiles in each player's hand.
    pub max_matches: MaxMatches,
    /// The index of the player whose turn it is.
    pub current_player: usize,
}

/// What every player may see of a game on its first turn.
#[derive(Debug)]
pub struct FirstView<'a> {
    /// The number of tiles that nobody has drawn yet.
    pub bag_len: usize,
    /// The number of tiles in each hand.
    pub hand_lens: HandLens,
    /// The largest number of matching tiles in each player's hand.
    pub max_matches: &'a MaxMatches,
    /// The index of the player whose turn it is.
    pub current_player: usize,
}

/// A reason why a game could not be created.
#[derive(Debug, Clone, PartialEq, Eq, Hash)]
pub enum NewError {
    /// There are no players.
    EmptyPlayers,
    /// No copy of each tile goes into the bag.
    EmptyBag,
    /// Hands hold no tiles.
    EmptyHands,
    /// The hands ask for more tiles than the bag holds.
    NotEnoughTiles {
        /// The number of tiles that the hands ask for.
        requested_tiles: usize,
        /// The number of tiles in the bag.
        tiles_in_bag: usize,
    },
    /// The bag would hold more tiles than the tile limit.
    TooManyTiles {
        /// The number of tiles in the bag.
        tiles_in_bag: usize,
    },
    /// The chosen first player does not hold the most matching tiles.
    CurrentPlayerNotMaxMatchingPlayers {
        /// The chosen player.
        current_player: usize,
        /// The players who hold the most matching tiles.
        max_matching_players: BTreeSet<usize>,
    },
}

/// Number of the first `n` tiles of `u` that have color `c`.
pub open spec fn spec_count_color(u: Seq<IndexedTile>, c: Color, n: int) -> int
    decreases n,
{
    if n <= 0 {
        0
    } else {
        spec_count_color(u, c, n - 1) + if u[n - 1].1.0 == c { 1int } else { 0int }
    }
}

/// Number of the first `n` tiles of `u` that have shape `h`.
pub open spec fn spec_count_shape(u: Seq<IndexedTile>, h: Shape, n: int) -> int
    decreases n,
{
    if n <= 0 {
        0
    } else {
        spec_count_shape(u, h, n - 1) + if u[n - 1].1.1 == h { 1int } else { 0int }
    }
}

/// The largest number of tiles of `u` that share one of the first `k` colors.
pub open spec fn spec_max_color_count(u: Seq<IndexedTile>, k: int) -> int
    decreases k,
{
    if k <= 0 {
        0
    } else {
        let count = spec_count_color(u, Color::spec_from_index(k - 1), u.len() as int);
        let rest = spec_max_color_count(u, k - 1);
        if count > rest { count } else { rest }
    }
}

/// The largest number of tiles of `u` that share one of the first `k` shapes.
pub open spec fn spec_max_shape_count(u: Seq<IndexedTile>, k: int) -> int
    decreases k,
{
    if k <= 0 {
        0
    } else {
        let count = spec_count_shape(u, Shape::spec_from_index(k - 1), u.len() as int);
        let rest = spec_max_shape_count(u, k - 1);
        if count > rest { count } else { rest }
    }
}

/// The largest number of distinct tiles of `hand` that share a color or share a shape.
pub open spec fn spec_max_match(hand: Seq<Tile>) -> int {
    let u = spec_first_copies(hand, hand.len() as int);
    let colors = spec_max_color_count(u, 6);
    let shapes = spec_max_shape_count(u, 6);
    if colors > shapes { colors } else { shapes }
}

/// The reasons, each as the condition that raises it, why a game cannot be created.
pub open spec fn spec_new_error_holds(e: NewError, players_len: int, copies: int, hand_len: int) -> bool {
    match e {
        NewError::EmptyPlayers => players_len == 0,
        NewError::EmptyBag => copies == 0,
        NewError::EmptyHands => hand_len == 0,
        NewError::NotEnoughTiles { requested_tiles, tiles_in_bag } => requested_tiles == players_len * hand_len
            && tiles_in_bag == TILES_LEN * copies && requested_tiles > tiles_in_bag,
        NewError::TooManyTiles { tiles_in_bag } => tiles_in_bag == TILES_LEN * copies && tiles_in_bag > TILE_LIMIT,
        NewError::CurrentPlayerNotMaxMatchingPlayers { .. } => false,
    }
}

/// The tiles of the first `k` hands, as a multiset.
pub open spec fn spec_hands_tiles(hands: Seq<Vec<Tile>>, k: int) -> Multiset<Tile>
    decreases k,
{
    if k <= 0 {
        Multiset::empty()
    } else {
        spec_hands_tiles(hands, k - 1).add(hands[k - 1]@.to_multiset())
    }
}

/// Whether player `p` holds the most matching tiles of all.
pub open spec fn spec_is_top(max_matches: Seq<usize>, p: int) -> bool {
    forall|i: int| 0 <= i < max_matches.len() ==> #[trigger] max_matches[i] <= max_matches[p]
}

/// Whether hand `i` of `dealt` holds the most matching tiles of all.
pub open spec fn spec_is_top_hand(dealt: Seq<Seq<Tile>>, i: int) -> bool {
    forall|j: int| 0 <= j < dealt.len() ==> #[trigger] spec_max_match(dealt[j]) <= spec_max_match(dealt[i])
}

/// The players among the first `n` whose hands of `dealt` hold the most matching tiles.
pub open spec fn spec_top_hands(dealt: Seq<Seq<Tile>>, n: int) -> Set<usize> {
    Set::new(|i: usize| i < n && spec_is_top_hand(dealt, i as int))
}

/// Position of a tile in [tiles].
pub open spec fn spec_tile_index(t: Tile) -> int {
    (t.0.spec_index() * 6 + t.1.spec_index()) as int
}

proof fn lemma_tile_position(k: int)
    requires
        0 <= k < 36,
    ensures
        spec_tile_index(crate::tile::spec_tile_at(k)) == k,
        forall|t: Tile| spec_tile_index(t) == k ==> t == crate::tile::spec_tile_at(k),
{
    let c = k / 6;
    let h = k % 6;
    assert(0 <= c < 6 && 0 <= h < 6 && c * 6 + h == k) by (nonlinear_arith)
        requires 0 <= k < 36, c == k / 6, h == k % 6;
    assert(Color::spec_from_index(c).spec_index() == c);
    assert(Shape::spec_from_index(h).spec_index() == h);
    assert forall|t: Tile| spec_tile_index(t) == k implies t == crate::tile::spec_tile_at(k) by {
        crate::line::lemma_tile_index(t);
    }
}

proof fn lemma_hands_tiles_prefix(a: Seq<Vec<Tile>>, b: Seq<Vec<Tile>>, k: int)
    requires
        0 <= k <= b.len() <= a.len(),
        forall|i: int| 0 <= i < b.len() ==> a[i] == b[i],
    ensures
        spec_hands_tiles(a, k) == spec_hands_tiles(b, k),
    decreases k,
{
    if k > 0 {
        lemma_hands_tiles_prefix(a, b, k - 1);
    }
}

proof fn lemma_hands_len_prefix(a: Seq<Vec<Tile>>, b: Seq<Vec<Tile>>, k: int)
    requires
        0 <= k <= b.len() <= a.len(),
        forall|i: int| 0 <= i < b.len() ==> a[i] == b[i],
    ensures
        crate::turn::spec_hands_len(a, k) == crate::turn::spec_hands_len(b, k),
    decreases k,
{
    if k > 0 {
        lemma_hands_len_prefix(a, b, k - 1);
    }
}

/// Whether a game of `players_len` players, `copies` copies of each tile and hands of
/// `hand_len` tiles can be created.
pub open spec fn spec_new_is_valid(players_len: int, copies: int, hand_len: int) -> bool {
    players_len > 0 && copies > 0 && hand_len > 0 && players_len * hand_len <= TILES_LEN * copies
        && TILES_LEN * copies <= TILE_LIMIT
}

/// Whether `errors` is the answer to sizes that cannot make a game: every error holds and
/// every broken size rule is reported.
pub open spec fn spec_size_rejection(errors: Seq<NewError>, players_len: int, copies: int, hand_len: int) -> bool {
    &&& errors.len() > 0
    &&& forall|i: int| 0 <= i < errors.len() ==> spec_new_error_holds(#[trigger] errors[i], players_len, copies, hand_len)
    &&& players_len == 0 ==> errors.contains(NewError::EmptyPlayers)
    &&& copies == 0 ==> errors.contains(NewError::EmptyBag)
    &&& hand_len == 0 ==> errors.contains(NewError::EmptyHands)
    &&& players_len * hand_len > TILES_LEN * copies ==> errors.contains(NewError::NotEnoughTiles {
        requested_tiles: (players_len * hand_len) as usize,
        tiles_in_bag: (TILES_LEN * copies) as usize,
    })
    &&& TILES_LEN * copies > TILE_LIMIT ==> errors.contains(NewError::TooManyTiles { tiles_in_bag: (TILES_LEN * copies) as usize })
}

/// The number of tiles in each hand.
pub(crate) fn hand_lens(hands: &Hands) -> (r: HandLens)
    ensures
        r@.len() == hands@.len(),
        forall|i: int| 0 <= i < hands@.len() ==> r@[i] == (#[trigger] hands@[i])@.len(),
{
    let mut r: HandLens = Vec::new();
    let mut k: usize = 0;
    while k < hands.len()
        invariant
            k <= hands@.len(),
            r@.len() == k,
            forall|i: int| 0 <= i < k ==> r@[i] == (#[trigger] hands@[i])@.len(),
        decreases hands@.len() - k,
    {
        r.push(hands[k].len());
        k = k + 1;
    }
    r
}

fn count_color(u: &Vec<IndexedTile>, c: Color) -> (r: usize)
    ensures
        r == spec_count_color(u@, c, u@.len() as int),
{
    let mut r: usize = 0;
    let mut k: usize = 0;
    while k < u.len()
        invariant
            k <= u@.len(),
            r == spec_count_color(u@, c, k as int),
            r <= k,
        decreases u@.len() - k,
    {
        if u[k].1.0 == c {
            r = r + 1;
        }
        k = k + 1;
    }
    r
}

fn count_shape(u: &Vec<IndexedTile>, h: Shape) -> (r: usize)
    ensures
        r == spec_count_shape(u@, h, u@.len() as int),
{
    let mut r: usize = 0;
    let mut k: usize = 0;
    while k < u.len()
        invariant
            k <= u@.len(),
            r == spec_count_shape(u@, h, k as int),
            r <= k,
        decreases u@.len() - k,
    {
        if u[k].1.1 == h {
            r = r + 1;
        }
        k = k + 1;
    }
    r
}

/// The largest number of distinct tiles of `hand` that share a color or share a shape.
pub fn max_match(hand: &Vec<Tile>) -> (r: usize)
    ensures
        r == spec_max_match(hand@),
{
    let u = crate::play::first_copies(hand);
    let colors = Color::colors();
    let shapes = Shape::shapes();
    let mut best_color: usize = 0;
    let mut k: usize = 0;
    while k < 6
        invariant
            k <= 6,
            u@ == spec_first_copies(hand@, hand@.len() as int),
            forall|j: int| 0 <= j < 6 ==> (#[trigger] colors@[j]) == Color::spec_from_index(j),
            best_color == spec_max_color_count(u@, k as int),
        decreases 6 - k,
    {
        let count = count_color(&u, colors[k]);
        if count > best_color {
            best_color = count;
        }
        k = k + 1;
    }
    let mut best_shape: usize = 0;
    let mut k: usize = 0;
    while k < 6
        invariant
            k <= 6,
            u@ == spec_first_copies(hand@, hand@.len() as int),
            forall|j: int| 0 <= j < 6 ==> (#[trigger] shapes@[j]) == Shape::spec_from_index(j),
            best_shape == spec_max_shape_count(u@, k as int),
        decreases 6 - k,
    {
        let count = count_shape(&u, shapes[k]);
        if count > best_shape {
            best_shape = count;
        }
        k = k + 1;
    }
    if best_color > best_shape {
        best_color
    } else {
        best_shape
    }
}

impl FirstState {
    /// Whether the state can take its first turn: the current player is a player, each
    /// player has a largest match, and no hand holds more tiles than a game may have.
    pub open spec fn wf(&self) -> bool {
        &&& self.current_player < self.hands@.len()
        &&& self.max_matches@.len() == self.hands@.len()
        &&& forall|i: int| 0 <= i < self.hands@.len() ==> (#[trigger] self.hands@[i])@.len() <= TILE_LIMIT
    }

    /// Number of tiles in the bag and the hands together.
    pub open spec fn spec_tile_count(&self) -> int {
        self.bag@.len() + spec_total_hands_len(self.hands@)
    }

    /// Checks the sizes that a game is asked for: some players, some copies of each tile,
    /// some tiles in each hand, no more tiles in the hands than in the bag, and no more tiles
    /// in the bag than the tile limit. Every broken rule is reported.
    fn check(players_len: usize, unique_tile_copied_count: usize, hand_len: usize) -> (r: Result<(), Vec<NewError>>)
        requires
            players_len * hand_len <= usize::MAX,
            TILES_LEN * unique_tile_copied_count <= usize::MAX,
        ensures
            match r {
                Ok(()) => spec_new_is_valid(players_len as int, unique_tile_copied_count as int, hand_len as int),
                Err(errors) => !spec_new_is_valid(players_len as int, unique_tile_copied_count as int, hand_len as int)
                    && spec_size_rejection(errors@, players_len as int, unique_tile_copied_count as int, hand_len as int),
            },
    {
        let mut errors: Vec<NewError> = Vec::new();
        if players_len == 0 {
            errors.push(NewError::EmptyPlayers);
        }
        let ghost at_players = errors@.len() - 1;
        if unique_tile_copied_count == 0 {
            errors.push(NewError::EmptyBag);
        }
        let ghost at_bag = errors@.len() - 1;
        if hand_len == 0 {
            errors.push(NewError::EmptyHands);
        }
        let ghost at_hands = errors@.len() - 1;
        let requested_tiles = players_len * hand_len;
        let tiles_in_bag = TILES_LEN * unique_tile_copied_count;
        if requested_tiles > tiles_in_bag {
            errors.push(NewError::NotEnoughTiles { requested_tiles, tiles_in_bag });
        }
        let ghost at_not_enough = errors@.len() - 1;
        if tiles_in_bag > TILE_LIMIT {
            errors.push(NewError::TooManyTiles { tiles_in_bag });
        }
        let ghost at_too_many = errors@.len() - 1;
        if errors.len() > 0 {
            proof {
                if players_len == 0 {
                    assert(errors@[at_players] == NewError::EmptyPlayers);
                    assert(errors@.contains(NewError::EmptyPlayers));
                }
                if unique_tile_copied_count == 0 {
                    assert(errors@[at_bag] == NewError::EmptyBag);
                    assert(errors@.contains(NewError::EmptyBag));
                }
                if hand_len == 0 {
                    assert(errors@[at_hands] == NewError::EmptyHands);
                    assert(errors@.contains(NewError::EmptyHands));
                }
                if requested_tiles > tiles_in_bag {
                    assert(errors@[at_not_enough] == NewError::NotEnoughTiles { requested_tiles, tiles_in_bag });
                    assert(errors@.contains(NewError::NotEnoughTiles { requested_tiles, tiles_in_bag }));
                }
                if tiles_in_bag > TILE_LIMIT {
                    assert(errors@[at_too_many] == NewError::TooManyTiles { tiles_in_bag });
                    assert(errors@.contains(NewError::TooManyTiles { tiles_in_bag }));
                }
                assert(spec_new_error_holds(errors@[0], players_len as int, unique_tile_copied_count as int, hand_len as int));
            }
            return Err(errors);
        }
        Ok(())
    }

    /// Makes a shuffled bag with `unique_tile_copied_count` copies of each distinct tile, then
    /// deals `hand_len` tiles from its end to each of `players_len` hands.
    fn new_bag_and_hands(players_len: usize, unique_tile_copied_count: usize, hand_len: usize) -> (r: (Bag, Hands))
        requires
            players_len * hand_len <= TILES_LEN * unique_tile_copied_count <= TILE_LIMIT,
        ensures
            r.0@.len() == TILES_LEN * unique_tile_copied_count - players_len * hand_len,
            r.1@.len() == players_len,
            forall|i: int| 0 <= i < players_len ==> (#[trigger] r.1@[i])@.len() == hand_len,
            spec_total_hands_len(r.1@) == players_len * hand_len,
            forall|t: Tile| #[trigger] r.0@.to_multiset().add(spec_hands_tiles(r.1@, r.1@.len() as int)).count(t)
                == unique_tile_copied_count,
    {
        let all_tiles = tiles();
        let mut bag: Bag = Vec::new();
        proof {
            broadcast use vstd::seq_lib::group_to_multiset_ensures;
            assert(bag@.to_multiset() =~= Multiset::empty());
        }
        let mut k: usize = 0;
        while k < all_tiles.len()
            invariant
                k <= all_tiles@.len() == TILES_LEN,
                TILES_LEN * unique_tile_copied_count <= TILE_LIMIT,
                bag@.len() == k * unique_tile_copied_count,
                forall|i: int| 0 <= i < TILES_LEN ==> (#[trigger] all_tiles@[i]) == crate::tile::spec_tile_at(i),
                forall|t: Tile| #[trigger] bag@.to_multiset().count(t) == if spec_tile_index(t) < k { unique_tile_copied_count as nat } else { 0 },
            decreases all_tiles@.len() - k,
        {
            let mut copies: usize = 0;
            while copies < unique_tile_copied_count
                invariant
                    k < TILES_LEN,
                    all_tiles@.len() == TILES_LEN,
                    copies <= unique_tile_copied_count,
                    TILES_LEN * unique_tile_copied_count <= TILE_LIMIT,
                    bag@.len() == k * unique_tile_copied_count + copies,
                    forall|i: int| 0 <= i < TILES_LEN ==> (#[trigger] all_tiles@[i]) == crate::tile::spec_tile_at(i),
                    forall|t: Tile| #[trigger] bag@.to_multiset().count(t) == if spec_tile_index(t) < k {
                        unique_tile_copied_count as nat
                    } else if spec_tile_index(t) == k {
                        copies as nat
                    } else {
                        0
                    },
                decreases unique_tile_copied_count - copies,
            {
                proof {
                    lemma_tile_position(k as int);
                }
                let ghost before = bag@;
                proof {
                    assert(k * unique_tile_copied_count + copies < TILES_LEN * unique_tile_copied_count) by (nonlinear_arith)
                        requires k < TILES_LEN, copies < unique_tile_copied_count;
                }
                bag.push(all_tiles[k]);
                proof {
                    broadcast use vstd::seq_lib::group_to_multiset_ensures;
                    assert(bag@ == before.push(all_tiles@[k as int]));
                    assert forall|t: Tile| #[trigger] bag@.to_multiset().count(t) == if spec_tile_index(t) < k {
                        unique_tile_copied_count as nat
                    } else if spec_tile_index(t) == k {
                        (copies + 1) as nat
                    } else {
                        0
                    } by {
                        assert(bag@.to_multiset() == before.to_multiset().insert(all_tiles@[k as int]));
                        if t == all_tiles@[k as int] {
                            assert(spec_tile_index(t) == k);
                        } else {
                            assert(spec_tile_index(t) != k);
                        }
                    }
                }
                copies = copies + 1;
            }
            proof {
                assert((k + 1) * unique_tile_copied_count == k * unique_tile_copied_count + unique_tile_copied_count) by (nonlinear_arith);
            }
            k = k + 1;
        }
        proof {
            assert forall|t: Tile| #[trigger] bag@.to_multiset().count(t) == unique_tile_copied_count by {
                crate::line::lemma_tile_index(t);
                assert(t.0.spec_index() < 6 && t.1.spec_index() < 6) by {
                    match t.0 {
                        Color::Red => {},
                        Color::Orange => {},
                        Color::Yellow => {},
                        Color::Green => {},
                        Color::Blue => {},
                        Color::Purple => {},
                    }
                    match t.1 {
                        Shape::Circle => {},
                        Shape::Clover => {},
                        Shape::Diamond => {},
                        Shape::Square => {},
                        Shape::Starburst => {},
                        Shape::X => {},
                    }
                }
            }
        }
        let ghost full = bag@.to_multiset();
        shuffle_tiles(&mut bag);
        let total = players_len * hand_len;
        let ghost shuffled = bag@;
        let mut dealt = bag.split_off(bag.len() - total);
        proof {
            broadcast use vstd::seq_lib::lemma_multiset_commutative;
            assert(shuffled == bag@ + dealt@);
            assert(bag@.to_multiset().add(dealt@.to_multiset()) =~= full);
        }
        let ghost dealt_tiles = dealt@.to_multiset();
        let mut hands: Hands = Vec::new();
        let mut player: usize = 0;
        while player < players_len
            invariant
                player <= players_len,
                players_len * hand_len <= TILE_LIMIT,
                hands@.len() == player,
                forall|i: int| 0 <= i < player ==> (#[trigger] hands@[i])@.len() == hand_len,
                spec_total_hands_len(hands@) == player * hand_len,
                dealt@.len() == (players_len - player) * hand_len,
                dealt@.to_multiset().add(spec_hands_tiles(hands@, hands@.len() as int)) =~= dealt_tiles,
            decreases players_len - player,
        {
            proof {
                assert((players_len - player) * hand_len == (players_len - player - 1) * hand_len + hand_len) by (nonlinear_arith)
                    requires player < players_len;
            }
            let ghost whole = dealt@;
            let rest = dealt.split_off(hand_len);
            let ghost before = hands@;
            proof {
                broadcast use vstd::seq_lib::lemma_multiset_commutative;
                assert(whole == dealt@ + rest@);
                assert(whole.to_multiset() =~= dealt@.to_multiset().add(rest@.to_multiset()));
            }
            let ghost hand_tiles = dealt@.to_multiset();
            hands.push(dealt);
            proof {
                lemma_hands_tiles_prefix(hands@, before, before.len() as int);
                assert(spec_hands_tiles(hands@, hands@.len() as int) == spec_hands_tiles(before, before.len() as int).add(hand_tiles));
                assert(rest@.to_multiset().add(spec_hands_tiles(hands@, hands@.len() as int)) =~= dealt_tiles);
            }
            proof {
                assert(hands@.drop_last() == before);
                assert(spec_total_hands_len(hands@) == spec_total_hands_len(before) + hand_len) by {
                    assert(crate::turn::spec_hands_len(hands@, before.len() as int) == crate::turn::spec_hands_len(before, before.len() as int)) by {
                        lemma_hands_len_prefix(hands@, before, before.len() as int);
                    }
                }
                assert((player + 1) * hand_len == player * hand_len + hand_len) by (nonlinear_arith);
            }
            dealt = rest;
            player = player + 1;
        }
        proof {
            assert(dealt@.len() == 0) by (nonlinear_arith)
                requires dealt@.len() == (players_len - player) * hand_len, player == players_len;
            assert(dealt@ =~= Seq::<Tile>::empty());
            broadcast use vstd::seq_lib::group_to_multiset_ensures;
            assert(dealt@.to_multiset() =~= Multiset::empty());
            assert(spec_hands_tiles(hands@, hands@.len() as int) =~= dealt_tiles);
            assert forall|t: Tile| #[trigger] bag@.to_multiset().add(spec_hands_tiles(hands@, hands@.len() as int)).count(t)
                == unique_tile_copied_count by {
                assert(full.count(t) == unique_tile_copied_count);
            }
        }
        (bag, hands)
    }

    /// Finds each player's largest number of matching tiles, and the players whose number is
    /// the largest of all.
    fn new_max_matches_and_max_matching_players(hands: &Hands) -> (r: (MaxMatches, Vec<usize>))
        ensures
            r.0@.len() == hands@.len(),
            forall|i: int| 0 <= i < hands@.len() ==> r.0@[i] == spec_max_match((#[trigger] hands@[i])@),
            hands@.len() > 0 ==> r.1@.len() > 0,
            forall|m: int| 0 <= m < r.1@.len() ==> (#[trigger] r.1@[m]) < hands@.len()
                && forall|i: int| 0 <= i < hands@.len() ==> #[trigger] r.0@[i] <= r.0@[r.1@[m] as int],
            forall|m: int, n: int| 0 <= m < n < r.1@.len() ==> #[trigger] r.1@[m] < #[trigger] r.1@[n],
            forall|p: usize| p < hands@.len() && #[trigger] spec_is_top(r.0@, p as int) ==> r.1@.contains(p),
    {
        let mut max_matches: MaxMatches = Vec::new();
        let mut best: usize = 0;
        let ghost mut at: int = 0;
        let mut k: usize = 0;
        while k < hands.len()
            invariant
                k <= hands@.len(),
                max_matches@.len() == k,
                forall|i: int| 0 <= i < k ==> max_matches@[i] == spec_max_match((#[trigger] hands@[i])@),
                forall|i: int| 0 <= i < k ==> max_matches@[i] <= best,
                k > 0 ==> 0 <= at < k && max_matches@[at] == best,
            decreases hands@.len() - k,
        {
            let m = max_match(&hands[k]);
            max_matches.push(m);
            if m > best || k == 0 {
                best = m;
                proof {
                    at = k as int;
                }
            }
            k = k + 1;
        }
        let mut players: Vec<usize> = Vec::new();
        let mut k: usize = 0;
        while k < max_matches.len()
            invariant
                k <= max_matches@.len() == hands@.len(),
                forall|i: int| 0 <= i < hands@.len() ==> max_matches@[i] <= best,
                hands@.len() > 0 ==> exists|i: int| 0 <= i < hands@.len() && max_matches@[i] == best,
                forall|m: int| 0 <= m < players@.len() ==> (#[trigger] players@[m]) < k && max_matches@[players@[m] as int] == best,
                forall|m: int, n: int| 0 <= m < n < players@.len() ==> #[trigger] players@[m] < #[trigger] players@[n],
                forall|p: int| 0 <= p < k && max_matches@[p] == best ==> exists|m: int| 0 <= m < players@.len() && #[trigger] players@[m] == p,
            decreases max_matches@.len() - k,
        {
            let ghost before = players@;
            if max_matches[k] == best {
                players.push(k);
            }
            proof {
                assert forall|p: int| 0 <= p < k + 1 && max_matches@[p] == best implies exists|m: int| 0 <= m < players@.len() && #[trigger] players@[m] == p by {
                    if p < k {
                        let m = choose|m: int| 0 <= m < before.len() && #[trigger] before[m] == p;
                        assert(players@[m] == p);
                    } else {
                        assert(players@[players@.len() - 1] == p);
                    }
                }
            }
            k = k + 1;
        }
        proof {
          if hands@.len() > 0 {
            let i = choose|i: int| 0 <= i < hands@.len() && max_matches@[i] == best;
            let m = choose|m: int| 0 <= m < players@.len() && #[trigger] players@[m] == i;
            assert forall|p: usize| p < hands@.len() && #[trigger] spec_is_top(max_matches@, p as int) implies players@.contains(p) by {
                assert(max_matches@[i] <= max_matches@[p as int]);
                let m = choose|m: int| 0 <= m < players@.len() && #[trigger] players@[m] == p as int;
                assert(players@[m] == p);
            }
          }
        }
        (max_matches, players)
    }

    /// Creates a game: a shuffled bag of `unique_tile_copied_count` copies of each distinct
    /// tile (by default three), and a hand of `hand_len` tiles (by default six) dealt to each of
    /// `players_len` players. The first player is one of those who hold the most matching
    /// tiles, chosen by `first_player_selector` from the set of them.
    pub fn new(
        players_len: usize,
        unique_tile_copied_count: Option<usize>,
        hand_len: Option<usize>,
        first_player_selector: impl FnOnce(&BTreeSet<usize>) -> usize,
    ) -> (r: Result<FirstState, Vec<NewError>>)
        requires
            forall|players: &BTreeSet<usize>| first_player_selector.requires((players,)),
            ({
                let copies = match unique_tile_copied_count { Some(n) => n as int, None => DEFAULT_UNIQUE_TILE_COPIED_COUNT as int };
                let hand = match hand_len { Some(n) => n as int, None => DEFAULT_HAND_LEN as int };
                players_len * hand <= usize::MAX && TILES_LEN * copies <= usize::MAX
            }),
        ensures
            ({
                let copies = match unique_tile_copied_count { Some(n) => n as int, None => DEFAULT_UNIQUE_TILE_COPIED_COUNT as int };
                let hand = match hand_len { Some(n) => n as int, None => DEFAULT_HAND_LEN as int };
                let valid = spec_new_is_valid(players_len as int, copies, hand);
                &&& !valid ==> r is Err && spec_size_rejection(r->Err_0@, players_len as int, copies, hand)
                &&& valid ==> exists|top: BTreeSet<usize>, chosen: usize| {
                    &&& #[trigger] first_player_selector.ensures((&top,), chosen)
                    &&& exists|i: usize| #[trigger] top@.contains(i)
                    &&& exists|dealt: Seq<Seq<Tile>>| {
                        &&& dealt.len() == players_len
                        &&& forall|i: int| 0 <= i < players_len ==> (#[trigger] dealt[i]).len() == hand
                        &&& #[trigger] spec_top_hands(dealt, players_len as int) == top@
                    }
                    &&& (top@.contains(chosen) <==> r is Ok)
                    &&& r is Err ==> r->Err_0@ == seq![NewError::CurrentPlayerNotMaxMatchingPlayers {
                        current_player: chosen,
                        max_matching_players: top,
                    }]
                    &&& r is Ok ==> {
                        let state = r->Ok_0;
                        &&& state.current_player == chosen
                        &&& top@ == Set::new(|i: usize| i < players_len && spec_is_top(state.max_matches@, i as int))
                        &&& state.wf()
                        &&& state.hands@.len() == players_len
                        &&& forall|i: int| 0 <= i < players_len ==> (#[trigger] state.hands@[i])@.len() == hand
                        &&& state.spec_tile_count() == TILES_LEN * copies
                        &&& forall|t: Tile| #[trigger] state.bag@.to_multiset().add(spec_hands_tiles(state.hands@, players_len as int)).count(t) == copies
                        &&& forall|i: int| 0 <= i < players_len ==> state.max_matches@[i] == spec_max_match((#[trigger] state.hands@[i])@)
                    }
                }
            }),
    {
        let unique_tile_copied_count = match unique_tile_copied_count {
            Some(n) => n,
            None => DEFAULT_UNIQUE_TILE_COPIED_COUNT,
        };
        let hand_len = match hand_len {
            Some(n) => n,
            None => DEFAULT_HAND_LEN,
        };
        match FirstState::check(players_len, unique_tile_copied_count, hand_len) {
            Err(errors) => {
                return Err(errors);
            },
            Ok(()) => {},
        }
        let (bag, hands) = FirstState::new_bag_and_hands(players_len, unique_tile_copied_count, hand_len);
        let (max_matches, players) = FirstState::new_max_matches_and_max_matching_players(&hands);
        let mut max_matching_players: BTreeSet<usize> = BTreeSet::new();
        let mut k: usize = 0;
        while k < players.len()
            invariant
                k <= players@.len(),
                forall|x: usize| #[trigger] max_matching_players@.contains(x) <==> exists|m: int| 0 <= m < k && players@[m] == x,
            decreases players@.len() - k,
        {
            max_matching_players.insert(players[k]);
            proof {
                assert forall|x: usize| #[trigger] max_matching_players@.contains(x) <==> exists|m: int| 0 <= m < k + 1 && players@[m] == x by {
                    if x == players@[k as int] {
                        assert(players@[k as int] == x);
                    }
                }
            }
            k = k + 1;
        }
        proof {
            assert forall|x: usize| #[trigger] max_matching_players@.contains(x) <==> x < players_len && spec_is_top(max_matches@, x as int) by {
                if max_matching_players@.contains(x) {
                    let m = choose|m: int| 0 <= m < players@.len() && players@[m] == x;
                    assert(players@[m] < hands@.len());
                }
                if x < players_len && spec_is_top(max_matches@, x as int) {
                    assert(players@.contains(x));
                    let m = choose|m: int| 0 <= m < players@.len() && players@[m] == x;
                }
            }
            assert(players@[0] < players_len && spec_is_top(max_matches@, players@[0] as int));
            assert(max_matching_players@.contains(players@[0]));
        }
        let ghost top = max_matching_players;
        proof {
            let dealt = hands@.map_values(|h: Vec<Tile>| h@);
            assert forall|i: usize| spec_top_hands(dealt, players_len as int).contains(i) <==> top@.contains(i) by {
                if i < players_len {
                    assert(spec_is_top_hand(dealt, i as int) <==> spec_is_top(max_matches@, i as int)) by {
                        assert forall|j: int| 0 <= j < players_len implies max_matches@[j] == spec_max_match(#[trigger] dealt[j]) by {
                            assert(dealt[j] == hands@[j]@);
                        }
                        if spec_is_top_hand(dealt, i as int) {
                            assert forall|j: int| 0 <= j < max_matches@.len() implies #[trigger] max_matches@[j] <= max_matches@[i as int] by {
                                assert(spec_max_match(dealt[j]) <= spec_max_match(dealt[i as int]));
                            }
                        }
                        if spec_is_top(max_matches@, i as int) {
                            assert forall|j: int| 0 <= j < dealt.len() implies #[trigger] spec_max_match(dealt[j]) <= spec_max_match(dealt[i as int]) by {
                                assert(max_matches@[j] <= max_matches@[i as int]);
                            }
                        }
                    }
                }
            }
            assert(spec_top_hands(dealt, players_len as int) =~= top@);
            assert forall|i: int| 0 <= i < players_len implies (#[trigger] dealt[i]).len() == hand_len by {
                assert(dealt[i] == hands@[i]@);
            }
        }
        let current_player = first_player_selector(&max_matching_players);
        let mut chosen = false;
        let mut k: usize = 0;
        while k < players.len()
            invariant
                k <= players@.len(),
                chosen == exists|m: int| 0 <= m < k && players@[m] == current_player,
            decreases players@.len() - k,
        {
            if players[k] == current_player {
                chosen = true;
            }
            k = k + 1;
        }
        if !chosen {
            let mut errors: Vec<NewError> = Vec::new();
            errors.push(NewError::CurrentPlayerNotMaxMatchingPlayers { current_player, max_matching_players });
            proof {
                assert(!top@.contains(current_player));
                assert(errors@ =~= seq![NewError::CurrentPlayerNotMaxMatchingPlayers {
                    current_player,
                    max_matching_players: top,
                }]);
            }
            return Err(errors);
        }
        let state = FirstState { bag, hands, max_matches, current_player };
        proof {
            let m = choose|m: int| 0 <= m < players@.len() && players@[m] == current_player;
            assert(players@[m] == current_player);
            assert(hand_len <= players_len * hand_len) by (nonlinear_arith)
                requires players_len >= 1;
            assert(top@.contains(current_player));
            assert(top@ =~= Set::new(|i: usize| i < players_len && spec_is_top(state.max_matches@, i as int)));
        }
        Ok(state)
    }

    /// Creates a game as [FirstState::new] does, with a first player chosen at random among
    /// those who hold the most matching tiles.
    pub fn new_random_first_player(
        players_len: usize,
        unique_tile_copied_count: Option<usize>,
        hand_len: Option<usize>,
    ) -> (r: Result<FirstState, Vec<NewError>>)
        requires
            ({
                let copies = match unique_tile_copied_count { Some(n) => n as int, None => DEFAULT_UNIQUE_TILE_COPIED_COUNT as int };
                let hand = match hand_len { Some(n) => n as int, None => DEFAULT_HAND_LEN as int };
                players_len * hand <= usize::MAX && TILES_LEN * copies <= usize::MAX
            }),
        ensures
            ({
                let copies = match unique_tile_copied_count { Some(n) => n as int, None => DEFAULT_UNIQUE_TILE_COPIED_COUNT as int };
                let hand = match hand_len { Some(n) => n as int, None => DEFAULT_HAND_LEN as int };
                let valid = players_len > 0 && copies > 0 && hand > 0 && players_len * hand <= TILES_LEN * copies
                    && TILES_LEN * copies <= TILE_LIMIT;
                &&& valid <==> r is Ok
                &&& !valid ==> spec_size_rejection(r->Err_0@, players_len as int, copies, hand)
                &&& r is Ok ==> {
                    let state = r->Ok_0;
                    &&& state.wf()
                    &&& state.hands@.len() == players_len
                    &&& forall|i: int| 0 <= i < players_len ==> (#[trigger] state.hands@[i])@.len() == hand
                    &&& state.spec_tile_count() == TILES_LEN * copies
                    &&& forall|t: Tile| #[trigger] state.bag@.to_multiset().add(spec_hands_tiles(state.hands@, players_len as int)).count(t) == copies
                    &&& forall|i: int| 0 <= i < players_len ==> state.max_matches@[i] == spec_max_match((#[trigger] state.hands@[i])@)
                    &&& forall|i: int| 0 <= i < players_len ==> #[trigger] state.max_matches@[i] <= state.max_matches@[state.current_player as int]
                }
            }),
    {
        let copies = match unique_tile_copied_count {
            Some(n) => n,
            None => DEFAULT_UNIQUE_TILE_COPIED_COUNT,
        };
        let hand = match hand_len {
            Some(n) => n,
            None => DEFAULT_HAND_LEN,
        };
        match FirstState::check(players_len, copies, hand) {
            Err(errors) => {
                return Err(errors);
            },
            Ok(()) => {},
        }
        let (bag, hands) = FirstState::new_bag_and_hands(players_len, copies, hand);
        let (max_matches, players) = FirstState::new_max_matches_and_max_matching_players(&hands);
        let current_player = players[random_below(players.len())];
        proof {
            assert(hand <= players_len * hand) by (nonlinear_arith)
                requires players_len >= 1;
        }
        Ok(FirstState { bag, hands, max_matches, current_player })
    }

    /// The index of the player whose turn it is.
    pub fn current_player(&self) -> (r: usize)
        ensures
            r == self.current_player,
    {
        self.current_player
    }

    /// What every player may see of the game: the bag and the hands only by their sizes.
    pub fn first_view(&self) -> (r: FirstView<'_>)
        ensures
            r.bag_len == self.bag@.len(),
            r.hand_lens@.len() == self.hands@.len(),
            forall|i: int| 0 <= i < self.hands@.len() ==> r.hand_lens@[i] == (#[trigger] self.hands@[i])@.len(),
            r.max_matches == &self.max_matches,
            r.current_player == self.current_player,
    {
        FirstView {
            bag_len: self.bag.len(),
            hand_lens: hand_lens(&self.hands),
            max_matches: &self.max_matches,
            current_player: self.current_player,
        }
    }

    /// The hand of player `index`, or [None] when there is no such player.
    pub fn get_hand(&self, index: usize) -> (r: Option<&Vec<Tile>>)
        ensures
            index < self.hands@.len() <==> r is Some,
            r is Some ==> *r->0 == self.hands@[index as int],
    {
        if index < self.hands.len() {
            Some(&self.hands[index])
        } else {
            None
        }
    }

    /// A state with no tiles and no players, whose current player is `0`.
    pub fn empty_first_state() -> (r: FirstState)
        ensures
            r.bag@.len() == 0,
            r.hands@.len() == 0,
            r.max_matches@.len() == 0,
            r.current_player == 0,
    {
        FirstState { bag: Vec::new(), hands: Vec::new(), max_matches: Vec::new(), current_player: 0 }
    }

    /// The bag, for changing it.
    pub fn mut_bag(&mut self) -> (r: &mut Bag)
        ensures
            *r == old(self).bag,
            *final(self) == (FirstState { bag: *final(r), ..*old(self) }),
    {
        &mut self.bag
    }

    /// The hands, for changing them.
    pub fn mut_hands(&mut self) -> (r: &mut Hands)
        ensures
            *r == old(self).hands,
            *final(self) == (FirstState { hands: *final(r), ..*old(self) }),
    {
        &mut self.hands
    }

    /// The largest matches, for changing them.
    pub fn mut_max_matches(&mut self) -> (r: &mut MaxMatches)
        ensures
            *r == old(self).max_matches,
            *final(self) == (FirstState { max_matches: *final(r), ..*old(self) }),
    {
        &mut self.max_matches
    }

    /// The index of the current player, for changing it.
    pub fn mut_current_player(&mut self) -> (r: &mut usize)
        ensures
            *r == old(self).current_player,
            *final(self) == (FirstState { current_player: *final(r), ..*old(self) }),
    {
        &mut self.current_player
    }

    /// Sets each player's largest match to the number of tiles in their hand.
    pub fn max_matches_to_hand_len(&mut self)
        requires
            old(self).max_matches@.len() == old(self).hands@.len(),
        ensures
            final(self).max_matches@.len() == old(self).hands@.len(),
            forall|i: int| 0 <= i < old(self).hands@.len() ==> final(self).max_matches@[i] == (#[trigger] old(self).hands@[i])@.len(),
            final(self).bag == old(self).bag,
            final(self).hands == old(self).hands,
            final(self).current_player == old(self).current_player,
    {
        self.max_matches = hand_lens(&self.hands);
    }
}

} // verus!
