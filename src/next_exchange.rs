use crate::next_state::{spec_has_ended, NextState};
use crate::random::random_below;
use crate::tile::Tile;
use crate::turn::{lemma_hands_len_update, spec_total_hands_len};
use crate::types::Exchanges;
use std::collections::BTreeSet;
use vstd::prelude::*;
use vstd::std_specs::iter::IteratorSpec;

verus! {

broadcast use vstd::laws_cmp::group_laws_cmp;

/// A reason why an exchange was rejected.
#[derive(Debug, Clone, PartialEq, Eq, Hash)]
pub enum NextExchangeError {
    /// The game has ended.
    HasEnded,
    /// No tile is exchanged.
    EmptyTiles,
    /// Some indexes name tiles that are not in the current player's hand.
    IndexesOutOfBounds {
        /// The indexes that are at least the length of the hand.
        illegal_exchanges: Exchanges,
        /// The length of the current player's hand.
        hand_len: usize,
    },
    /// No index names a tile of the hand.
    NoLegalTiles,
    /// More tiles are exchanged than the bag holds.
    NotEnoughTiles {
        /// The number of indexes that name tiles of the hand.
        legal_exchanges: usize,
        /// The number of tiles in the bag.
        bag_len: usize,
    },
}

/// Number of indexes of `e` that name a tile of a hand of `n`: all but those of `n` or more.
pub open spec fn spec_legal_count(e: Set<usize>, n: int) -> int {
    e.len() - e.filter(|i: usize| i >= n).len()
}

/// Whether a rejected exchange of `e` reports `err`, and `err` says what it should.
pub open spec fn spec_exchange_error_holds(err: NextExchangeError, e: Set<usize>, ended: bool, hand_len: int, bag_len: int) -> bool {
    match err {
        NextExchangeError::HasEnded => ended,
        NextExchangeError::EmptyTiles => e.len() == 0,
        NextExchangeError::IndexesOutOfBounds { illegal_exchanges, hand_len: n } => e.len() > 0 && n == hand_len
            && illegal_exchanges@ == e.filter(|i: usize| i >= hand_len) && !illegal_exchanges@.is_empty(),
        NextExchangeError::NoLegalTiles => e.len() > 0 && spec_legal_count(e, hand_len) == 0,
        NextExchangeError::NotEnoughTiles { legal_exchanges, bag_len: b } => e.len() > 0 && b == bag_len
            && legal_exchanges == spec_legal_count(e, hand_len) && 0 < legal_exchanges && legal_exchanges > bag_len,
    }
}

/// Position of the kind of `e` in the declaration of [NextExchangeError].
pub open spec fn spec_exchange_kind(e: NextExchangeError) -> int {
    match e {
        NextExchangeError::HasEnded => 0,
        NextExchangeError::EmptyTiles => 1,
        NextExchangeError::IndexesOutOfBounds { .. } => 2,
        NextExchangeError::NoLegalTiles => 3,
        NextExchangeError::NotEnoughTiles { .. } => 4,
    }
}

/// Whether the kinds of `errors` strictly increase and stay below `hi`.
pub open spec fn spec_exchange_kinds_below(errors: Seq<NextExchangeError>, hi: int) -> bool {
    &&& forall|i: int, j: int| 0 <= i < j < errors.len() ==> spec_exchange_kind(#[trigger] errors[i]) < spec_exchange_kind(#[trigger] errors[j])
    &&& forall|i: int| 0 <= i < errors.len() ==> #[trigger] spec_exchange_kind(errors[i]) < hi
}

proof fn lemma_push_exchange(before: Seq<NextExchangeError>, x: NextExchangeError)
    requires
        spec_exchange_kinds_below(before, spec_exchange_kind(x)),
    ensures
        spec_exchange_kinds_below(before.push(x), spec_exchange_kind(x) + 1),
{
    let after = before.push(x);
    assert forall|i: int, j: int| 0 <= i < j < after.len() implies spec_exchange_kind(#[trigger] after[i]) < spec_exchange_kind(#[trigger] after[j]) by {
        assert(after[i] == before[i]);
        if j < before.len() {
            assert(after[j] == before[j]);
        }
    }
    assert forall|i: int| 0 <= i < after.len() implies #[trigger] spec_exchange_kind(after[i]) < spec_exchange_kind(x) + 1 by {
        if i < before.len() {
            assert(after[i] == before[i]);
        }
    }
}

proof fn lemma_exchange_distinct(errors: Seq<NextExchangeError>, hi: int)
    requires
        spec_exchange_kinds_below(errors, hi),
    ensures
        errors.no_duplicates(),
{
    assert forall|i: int, j: int| 0 <= i < errors.len() && 0 <= j < errors.len() && i != j implies errors[i] != errors[j] by {
        if i < j {
            assert(spec_exchange_kind(errors[i]) < spec_exchange_kind(errors[j]));
        } else {
            assert(spec_exchange_kind(errors[j]) < spec_exchange_kind(errors[i]));
        }
    }
}

/// Whether an exchange of `e` breaks no rule.
pub open spec fn spec_exchange_is_legal(e: Set<usize>, ended: bool, hand_len: int, bag_len: int) -> bool {
    !ended && e.len() > 0 && e.filter(|i: usize| i >= hand_len).is_empty() && 0 < spec_legal_count(e, hand_len) <= bag_len
}

/// Whether `errors` holds an error of each kind whose condition is `kinds`.
pub open spec fn spec_exchange_rejection(errors: Seq<NextExchangeError>, e: Set<usize>, ended: bool, hand_len: int, bag_len: int) -> bool {
    let legal = spec_legal_count(e, hand_len);
    &&& !spec_exchange_is_legal(e, ended, hand_len, bag_len)
    &&& errors.no_duplicates()
    &&& forall|i: int| 0 <= i < errors.len() ==> spec_exchange_error_holds(#[trigger] errors[i], e, ended, hand_len, bag_len)
    &&& ended ==> errors.contains(NextExchangeError::HasEnded)
    &&& e.len() == 0 ==> errors.contains(NextExchangeError::EmptyTiles)
    &&& e.len() > 0 && !e.filter(|i: usize| i >= hand_len).is_empty() ==> exists|i: int|
        0 <= i < errors.len() && (#[trigger] errors[i]) is IndexesOutOfBounds
    &&& e.len() > 0 && legal == 0 ==> errors.contains(NextExchangeError::NoLegalTiles)
    &&& e.len() > 0 && 0 < legal && legal > bag_len ==> exists|i: int|
        0 <= i < errors.len() && (#[trigger] errors[i]) is NotEnoughTiles
}

/// The hand without the tiles at the positions of `indexes`, taken out from the last one.
pub open spec fn spec_without(hand: Seq<Tile>, indexes: Seq<usize>) -> Seq<Tile>
    decreases indexes.len(),
{
    if indexes.len() == 0 {
        hand
    } else {
        spec_without(hand.remove(indexes.last() as int), indexes.drop_last())
    }
}

/// Whether `i` is one of `indexes`.
fn holds_index(indexes: &Vec<usize>, i: usize) -> (r: bool)
    ensures
        r == indexes@.contains(i),
{
    let mut k: usize = 0;
    while k < indexes.len()
        invariant
            k <= indexes@.len(),
            forall|m: int| 0 <= m < k ==> indexes@[m] != i,
        decreases indexes@.len() - k,
    {
        if indexes[k] == i {
            assert(indexes@[k as int] == i);
            return true;
        }
        k = k + 1;
    }
    false
}

/// The indexes of `e` below `m`, ascending.
pub open spec fn spec_ascending(e: Set<usize>, m: int) -> Seq<usize>
    decreases m,
{
    if m <= 0 {
        Seq::empty()
    } else if e.contains((m - 1) as usize) {
        spec_ascending(e, m - 1).push((m - 1) as usize)
    } else {
        spec_ascending(e, m - 1)
    }
}

/// The tiles at the positions of `indexes`, in the order they leave the hand: from the last
/// index to the first.
pub open spec fn spec_taken(hand: Seq<Tile>, indexes: Seq<usize>) -> Seq<Tile>
    decreases indexes.len(),
{
    if indexes.len() == 0 {
        Seq::empty()
    } else {
        seq![hand[indexes.last() as int]] + spec_taken(hand.remove(indexes.last() as int), indexes.drop_last())
    }
}

/// The elements of a set of indexes.
fn exchange_indexes(exchanges: &Exchanges) -> (r: Vec<usize>)
    ensures
        r@.to_set() == exchanges@,
{
    let mut r: Vec<usize> = Vec::new();
    for x in it: exchanges.iter()
        invariant
            r@.len() == it.index(),
            it.seq() == vstd::std_specs::btree::spec_btree_keys_iter(exchanges).remaining(),
            forall|i: int| 0 <= i < r@.len() ==> r@[i] == *it.seq()[i],
        ensures
            r@.len() == it.seq().len(),
            it.seq() == vstd::std_specs::btree::spec_btree_keys_iter(exchanges).remaining(),
            forall|i: int| 0 <= i < r@.len() ==> r@[i] == *it.seq()[i],
    {
        r.push(*x);
    }
    let ghost v = vstd::std_specs::btree::spec_btree_keys_iter(exchanges).remaining();
    proof {
        assert(r@ == v.unref());
    }
    r
}

impl NextState {
    /// Checks an exchange and returns every rule that it breaks: the game must not have ended,
    /// some tile must be exchanged, every index must name a tile of the hand, and the bag
    /// must hold as many tiles as the legal indexes name.
    fn check_exchanges(&self, exchanges: &Exchanges) -> (r: Result<(), Vec<NextExchangeError>>)
        requires
            self.current_player < self.hands@.len(),
        ensures
            ({
                let ended = spec_has_ended(self.hands@[self.current_player as int]@, self.board@);
                let hand_len = self.hands@[self.current_player as int]@.len() as int;
                match r {
                    Ok(()) => spec_exchange_is_legal(exchanges@, ended, hand_len, self.bag@.len() as int),
                    Err(errors) => spec_exchange_rejection(errors@, exchanges@, ended, hand_len, self.bag@.len() as int),
                }
            }),
    {
        let ghost e = exchanges@;
        let mut errors: Vec<NextExchangeError> = Vec::new();
        let ended = self.has_ended();
        if ended {
            let ghost before_push = errors@;
            errors.push(NextExchangeError::HasEnded);
            proof {
                lemma_push_exchange(before_push, errors@[errors@.len() - 1]);
                assert(errors@ == before_push.push(errors@[errors@.len() - 1]));
            }
        }
        let ghost e0 = errors@;
        if exchanges.len() == 0 {
            let ghost before_push = errors@;
            errors.push(NextExchangeError::EmptyTiles);
            proof {
                lemma_push_exchange(before_push, errors@[errors@.len() - 1]);
                assert(errors@ == before_push.push(errors@[errors@.len() - 1]));
            }
            proof {
                assert(errors@[errors@.len() - 1] == NextExchangeError::EmptyTiles);
                if ended {
                    assert(errors@[0] == NextExchangeError::HasEnded);
                }
                lemma_exchange_distinct(errors@, 2);
            }
            return Err(errors);
        }
        let hand_len = self.hands[self.current_player].len();
        let indexes = exchange_indexes(exchanges);
        let mut illegal_exchanges: Exchanges = BTreeSet::new();
        let mut k: usize = 0;
        while k < indexes.len()
            invariant
                k <= indexes@.len(),
                forall|x: usize| #[trigger] illegal_exchanges@.contains(x) <==> (exists|i: int| 0 <= i < k && indexes@[i] == x) && x >= hand_len,
            decreases indexes@.len() - k,
        {
            let x = indexes[k];
            if x >= hand_len {
                illegal_exchanges.insert(x);
            }
            proof {
                assert forall|y: usize| #[trigger] illegal_exchanges@.contains(y) <==> (exists|i: int| 0 <= i < k + 1 && indexes@[i] == y) && y >= hand_len by {
                    if y == x {
                        assert(indexes@[k as int] == y);
                    }
                }
            }
            k = k + 1;
        }
        proof {
            assert forall|x: usize| illegal_exchanges@.contains(x) <==> e.filter(|i: usize| i >= hand_len).contains(x) by {
                if e.contains(x) {
                    assert(indexes@.to_set().contains(x));
                    let i = choose|i: int| 0 <= i < indexes@.len() && indexes@[i] == x;
                }
                if illegal_exchanges@.contains(x) {
                    let i = choose|i: int| 0 <= i < indexes@.len() && indexes@[i] == x;
                    assert(indexes@.to_set().contains(x));
                }
            }
            assert(illegal_exchanges@ =~= e.filter(|i: usize| i >= hand_len));
            vstd::set_lib::lemma_len_subset(illegal_exchanges@, e);
        }
        let legal_exchanges = exchanges.len() - illegal_exchanges.len();
        let ghost at_indexes = errors@.len() as int;
        if !illegal_exchanges.is_empty() {
            let ghost before_push = errors@;
            errors.push(NextExchangeError::IndexesOutOfBounds { illegal_exchanges, hand_len });
            proof {
                lemma_push_exchange(before_push, errors@[errors@.len() - 1]);
                assert(errors@ == before_push.push(errors@[errors@.len() - 1]));
            }
        }
        let ghost e1 = errors@;
        let bag_len = self.bag.len();
        let ghost at_count = errors@.len() as int;
        if legal_exchanges == 0 {
            let ghost before_push = errors@;
            errors.push(NextExchangeError::NoLegalTiles);
            proof {
                lemma_push_exchange(before_push, errors@[errors@.len() - 1]);
                assert(errors@ == before_push.push(errors@[errors@.len() - 1]));
            }
        } else if legal_exchanges > bag_len {
            let ghost before_push = errors@;
            errors.push(NextExchangeError::NotEnoughTiles { legal_exchanges, bag_len });
            proof {
                lemma_push_exchange(before_push, errors@[errors@.len() - 1]);
                assert(errors@ == before_push.push(errors@[errors@.len() - 1]));
            }
        }
        proof {
            if ended {
                assert(errors@[0] == NextExchangeError::HasEnded);
            }
            if !e.filter(|i: usize| i >= hand_len).is_empty() {
                assert(errors@[at_indexes] is IndexesOutOfBounds);
            }
            if legal_exchanges == 0 {
                assert(errors@[at_count] == NextExchangeError::NoLegalTiles);
            } else if legal_exchanges > bag_len {
                assert(errors@[at_count] is NotEnoughTiles);
            }
            assert forall|i: int| 0 <= i < errors@.len() implies spec_exchange_error_holds(#[trigger] errors@[i], e, ended, hand_len as int, bag_len as int) by {
                if i < e0.len() {
                    assert(errors@[i] == e0[i]);
                } else if i < e1.len() {
                    assert(errors@[i] == e1[i]);
                }
            }
        }
        if errors.len() > 0 {
            proof {
                lemma_exchange_distinct(errors@, 5);
            }
            return Err(errors);
        }
        Ok(())
    }
}

impl NextState {
    /// Exchanges tiles of the current hand with tiles of the bag. When the exchange breaks no
    /// rule (see [NextState::check_exchanges]), the named tiles leave the hand, highest index
    /// first; the hand draws as many tiles from the end of the bag before the returned tiles
    /// go in, so that it never draws back a tile it returned; the returned tiles are appended
    /// to the bag and each is swapped with a place of the bag chosen at random; points stay;
    /// and the turn passes to the next player. Otherwise nothing changes and every broken
    /// rule is reported.
    pub fn next_exchange(&mut self, exchanges: &Exchanges) -> (r: Result<(), Vec<NextExchangeError>>)
        requires
            old(self).wf(),
        ensures
            ({
                let cp = old(self).current_player as int;
                let hand = old(self).hands@[cp]@;
                let bag = old(self).bag@;
                let ended = spec_has_ended(hand, old(self).board@);
                let exchanged = exchanges@.len() as int;
                match r {
                    Err(errors) => *final(self) == *old(self)
                        && spec_exchange_rejection(errors@, exchanges@, ended, hand.len() as int, bag.len() as int),
                    Ok(()) => {
                        &&& spec_exchange_is_legal(exchanges@, ended, hand.len() as int, bag.len() as int)
                        &&& final(self).wf()
                        &&& final(self).spec_tile_count() == old(self).spec_tile_count()
                        &&& final(self).hands@.len() == old(self).hands@.len()
                        &&& final(self).hands@[cp]@.len() == hand.len()
                        &&& final(self).hands@[cp]@ == spec_without(hand, spec_ascending(exchanges@, hand.len() as int))
                            + bag.skip(bag.len() - exchanged)
                        &&& final(self).bag@.to_multiset() == (bag.take(bag.len() - exchanged)
                            + spec_taken(hand, spec_ascending(exchanges@, hand.len() as int))).to_multiset()
                        &&& forall|i: int| 0 <= i < old(self).hands@.len() && i != cp ==> final(self).hands@[i] == #[trigger] old(self).hands@[i]
                        &&& final(self).bag@.len() == bag.len()
                        &&& final(self).board == old(self).board
                        &&& final(self).points == old(self).points
                        &&& final(self).current_player == (old(self).current_player + 1) % (old(self).hands@.len() as int)
                    },
                }
            }),
    {
        match self.check_exchanges(exchanges) {
            Err(errors) => {
                return Err(errors);
            },
            Ok(()) => {},
        }
        let ghost old_hands = self.hands@;
        let ghost old_bag = self.bag@;
        let ghost e = exchanges@;
        let cp = self.current_player;
        let mut hand = self.hands.remove(cp);
        let ghost old_hand = hand@;
        let hand_len = hand.len();
        let indexes = exchange_indexes(exchanges);
        let mut legal: Vec<usize> = Vec::new();
        let mut i: usize = 0;
        while i < hand_len
            invariant
                i <= hand_len == old_hand.len(),
                hand@ == old_hand,
                indexes@.to_set() == e,
                legal@ == spec_ascending(e, i as int),
                forall|m: int| 0 <= m < legal@.len() ==> (#[trigger] legal@[m]) < i && e.contains(legal@[m]),
                forall|m: int, n: int| 0 <= m < n < legal@.len() ==> #[trigger] legal@[m] < #[trigger] legal@[n],
                forall|x: usize| x < i && e.contains(x) ==> #[trigger] legal@.contains(x),
            decreases hand_len - i,
        {
            let ghost before = legal@;
            let found = holds_index(&indexes, i);
            proof {
                assert(indexes@.to_set().contains(i) == indexes@.contains(i));
            }
            if found {
                legal.push(i);
                proof {
                    assert(legal@[legal@.len() - 1] == i);
                }
            }
            proof {
                assert forall|x: usize| x < i + 1 && e.contains(x) implies #[trigger] legal@.contains(x) by {
                    if x < i {
                        assert(before.contains(x));
                        let m = choose|m: int| 0 <= m < before.len() && before[m] == x;
                        assert(legal@[m] == x);
                    } else {
                        assert(legal@[legal@.len() - 1] == x);
                    }
                }
            }
            i = i + 1;
        }
        proof {
            assert(legal@.to_set() =~= e) by {
                assert forall|x: usize| e.contains(x) implies x < hand_len by {
                    if x >= hand_len {
                        assert(e.filter(|x: usize| x >= hand_len).contains(x));
                    }
                }
            }
            assert(legal@.no_duplicates()) by {
                assert forall|m: int, n: int| 0 <= m < legal@.len() && 0 <= n < legal@.len() && m != n implies legal@[m] != legal@[n] by {
                    if m < n {
                        assert(legal@[m] < legal@[n]);
                    } else {
                        assert(legal@[n] < legal@[m]);
                    }
                }
            }
            legal@.unique_seq_to_set();
            lemma_increasing_below(legal@, hand_len as int);
            assert(e.filter(|x: usize| x >= hand_len) =~= Set::empty());
        }
        let count = legal.len();
        let mut returned: Vec<Tile> = Vec::new();
        let mut j: usize = count;
        assert(legal@.take(count as int) == legal@);
        assert(Seq::<Tile>::empty() + spec_taken(old_hand, legal@) =~= spec_taken(old_hand, legal@));
        while j > 0
            invariant
                j <= count == legal@.len() <= hand_len,
                hand@.len() == hand_len - (count - j),
                returned@.len() == count - j,
                forall|m: int| 0 <= m < legal@.len() ==> (#[trigger] legal@[m]) < hand_len,
                forall|m: int, n: int| 0 <= m < n < legal@.len() ==> #[trigger] legal@[m] < #[trigger] legal@[n],
                j > 0 ==> legal@[j - 1] < hand@.len(),
                spec_without(old_hand, legal@) == spec_without(hand@, legal@.take(j as int)),
                spec_taken(old_hand, legal@) == returned@ + spec_taken(hand@, legal@.take(j as int)),
            decreases j,
        {
            proof {
                if j > 1 {
                    assert(legal@[j - 2] < legal@[j - 1]);
                }
            }
            let ghost before = hand@;
            let ghost before_returned = returned@;
            let tile = hand.remove(legal[j - 1]);
            returned.push(tile);
            proof {
                assert(legal@.take(j as int).last() == legal@[j - 1]);
                assert(legal@.take(j as int).drop_last() == legal@.take(j - 1));
                assert(spec_without(before, legal@.take(j as int)) == spec_without(hand@, legal@.take(j - 1)));
                assert(spec_taken(before, legal@.take(j as int)) == seq![tile] + spec_taken(hand@, legal@.take(j - 1)));
                assert(before_returned + (seq![tile] + spec_taken(hand@, legal@.take(j - 1)))
                    =~= returned@ + spec_taken(hand@, legal@.take(j - 1)));
            }
            j = j - 1;
        }
        proof {
            assert(legal@.take(0) == Seq::<usize>::empty());
            assert(returned@ + Seq::<Tile>::empty() =~= returned@);
        }
        let mut drawn = self.bag.split_off(self.bag.len() - count);
        let ghost drawn_seq = drawn@;
        let ghost kept = hand@;
        hand.append(&mut drawn);
        let ghost new_hand = hand;
        self.hands.insert(cp, hand);
        proof {
            assert(self.hands@ == old_hands.update(cp as int, new_hand));
            lemma_hands_len_update(old_hands, cp as int, new_hand, old_hands.len() as int);
            assert(new_hand@.skip(hand_len - count) =~= old_bag.skip(old_bag.len() - count));
        }
        let ghost kept_bag = self.bag@;
        let ghost returned_seq = returned@;
        let mut bag = self.bag.split_off(0);
        assert(bag@ =~= kept_bag);
        let start = bag.len();
        bag.append(&mut returned);
        let ghost filled = bag@;
        proof {
            assert(kept_bag =~= old_bag.take(old_bag.len() - count));
            assert(filled == old_bag.take(old_bag.len() - count) + spec_taken(old_hand, legal@));
        }
        let end = bag.len();
        let mut index: usize = start;
        while index < end
            invariant
                start <= index <= end == bag@.len(),
                bag@.to_multiset() == filled.to_multiset(),
            decreases end - index,
        {
            let other = random_below(end);
            let a = bag[index];
            let b = bag[other];
            let ghost before = bag@;
            bag.set(index, b);
            bag.set(other, a);
            proof {
                broadcast use vstd::seq_lib::group_to_multiset_ensures;
                broadcast use vstd::multiset::group_multiset_properties;
                let once = before.update(index as int, b);
                assert(once.to_multiset() == before.to_multiset().insert(b).remove(a));
                assert(once[other as int] == b);
                assert(bag@.to_multiset() == once.to_multiset().insert(a).remove(b));
                assert(bag@.to_multiset() =~= before.to_multiset());
            }
            index = index + 1;
        }
        self.bag = bag;
        let players = self.hands.len();
        assert(cp < players);
        self.current_player = (cp + 1) % players;
        proof {
            assert forall|i: int| 0 <= i < self.hands@.len() implies (#[trigger] self.hands@[i])@.len() <= crate::consts::TILE_LIMIT by {
                if i != cp {
                    assert(self.hands@[i] == old_hands[i]);
                }
            }
        }
        Ok(())
    }
}

proof fn lemma_increasing_below(s: Seq<usize>, n: int)
    requires
        forall|m: int, k: int| 0 <= m < k < s.len() ==> #[trigger] s[m] < #[trigger] s[k],
        forall|m: int| 0 <= m < s.len() ==> (#[trigger] s[m]) < n,
        0 <= n,
    ensures
        s.len() <= n,
{
    assert forall|m: int| 0 <= m < s.len() implies (#[trigger] s[m]) >= m by {
        lemma_increasing_at_least(s, m);
    }
    if s.len() > 0 {
        assert(s[s.len() - 1] >= s.len() - 1);
        assert(s[s.len() - 1] < n);
    }
}

proof fn lemma_increasing_at_least(s: Seq<usize>, m: int)
    requires
        forall|a: int, b: int| 0 <= a < b < s.len() ==> #[trigger] s[a] < #[trigger] s[b],
        0 <= m < s.len(),
    ensures
        s[m] >= m,
    decreases m,
{
    if m > 0 {
        lemma_increasing_at_least(s, m - 1);
        assert(s[m - 1] < s[m]);
    }
}

} // verus!
