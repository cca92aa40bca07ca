use bimap::BiBTreeMap;
use qwirkle::{
    Color, Coordinate, FirstPlayError, FirstState, HandLens, NewError, Plays, Shape, Tile, COORDINATE_LIMIT,
    DEFAULT_HAND_LEN, DEFAULT_UNIQUE_TILE_COPIED_COUNT, FULL_MATCH_BONUS, HAND_CAPACITY, HOLES_LIMIT,
    PLAYER_CAPACITY, TILES_LEN, TILE_LIMIT,
};
use rand::seq::SliceRandom;
use rand::Rng;
use std::collections::{BTreeSet, HashSet};

fn first_tile(rng: &mut impl Rng) -> Tile {
    (
        Color::from_index(rng.gen_range(0..Color::COLORS_LEN)).unwrap(),
        Shape::from_index(rng.gen_range(0..Shape::SHAPES_LEN)).unwrap(),
    )
}

fn first_players(state: &mut FirstState, rng: &mut impl Rng) -> usize {
    let players = rng.gen_range(2..=PLAYER_CAPACITY);
    for _ in 0..players {
        state.hands.push(Vec::with_capacity(HAND_CAPACITY));
        state.max_matches.push(0);
    }
    players
}

fn first_bag(state: &mut FirstState, rng: &mut impl Rng) -> usize {
    let bag_len = rng.gen_range(10..20);
    for _ in 0..bag_len {
        let tile = first_tile(rng);
        state.bag.push(tile);
    }
    bag_len
}

fn first_hands(state: &mut FirstState, rng: &mut impl Rng) -> usize {
    let hand_len = rng.gen_range(2..=HAND_CAPACITY);
    for hand in state.hands.iter_mut() {
        for _ in 0..hand_len {
            hand.push(first_tile(rng));
        }
    }
    hand_len
}

fn first_illegal_coordinates(rng: &mut impl Rng) -> Vec<Coordinate> {
    let mut coordinates = vec![
        (-rng.gen_range(0..isize::MAX), -rng.gen_range(COORDINATE_LIMIT..isize::MAX)),
        (-rng.gen_range(COORDINATE_LIMIT..isize::MAX), rng.gen_range(0..isize::MAX)),
        (rng.gen_range(COORDINATE_LIMIT..isize::MAX), -rng.gen_range(0..isize::MAX)),
        (rng.gen_range(0..isize::MAX), rng.gen_range(COORDINATE_LIMIT..isize::MAX)),
    ];
    coordinates.shuffle(rng);
    coordinates
}

fn first_groups(groups: &[&[Coordinate]]) -> Vec<Vec<Coordinate>> {
    let mut r: Vec<Vec<Coordinate>> = groups
        .iter()
        .map(|group| {
            let mut g = group.to_vec();
            g.sort();
            g
        })
        .collect();
    r.sort();
    r
}

fn first_play_errors(state: FirstState, plays: impl IntoIterator<Item = (usize, Coordinate)>, expected: HashSet<FirstPlayError>) {
    let plays: Plays = plays.into_iter().collect();
    let (_, actual) = state.first_play(&plays).err().expect("first_play should return Err");
    let actual: HashSet<FirstPlayError> = actual.into_iter().collect();
    assert_eq!(expected, actual);
}

fn first_play_error(state: FirstState, plays: impl IntoIterator<Item = (usize, Coordinate)>, expected: FirstPlayError) {
    first_play_errors(state, plays, HashSet::from([expected]));
}

fn new_errors(players_len: usize, copies: Option<usize>, hand_len: Option<usize>, expected: HashSet<NewError>) {
    let actual = FirstState::new_random_first_player(players_len, copies, hand_len)
        .err()
        .expect("new_random_first_player should only return Err");
    let actual: HashSet<NewError> = actual.into_iter().collect();
    assert_eq!(expected, actual);
}

fn set_up_first_play() -> (FirstState, Plays) {
    let mut rng = rand::thread_rng();
    let hand_len = rng.gen_range(2..Shape::SHAPES_LEN);
    let mut state = FirstState::empty_first_state();
    first_players(&mut state, &mut rng);
    first_bag(&mut state, &mut rng);
    let color = first_tile(&mut rng).0;
    state.hands[0].extend(Shape::shapes().into_iter().take(hand_len).map(|shape| (color, shape)));
    let mut plays = BiBTreeMap::new();
    plays.extend((0..hand_len).map(|index| (index, (index as isize, 0))));
    let tile = first_tile(&mut rng);
    state.hands[1].push(tile);
    state.max_matches_to_hand_len();
    (state, plays)
}

fn set_up_first_play_full_match() -> (FirstState, Plays) {
    let mut rng = rand::thread_rng();
    let mut state = FirstState::empty_first_state();
    first_players(&mut state, &mut rng);
    first_bag(&mut state, &mut rng);
    let shape = first_tile(&mut rng).1;
    state.hands[0].extend(Color::colors().into_iter().map(|color| (color, shape)));
    let plays = (0..Color::COLORS_LEN).map(|index| (index, (index as isize, 0))).collect();
    let tile = first_tile(&mut rng);
    state.hands[1].push(tile);
    state.max_matches_to_hand_len();
    (state, plays)
}

#[test]
fn empty_players() {
    new_errors(0, None, None, HashSet::from([NewError::EmptyPlayers]));
}

#[test]
fn empty_bag_not_enough_tiles() {
    new_errors(
        1,
        Some(0),
        Some(1),
        HashSet::from([NewError::EmptyBag, NewError::NotEnoughTiles { requested_tiles: 1, tiles_in_bag: 0 }]),
    );
}

#[test]
fn empty_hands() {
    new_errors(1, None, Some(0), HashSet::from([NewError::EmptyHands]));
}

#[test]
fn empty_players_empty_bag_empty_hands() {
    new_errors(0, Some(0), Some(0), HashSet::from([NewError::EmptyPlayers, NewError::EmptyBag, NewError::EmptyHands]));
}

#[test]
fn first_state_not_enough_tiles() {
    let players_len = 10;
    let copies = 2;
    let hand_len = 20;
    new_errors(
        players_len,
        Some(copies),
        Some(hand_len),
        HashSet::from([NewError::NotEnoughTiles { requested_tiles: players_len * hand_len, tiles_in_bag: copies * TILES_LEN }]),
    );
}

#[test]
fn too_many_tiles() {
    let players_len = 10;
    let copies = TILE_LIMIT;
    let hand_len = 20;
    new_errors(players_len, Some(copies), Some(hand_len), HashSet::from([NewError::TooManyTiles { tiles_in_bag: copies * TILES_LEN }]));
}

#[test]
fn current_player_not_max_matching_players() {
    fn first_player_selector(max_matching_players: &BTreeSet<usize>) -> usize {
        max_matching_players
            .iter()
            .rev()
            .next()
            .copied()
            .expect("new should always provide non-empty max_matching_players")
            + 1
    }
    let actual_error = FirstState::new(4, Some(3), Some(6), first_player_selector).err().expect("new should return Err");
    assert_eq!(1, actual_error.len());
    assert!(matches!(actual_error[0], NewError::CurrentPlayerNotMaxMatchingPlayers { .. }));
}

#[test]
fn new_none() {
    let players_len = rand::thread_rng().gen_range(2..=PLAYER_CAPACITY);
    let none = FirstState::new_random_first_player(players_len, None, None).ok().expect("new should return Ok");
    let some = FirstState::new_random_first_player(players_len, Some(DEFAULT_UNIQUE_TILE_COPIED_COUNT), Some(DEFAULT_HAND_LEN))
        .ok()
        .expect("new should return Ok");
    assert_eq!(none.bag.len(), some.bag.len());
    assert_eq!(players_len, none.hands.len());
    assert_eq!(players_len, some.hands.len());
    for index in 0..players_len {
        assert_eq!(none.hands[index].len(), some.hands[index].len());
    }
}

#[test]
fn new_some() {
    let players_len = 4;
    let copies = 3;
    let hand_len = 6;
    let state = FirstState::new_random_first_player(players_len, Some(copies), Some(hand_len)).ok().expect("new should return Ok");
    assert!(state.max_matches.len() > 0);
    let max_max_match = state.max_matches.iter().copied().max().expect("max_max_match should exist");
    let max_matching_players: HashSet<usize> = state
        .max_matches
        .iter()
        .enumerate()
        .filter(|(_, &max_match)| max_max_match == max_match)
        .map(|(index, _)| index)
        .collect();
    assert_eq!(TILES_LEN * copies - (hand_len * players_len), state.bag.len());
    assert_eq!(players_len, state.hands.len());
    for player in 0..players_len {
        assert_eq!(hand_len, state.hands[player].len());
    }
    assert!(max_matching_players.contains(&state.current_player));
}

#[test]
fn new_keeps_every_tile() {
    let state = FirstState::new_random_first_player(3, Some(2), Some(5)).ok().expect("new should return Ok");
    let mut all: Vec<Tile> = state.bag.clone();
    for hand in &state.hands {
        all.extend(hand.iter().copied());
    }
    assert_eq!(TILES_LEN * 2, all.len());
    for tile in qwirkle::tiles() {
        assert_eq!(2, all.iter().filter(|&&t| t == tile).count());
    }
}

#[test]
fn empty_first_state() {
    let state = FirstState::empty_first_state();
    assert!(state.bag.is_empty());
    assert!(state.hands.is_empty());
    assert!(state.max_matches.is_empty());
    assert_eq!(0, state.current_player);
}

#[test]
fn random_players() {
    let mut state = FirstState::empty_first_state();
    let players = first_players(&mut state, &mut rand::thread_rng());
    assert_eq!(vec![Vec::<Tile>::new(); players], state.hands);
    assert_eq!(vec![0; players], state.max_matches);
}

#[test]
fn max_matches_to_hand_len() {
    let mut rng = rand::thread_rng();
    let mut state = FirstState::empty_first_state();
    first_players(&mut state, &mut rng);
    let hand_len = first_hands(&mut state, &mut rng);
    for &max_match in &state.max_matches {
        assert_eq!(0, max_match);
    }
    state.max_matches_to_hand_len();
    for max_match in state.max_matches {
        assert_eq!(hand_len, max_match);
    }
}

#[test]
fn first_view() {
    let mut rng = rand::thread_rng();
    let mut state = FirstState::empty_first_state();
    let players = first_players(&mut state, &mut rng);
    let bag_len = first_bag(&mut state, &mut rng);
    first_hands(&mut state, &mut rng);
    state.max_matches_to_hand_len();
    state.current_player = rng.gen_range(0..players);
    let view = state.first_view();
    let hand_lens: HandLens = state.hands.iter().map(Vec::len).collect();
    assert_eq!(bag_len, view.bag_len);
    assert_eq!(hand_lens, view.hand_lens);
    assert_eq!(state.max_matches, *view.max_matches);
    assert_eq!(state.current_player, view.current_player);
}

#[test]
fn first_view_get_hand_some() {
    let mut rng = rand::thread_rng();
    let mut state = FirstState::empty_first_state();
    let players = first_players(&mut state, &mut rng);
    first_hands(&mut state, &mut rng);
    for player in 0..players {
        let hand = state.get_hand(player).cloned().expect("get_hand should be safe in range 0..players");
        assert_eq!(state.hands[player], hand);
    }
}

#[test]
fn first_view_get_hand_none() {
    let mut state = FirstState::empty_first_state();
    let players = first_players(&mut state, &mut rand::thread_rng());
    assert!(state.get_hand(players).is_none());
}

#[test]
fn first_play_empty_plays() {
    let mut rng = rand::thread_rng();
    let mut state = FirstState::empty_first_state();
    first_players(&mut state, &mut rng);
    first_hands(&mut state, &mut rng);
    first_play_error(state, [], FirstPlayError::EmptyPlays);
}

#[test]
fn first_play_indexes_out_of_bounds() {
    let mut rng = rand::thread_rng();
    let mut state = FirstState::empty_first_state();
    first_players(&mut state, &mut rng);
    let hand_len = first_hands(&mut state, &mut rng);
    state.max_matches[0] = 1;
    let indexes_out_of_bounds: Plays = (1..rng.gen_range(3..=6)).map(|index| (hand_len + index, (index as isize, 0))).collect();
    let mut plays = indexes_out_of_bounds.clone();
    plays.insert(0, (0, 0));
    first_play_error(state, plays, FirstPlayError::IndexesOutOfBounds { indexes_out_of_bounds });
}

#[test]
fn first_play_coordinates_out_of_bounds() {
    let mut rng = rand::thread_rng();
    let mut state = FirstState::empty_first_state();
    first_players(&mut state, &mut rng);
    for _ in 0..=4 {
        let tile = first_tile(&mut rng);
        state.hands[0].push(tile);
    }
    state.max_matches[0] = 1;
    let illegal_plays: Plays = (1..).zip(first_illegal_coordinates(&mut rng)).collect();
    let mut plays = illegal_plays.clone();
    plays.insert(0, (0, 0));
    first_play_error(state, plays, FirstPlayError::CoordinatesOutOfBounds { coordinates_out_of_bounds: illegal_plays });
}

#[test]
fn origin_not_included() {
    let (state, plays) = set_up_first_play();
    let plays: Plays = plays.left_values().map(|&index| (index, (1, index as isize))).collect();
    first_play_error(state, plays, FirstPlayError::OriginNotIncluded);
}

#[test]
fn not_max_matching() {
    let mut state = FirstState::empty_first_state();
    first_players(&mut state, &mut rand::thread_rng());
    state.hands[0].extend([(Color::Orange, Shape::Starburst), (Color::Orange, Shape::X), (Color::Purple, Shape::X)]);
    state.max_matches[0] = 2;
    first_play_error(state, [(0, (0, 0))], FirstPlayError::NotMaxMatching { max_matching_plays: vec![vec![0, 1], vec![1, 2]] });
}

#[test]
fn indexes_out_of_bounds_coordinates_out_of_bounds_not_max_matching() {
    let mut rng = rand::thread_rng();
    let mut state = FirstState::empty_first_state();
    first_players(&mut state, &mut rng);
    state.hands[0].extend([
        (Color::Orange, Shape::Starburst),
        (Color::Orange, Shape::X),
        (Color::Purple, Shape::X),
        (Color::Red, Shape::Square),
        (Color::Red, Shape::Square),
    ]);
    let hand_len = state.hands[0].len();
    state.max_matches[0] = 2;
    let illegal_plays: Plays = (hand_len + 1..).zip(first_illegal_coordinates(&mut rng)).collect();
    let mut plays = illegal_plays.clone();
    plays.insert(0, (0, 0));
    first_play_errors(
        state,
        plays,
        HashSet::from([
            FirstPlayError::IndexesOutOfBounds { indexes_out_of_bounds: illegal_plays.clone() },
            FirstPlayError::CoordinatesOutOfBounds { coordinates_out_of_bounds: illegal_plays },
            FirstPlayError::NotMaxMatching { max_matching_plays: vec![vec![0, 1], vec![1, 2]] },
        ]),
    );
}

#[test]
fn indexes_out_of_bounds_no_legal_plays() {
    let mut rng = rand::thread_rng();
    let mut state = FirstState::empty_first_state();
    first_players(&mut state, &mut rng);
    let hand_len = first_hands(&mut state, &mut rng);
    let indexes_out_of_bounds: Plays = (0..rng.gen_range(3..=6)).map(|index| (hand_len + index, (index as isize, 0))).collect();
    first_play_errors(
        state,
        indexes_out_of_bounds.clone(),
        HashSet::from([FirstPlayError::IndexesOutOfBounds { indexes_out_of_bounds }, FirstPlayError::NoLegalPlays]),
    );
}

#[test]
fn first_play_no_legal_lines() {
    let mut rng = rand::thread_rng();
    let mut state = FirstState::empty_first_state();
    first_players(&mut state, &mut rng);
    let color = first_tile(&mut rng).0;
    state.hands[0].extend([(color, Shape::Starburst), (color, Shape::X), (color, Shape::Clover)]);
    state.max_matches_to_hand_len();
    first_play_error(state, [(0, (0, 0)), (1, (1, 1)), (2, (2, 2))], FirstPlayError::NoLegalLines);
}

#[test]
fn first_play_holes() {
    let mut rng = rand::thread_rng();
    let mut state = FirstState::empty_first_state();
    first_players(&mut state, &mut rng);
    let color = first_tile(&mut rng).0;
    state.hands[0].extend([(color, Shape::Starburst), (color, Shape::X), (color, Shape::Clover)]);
    state.max_matches_to_hand_len();
    first_play_error(
        state,
        [(0, (0, -3)), (1, (0, 0)), (2, (0, 4))],
        FirstPlayError::Holes { holes: BTreeSet::from([((0, -2), (0, -1)), ((0, 1), (0, 3))]) },
    );
}

#[test]
fn first_play_holes_limit() {
    let mut rng = rand::thread_rng();
    let mut state = FirstState::empty_first_state();
    first_players(&mut state, &mut rng);
    let color = first_tile(&mut rng).0;
    state.hands[0].extend([(color, Shape::Starburst), (color, Shape::X), (color, Shape::Clover)]);
    state.max_matches_to_hand_len();
    let limit = ((HOLES_LIMIT + 1) / 2) as isize;
    first_play_error(
        state,
        [(0, (0, -COORDINATE_LIMIT + 1)), (1, (0, 0)), (2, (0, COORDINATE_LIMIT - 1))],
        FirstPlayError::Holes { holes: BTreeSet::from([((0, -limit), (0, -1)), ((0, 1), (0, limit))]) },
    );
}

#[test]
fn duplicates() {
    let mut rng = rand::thread_rng();
    let mut state = FirstState::empty_first_state();
    first_players(&mut state, &mut rng);
    let tile = first_tile(&mut rng);
    state.hands[0].extend([tile, tile]);
    state.max_matches_to_hand_len();
    first_play_error(state, [(0, (0, 0)), (1, (0, 1))], FirstPlayError::Duplicates { duplicates: first_groups(&[&[(0, 0), (0, 1)]]) });
}

#[test]
fn multiple_matching() {
    let mut state = FirstState::empty_first_state();
    first_players(&mut state, &mut rand::thread_rng());
    state.hands[0].extend([
        (Color::Yellow, Shape::Square),
        (Color::Yellow, Shape::Starburst),
        (Color::Yellow, Shape::Circle),
        (Color::Blue, Shape::Circle),
        (Color::Red, Shape::Circle),
        (Color::Green, Shape::X),
    ]);
    state.max_matches_to_hand_len();
    first_play_error(
        state,
        [(0, (0, 0)), (1, (0, 2)), (2, (0, 4)), (3, (0, 1)), (4, (0, 3)), (5, (0, 5))],
        FirstPlayError::MultipleMatching {
            multiple_matching: first_groups(&[&[(0, 0), (0, 2), (0, 4)], &[(0, 1), (0, 3), (0, 4)], &[(0, 5)]]),
        },
    );
}

#[test]
fn first_play_tiles() {
    let mut rng = rand::thread_rng();
    let mut state = FirstState::empty_first_state();
    first_players(&mut state, &mut rng);
    let first = (Color::Green, Shape::X);
    let second = (Color::Green, Shape::Clover);
    let third = (Color::Purple, Shape::Diamond);
    let fourth = (Color::Green, Shape::Square);
    state.hands[0].extend([first, second, third, fourth]);
    let bag_tile = (Color::Orange, first_tile(&mut rng).1);
    let bag_len = rng.gen_range(state.hands[0].len() + 1..10);
    state.bag.extend((0..bag_len).map(|_| bag_tile));
    let tile = first_tile(&mut rng);
    state.hands[1].push(tile);
    let mut plays = BiBTreeMap::new();
    plays.extend([(0, (0, -1)), (1, (0, 0)), (3, (0, 1))]);
    let plays_len = plays.len();
    state.max_matches[0] = plays_len;
    let mut next_state = state.first_play(&plays).ok().expect("first_play should return Ok");
    let hand = &next_state.mut_hands()[0];
    assert_eq!(third, hand[0]);
    assert_eq!(bag_tile, hand[1]);
    assert_eq!(bag_tile, hand[2]);
    assert_eq!(bag_tile, hand[3]);
    assert_eq!(bag_len - plays_len, next_state.mut_bag().len());
    assert_eq!(first, next_state.mut_board()[&(0, -1)]);
    assert_eq!(second, next_state.mut_board()[&(0, 0)]);
    assert_eq!(fourth, next_state.mut_board()[&(0, 1)]);
}

#[test]
fn first_play_some_points() {
    let (state, plays) = set_up_first_play();
    let mut next_state = state.first_play(&plays).ok().expect("first_play should return Ok");
    assert_eq!(plays.len(), next_state.mut_points()[0]);
}

#[test]
fn first_play_full_match() {
    let (state, plays) = set_up_first_play_full_match();
    let mut next_state = state.first_play(&plays).ok().expect("first_play should return Ok");
    assert_eq!(plays.len() + FULL_MATCH_BONUS, next_state.mut_points()[0]);
}

#[test]
fn first_play_increment_current_player() {
    let (state, plays) = set_up_first_play();
    let mut next_state = state.first_play(&plays).ok().expect("first_play should return Ok");
    assert_eq!(1, *next_state.mut_current_player());
}

#[test]
fn first_play_wrap_current_player() {
    let (mut state, plays) = set_up_first_play();
    let last = state.hands.len() - 1;
    state.current_player = last;
    let first_hand = state.hands[0].clone();
    state.hands[last] = first_hand;
    state.max_matches_to_hand_len();
    let mut next_state = state.first_play(&plays).ok().expect("first_play should return Ok");
    assert_eq!(0, *next_state.mut_current_player());
}

#[test]
fn first_play_red_line_of_three() {
    let mut state = FirstState::empty_first_state();
    first_players(&mut state, &mut rand::thread_rng());
    state.hands[0].extend([(Color::Red, Shape::X), (Color::Red, Shape::Square), (Color::Red, Shape::Circle)]);
    let plays: Plays = [(0, (0, 0)), (1, (0, 1)), (2, (0, 2))].into_iter().collect();
    state.max_matches[0] = 3;
    let next_state = state.first_play(&plays).ok().expect("first_play should return Ok");
    assert_eq!(3, next_state.points[0]);
}

#[test]
fn first_play_red_line_of_three_not_max() {
    let mut state = FirstState::empty_first_state();
    first_players(&mut state, &mut rand::thread_rng());
    state.hands[0].extend([(Color::Red, Shape::X), (Color::Red, Shape::Square), (Color::Red, Shape::Circle)]);
    state.max_matches[0] = 2;
    first_play_error(
        state,
        [(0, (0, 0)), (1, (0, 1)), (2, (0, 2))],
        FirstPlayError::NotMaxMatching { max_matching_plays: vec![vec![0, 1], vec![0, 2], vec![1, 2]] },
    );
}

#[test]
fn first_play_rejection_is_repeatable() {
    let (state, _) = set_up_first_play();
    let plays: Plays = [(0, (0, 0)), (1, (3, 3))].into_iter().collect();
    let (state, first) = state.first_play(&plays).err().expect("first_play should return Err");
    let (_, second) = state.first_play(&plays).err().expect("first_play should return Err");
    let first: HashSet<FirstPlayError> = first.into_iter().collect();
    let second: HashSet<FirstPlayError> = second.into_iter().collect();
    assert_eq!(first, second);
}

#[test]
fn first_play_keeps_tile_count() {
    let (state, plays) = set_up_first_play();
    let before = state.bag.len() + state.hands.iter().map(Vec::len).sum::<usize>();
    let next_state = state.first_play(&plays).ok().expect("first_play should return Ok");
    let after = next_state.bag.len() + next_state.hands.iter().map(Vec::len).sum::<usize>() + next_state.board.len();
    assert_eq!(before, after);
}

#[test]
fn first_play_right_size_wrong_choice() {
    let mut state = FirstState::empty_first_state();
    first_players(&mut state, &mut rand::thread_rng());
    state.hands[0].extend([(Color::Red, Shape::X), (Color::Red, Shape::X), (Color::Red, Shape::Square)]);
    state.max_matches[0] = 2;
    let plays: Plays = [(1, (0, 0)), (2, (0, 1))].into_iter().collect();
    let next_state = state.first_play(&plays).ok().expect("first_play should return Ok");
    assert_eq!(2, next_state.points[0]);
}

#[test]
fn first_play_right_size_not_a_choice() {
    let mut state = FirstState::empty_first_state();
    first_players(&mut state, &mut rand::thread_rng());
    state.hands[0].extend([(Color::Red, Shape::X), (Color::Red, Shape::Square), (Color::Blue, Shape::Circle)]);
    state.max_matches[0] = 2;
    first_play_errors(
        state,
        [(1, (0, 0)), (2, (0, 1))],
        HashSet::from([
            FirstPlayError::NotMaxMatching { max_matching_plays: vec![vec![0, 1]] },
            FirstPlayError::MultipleMatching { multiple_matching: first_groups(&[&[(0, 0)], &[(0, 1)]]) },
        ]),
    );
}

#[test]
fn new_takes_the_selected_player() {
    fn smallest(max_matching_players: &BTreeSet<usize>) -> usize {
        *max_matching_players.iter().next().expect("the set of top players is not empty")
    }
    let state = FirstState::new(3, None, None, smallest).ok().expect("new should return Ok");
    let best = state.max_matches.iter().copied().max().unwrap();
    let first_top = state.max_matches.iter().position(|&m| m == best).unwrap();
    assert_eq!(first_top, state.current_player);
}

#[test]
fn new_reports_chosen_player_and_top_players() {
    fn outsider(_: &BTreeSet<usize>) -> usize {
        7
    }
    let errors = FirstState::new(2, None, None, outsider).err().expect("new should return Err");
    assert_eq!(1, errors.len());
    match &errors[0] {
        NewError::CurrentPlayerNotMaxMatchingPlayers { current_player, max_matching_players } => {
            assert_eq!(7, *current_player);
            assert!(!max_matching_players.is_empty());
            assert!(max_matching_players.iter().all(|&p| p < 2));
        }
        other => panic!("unexpected error {:?}", other),
    }
}
