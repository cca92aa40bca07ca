use bimap::BiBTreeMap;
use qwirkle::{
    Board, Color, Coordinate, Exchanges, HandLens, LastState, NextExchangeError, NextPlayError, NextState, Plays,
    Shape, Tile, COORDINATE_LIMIT, FULL_MATCH_BONUS, HAND_CAPACITY, HOLES_LIMIT, LAST_PLAY_BONUS, PLAYER_CAPACITY,
};
use rand::seq::SliceRandom;
use rand::Rng;
use std::collections::{BTreeSet, HashSet};

fn next_tile(rng: &mut impl Rng) -> Tile {
    (
        Color::from_index(rng.gen_range(0..Color::COLORS_LEN)).unwrap(),
        Shape::from_index(rng.gen_range(0..Shape::SHAPES_LEN)).unwrap(),
    )
}

fn next_players(state: &mut NextState, rng: &mut impl Rng) -> usize {
    let players = rng.gen_range(2..=PLAYER_CAPACITY);
    for _ in 0..players {
        state.points.push(0);
        state.hands.push(Vec::with_capacity(HAND_CAPACITY));
    }
    players
}

fn next_bag(state: &mut NextState, rng: &mut impl Rng) -> usize {
    let bag_len = rng.gen_range(10..20);
    for _ in 0..bag_len {
        let tile = next_tile(rng);
        state.bag.push(tile);
    }
    bag_len
}

fn random_board(board: &mut Board, rng: &mut impl Rng) -> usize {
    let half: isize = rng.gen_range(5..10);
    let mut x = -half;
    while x <= half {
        let y = rng.gen_range(-20..=20);
        let tile = next_tile(rng);
        board.insert((x, y), tile);
        x += 2;
    }
    (half as usize) + 1
}

fn next_hands(state: &mut NextState, rng: &mut impl Rng) -> usize {
    let hand_len = rng.gen_range(2..=HAND_CAPACITY);
    for hand in state.hands.iter_mut() {
        for _ in 0..hand_len {
            hand.push(next_tile(rng));
        }
    }
    hand_len
}

fn random_points(state: &mut NextState, rng: &mut impl Rng) {
    for points in state.points.iter_mut() {
        *points = rng.gen_range(100..200);
    }
}

fn different_shape_same_color(rng: &mut impl Rng, (color, shape): Tile) -> Tile {
    let index = rng.gen_range(0..Shape::SHAPES_LEN - 1);
    let different = index + if index < shape as usize { 0 } else { 1 };
    (color, Shape::shapes()[different])
}

fn different_color_same_shape(rng: &mut impl Rng, (color, shape): Tile) -> Tile {
    let index = rng.gen_range(0..Color::COLORS_LEN - 1);
    let different = index + if index < color as usize { 0 } else { 1 };
    (Color::colors()[different], shape)
}

fn next_illegal_coordinates(rng: &mut impl Rng) -> Vec<Coordinate> {
    let mut coordinates = vec![
        (-rng.gen_range(0..isize::MAX), -rng.gen_range(COORDINATE_LIMIT..isize::MAX)),
        (-rng.gen_range(COORDINATE_LIMIT..isize::MAX), rng.gen_range(0..isize::MAX)),
        (rng.gen_range(COORDINATE_LIMIT..isize::MAX), -rng.gen_range(0..isize::MAX)),
        (rng.gen_range(0..isize::MAX), rng.gen_range(COORDINATE_LIMIT..isize::MAX)),
    ];
    coordinates.shuffle(rng);
    coordinates
}

fn next_groups(groups: &[&[Coordinate]]) -> Vec<Vec<Coordinate>> {
    let mut r: Vec<Vec<Coordinate>> = groups
        .iter()
        .map(|group| {
            let mut g = group.to_vec();
            g.sort();
            g
        })
        .collect();
    r.sort();
    r
}

fn next_play_errors(state: NextState, plays: impl IntoIterator<Item = (usize, Coordinate)>, expected: HashSet<NextPlayError>) {
    let plays: Plays = plays.into_iter().collect();
    let (_, actual) = state.next_play(&plays).err().expect("next_play should return Err");
    let actual: HashSet<NextPlayError> = actual.into_iter().collect();
    assert_eq!(expected, actual);
}

fn next_play_error(state: NextState, plays: impl IntoIterator<Item = (usize, Coordinate)>, expected: NextPlayError) {
    next_play_errors(state, plays, HashSet::from([expected]));
}

fn exchange_errors(mut state: NextState, exchanges: impl IntoIterator<Item = usize>, expected: HashSet<NextExchangeError>) {
    let exchanges: Exchanges = exchanges.into_iter().collect();
    let actual = state.next_exchange(&exchanges).expect_err("next_exchange should return Err");
    let actual: HashSet<NextExchangeError> = actual.into_iter().collect();
    assert_eq!(expected, actual);
}

fn exchange_error(state: NextState, exchanges: impl IntoIterator<Item = usize>, expected: NextExchangeError) {
    exchange_errors(state, exchanges, HashSet::from([expected]));
}

fn set_up_next_exchange() -> (NextState, Exchanges) {
    let mut rng = rand::thread_rng();
    let mut state = NextState::empty_next_state();
    next_players(&mut state, &mut rng);
    next_bag(&mut state, &mut rng);
    random_board(&mut state.board, &mut rng);
    let hand_len = next_hands(&mut state, &mut rng);
    (state, (0..hand_len).collect())
}

fn set_up_next_play() -> (NextState, Plays) {
    let mut rng = rand::thread_rng();
    let hand_len = rng.gen_range(2..Shape::SHAPES_LEN);
    let mut state = NextState::empty_next_state();
    next_players(&mut state, &mut rng);
    next_bag(&mut state, &mut rng);
    let color = next_tile(&mut rng).0;
    state.hands[0].extend(Shape::shapes().into_iter().take(hand_len).map(|shape| (color, shape)));
    let tile = different_shape_same_color(&mut rng, state.hands[0][0]);
    state.board.insert((0, 1), tile);
    let mut plays = BiBTreeMap::new();
    plays.extend((0..hand_len).map(|index| (index, (index as isize, 0))));
    (state, plays)
}

fn set_up_next_play_full_match() -> (NextState, Plays) {
    let mut rng = rand::thread_rng();
    let mut state = NextState::empty_next_state();
    next_players(&mut state, &mut rng);
    next_bag(&mut state, &mut rng);
    let color = next_tile(&mut rng).0;
    state.hands[0].extend(Shape::shapes().into_iter().map(|shape| (color, shape)));
    let tile = different_color_same_shape(&mut rng, state.hands[0][0]);
    state.board.insert((0, 1), tile);
    let mut plays = BiBTreeMap::new();
    plays.extend((0..Shape::SHAPES_LEN).map(|index| (index, (index as isize, 0))));
    (state, plays)
}

fn set_up_next_play_double_match() -> (NextState, Plays) {
    let mut rng = rand::thread_rng();
    let mut state = NextState::empty_next_state();
    next_players(&mut state, &mut rng);
    next_bag(&mut state, &mut rng);
    let tile = next_tile(&mut rng);
    let (color, shape) = tile;
    state.board.extend(
        Color::colors()
            .into_iter()
            .filter(|&other| color != other)
            .map(|other| (other, shape))
            .enumerate()
            .map(|(index, tile)| (((index + 1) as isize, 0), tile)),
    );
    state.board.extend(
        Shape::shapes()
            .into_iter()
            .filter(|&other| shape != other)
            .map(|other| (color, other))
            .enumerate()
            .map(|(index, tile)| ((0, (index + 1) as isize), tile)),
    );
    state.hands[0].push(tile);
    let mut plays = BiBTreeMap::new();
    plays.insert(0, (0, 0));
    (state, plays)
}

#[test]
fn has_ended() {
    let mut rng = rand::thread_rng();
    let mut state = NextState::empty_next_state();
    next_bag(&mut state, &mut rng);
    next_players(&mut state, &mut rng);
    state.deadlocked_board();
    next_hands(&mut state, &mut rng);
    exchange_error(state, [0], NextExchangeError::HasEnded);
}

#[test]
fn empty_tiles() {
    let mut rng = rand::thread_rng();
    let mut state = NextState::empty_next_state();
    next_players(&mut state, &mut rng);
    random_board(&mut state.board, &mut rng);
    next_hands(&mut state, &mut rng);
    exchange_error(state, [], NextExchangeError::EmptyTiles);
}

#[test]
fn next_exchange_indexes_out_of_bounds() {
    let mut rng = rand::thread_rng();
    let mut state = NextState::empty_next_state();
    next_players(&mut state, &mut rng);
    next_bag(&mut state, &mut rng);
    random_board(&mut state.board, &mut rng);
    let hand_len = next_hands(&mut state, &mut rng);
    let illegal_exchanges: Exchanges = (1..hand_len).map(|_| rng.gen_range(hand_len..=usize::MAX)).collect();
    let mut exchanges = illegal_exchanges.clone();
    exchanges.insert(0);
    exchange_error(state, exchanges, NextExchangeError::IndexesOutOfBounds { illegal_exchanges, hand_len });
}

#[test]
fn indexes_out_of_bounds_no_legal_tiles() {
    let mut rng = rand::thread_rng();
    let mut state = NextState::empty_next_state();
    next_players(&mut state, &mut rng);
    random_board(&mut state.board, &mut rng);
    let hand_len = next_hands(&mut state, &mut rng);
    let illegal_exchanges: Exchanges = (0..hand_len).map(|_| rng.gen_range(hand_len..=usize::MAX)).collect();
    exchange_errors(
        state,
        illegal_exchanges.clone(),
        HashSet::from([NextExchangeError::IndexesOutOfBounds { illegal_exchanges, hand_len }, NextExchangeError::NoLegalTiles]),
    );
}

#[test]
fn next_exchange_not_enough_tiles() {
    let mut rng = rand::thread_rng();
    let mut state = NextState::empty_next_state();
    next_players(&mut state, &mut rng);
    random_board(&mut state.board, &mut rng);
    next_hands(&mut state, &mut rng);
    exchange_error(state, [0], NextExchangeError::NotEnoughTiles { legal_exchanges: 1, bag_len: 0 });
}

#[test]
fn indexes_out_of_bounds_not_enough_tiles() {
    let mut rng = rand::thread_rng();
    let mut state = NextState::empty_next_state();
    next_players(&mut state, &mut rng);
    random_board(&mut state.board, &mut rng);
    let hand_len = next_hands(&mut state, &mut rng);
    let illegal_exchanges: Exchanges = (1..hand_len).map(|_| rng.gen_range(hand_len..=usize::MAX)).collect();
    let mut exchanges = illegal_exchanges.clone();
    exchanges.insert(0);
    exchange_errors(
        state,
        exchanges,
        HashSet::from([
            NextExchangeError::IndexesOutOfBounds { illegal_exchanges, hand_len },
            NextExchangeError::NotEnoughTiles { legal_exchanges: 1, bag_len: 0 },
        ]),
    );
}

#[test]
fn exchange_tiles() {
    let mut rng = rand::thread_rng();
    let mut state = NextState::empty_next_state();
    next_players(&mut state, &mut rng);
    random_board(&mut state.board, &mut rng);
    let current_player = state.current_player;
    let hand_color = Color::Blue;
    let first = (hand_color, next_tile(&mut rng).1);
    let second = (hand_color, next_tile(&mut rng).1);
    let third = (hand_color, next_tile(&mut rng).1);
    state.hands[current_player].extend([first, second, third]);
    let bag_tile = (Color::Red, next_tile(&mut rng).1);
    let bag_len = rng.gen_range(state.hands[current_player].len()..10);
    state.bag.extend((0..bag_len).map(|_| bag_tile));
    let exchanges: Exchanges = BTreeSet::from([1]);
    let exchanges_len = exchanges.len();
    state.next_exchange(&exchanges).expect("next_exchange should return Ok");
    let hand = &state.hands[current_player];
    assert_eq!(first, hand[0]);
    assert_eq!(third, hand[1]);
    assert_eq!(bag_tile, hand[2]);
    assert_eq!(bag_len - exchanges_len, state.bag.iter().filter(|&&t| t == bag_tile).count());
    assert_eq!(1, state.bag.iter().filter(|&&t| t == second).count());
}

#[test]
fn exchange_no_points() {
    let (mut state, exchanges) = set_up_next_exchange();
    state.next_exchange(&exchanges).expect("next_exchange should return Ok");
    assert_eq!(0, state.points[0]);
}

#[test]
fn exchange_some_points() {
    let (mut state, exchanges) = set_up_next_exchange();
    random_points(&mut state, &mut rand::thread_rng());
    let points = state.points[0];
    state.next_exchange(&exchanges).expect("next_exchange should return Ok");
    assert_eq!(points, state.points[0]);
}

#[test]
fn exchange_increment_current_player() {
    let (mut state, exchanges) = set_up_next_exchange();
    state.next_exchange(&exchanges).expect("next_exchange should return Ok");
    assert_eq!(1, state.current_player);
}

#[test]
fn exchange_wrap_current_player() {
    let (mut state, exchanges) = set_up_next_exchange();
    state.current_player = state.points.len() - 1;
    state.next_exchange(&exchanges).expect("next_exchange should return Ok");
    assert_eq!(0, state.current_player);
}

#[test]
fn exchange_never_draws_back_returned_tiles() {
    let mut state = NextState::empty_next_state();
    state.points.push(0);
    state.hands.push(vec![(Color::Green, Shape::X), (Color::Green, Shape::Circle)]);
    state.bag.extend([(Color::Red, Shape::Square), (Color::Red, Shape::Clover)]);
    state.board.insert((0, 0), (Color::Blue, Shape::X));
    state.next_exchange(&BTreeSet::from([0, 1])).expect("next_exchange should return Ok");
    assert_eq!(vec![(Color::Red, Shape::Square), (Color::Red, Shape::Clover)], state.hands[0]);
    let mut bag = state.bag.clone();
    bag.sort_by_key(|&(c, s)| (c as usize, s as usize));
    assert_eq!(vec![(Color::Green, Shape::Circle), (Color::Green, Shape::X)], bag);
}

#[test]
fn next_play_empty_plays() {
    let mut rng = rand::thread_rng();
    let mut state = NextState::empty_next_state();
    next_players(&mut state, &mut rng);
    next_hands(&mut state, &mut rng);
    next_play_error(state, [], NextPlayError::EmptyPlays);
}

#[test]
fn next_play_indexes_out_of_bounds() {
    let mut rng = rand::thread_rng();
    let mut state = NextState::empty_next_state();
    next_players(&mut state, &mut rng);
    let hand_len = next_hands(&mut state, &mut rng);
    let tile = different_shape_same_color(&mut rng, state.hands[0][0]);
    state.board.insert((0, -1), tile);
    let indexes_out_of_bounds: Plays = (1..rng.gen_range(3..=6)).map(|index| (hand_len + index, (index as isize, 0))).collect();
    let mut plays = indexes_out_of_bounds.clone();
    plays.insert(0, (0, 0));
    next_play_error(state, plays, NextPlayError::IndexesOutOfBounds { indexes_out_of_bounds });
}

#[test]
fn next_play_coordinates_out_of_bounds() {
    let mut rng = rand::thread_rng();
    let mut state = NextState::empty_next_state();
    next_players(&mut state, &mut rng);
    for _ in 0..=4 {
        let tile = next_tile(&mut rng);
        state.hands[0].push(tile);
    }
    let tile = different_color_same_shape(&mut rng, state.hands[0][0]);
    state.board.insert((0, -1), tile);
    let illegal_plays: Plays = (1..).zip(next_illegal_coordinates(&mut rng)).collect();
    let mut plays = illegal_plays.clone();
    plays.insert(0, (0, 0));
    next_play_error(state, plays, NextPlayError::CoordinatesOutOfBounds { coordinates_out_of_bounds: illegal_plays });
}

#[test]
fn coordinates_occupied() {
    let mut rng = rand::thread_rng();
    let mut state = NextState::empty_next_state();
    next_players(&mut state, &mut rng);
    random_board(&mut state.board, &mut rng);
    let hand_len = next_hands(&mut state, &mut rng);
    let coordinates_occupied: Plays =
        state.board.keys().take(hand_len - 1).enumerate().map(|(index, &coordinate)| (index + 1, coordinate)).collect();
    let &(x, y) = state.board.keys().next().expect("random_board should not produce an empty board");
    let tile = different_shape_same_color(&mut rng, state.hands[0][0]);
    state.board.insert((x, y), tile);
    let mut plays = coordinates_occupied.clone();
    plays.insert(0, (x, y + 1));
    next_play_error(state, plays, NextPlayError::CoordinatesOccupied { coordinates_occupied });
}

#[test]
fn not_connected() {
    let mut rng = rand::thread_rng();
    let mut state = NextState::empty_next_state();
    next_players(&mut state, &mut rng);
    let hand_len = next_hands(&mut state, &mut rng);
    let not_connected: Plays = (0..hand_len - 1).map(|index| (index + 1, (index as isize, 3))).collect();
    let tile = different_color_same_shape(&mut rng, state.hands[0][0]);
    state.board.insert((0, -1), tile);
    let mut plays = not_connected.clone();
    plays.insert(0, (0, 0));
    next_play_error(state, plays, NextPlayError::NotConnected { not_connected });
}

#[test]
fn indexes_out_of_bounds_coordinates_occupied() {
    let mut rng = rand::thread_rng();
    let mut state = NextState::empty_next_state();
    next_players(&mut state, &mut rng);
    random_board(&mut state.board, &mut rng);
    let hand_len = next_hands(&mut state, &mut rng);
    let illegal_plays: Plays =
        state.board.keys().enumerate().map(|(index, &coordinate)| (hand_len + index + 1, coordinate)).collect();
    let &(x, y) = state.board.keys().next().expect("random_board should not produce an empty board");
    let tile = different_shape_same_color(&mut rng, state.hands[0][0]);
    state.board.insert((x, y), tile);
    let mut plays = illegal_plays.clone();
    plays.insert(0, (x, y + 1));
    next_play_errors(
        state,
        plays,
        HashSet::from([
            NextPlayError::IndexesOutOfBounds { indexes_out_of_bounds: illegal_plays.clone() },
            NextPlayError::CoordinatesOccupied { coordinates_occupied: illegal_plays },
        ]),
    );
}

#[test]
fn indexes_out_of_bounds_not_connected_no_legal_plays() {
    let mut rng = rand::thread_rng();
    let mut state = NextState::empty_next_state();
    next_players(&mut state, &mut rng);
    let hand_len = next_hands(&mut state, &mut rng);
    let illegal_plays: Plays = (0..rng.gen_range(3..=6)).map(|index| (hand_len + index, (index as isize, 0))).collect();
    next_play_errors(
        state,
        illegal_plays.clone(),
        HashSet::from([
            NextPlayError::IndexesOutOfBounds { indexes_out_of_bounds: illegal_plays.clone() },
            NextPlayError::NotConnected { not_connected: illegal_plays },
            NextPlayError::NoLegalPlays,
        ]),
    );
}

#[test]
fn next_play_no_legal_lines() {
    let mut rng = rand::thread_rng();
    let mut state = NextState::empty_next_state();
    next_players(&mut state, &mut rng);
    let color = next_tile(&mut rng).0;
    state.board.extend([((0, 1), (color, Shape::Clover)), ((1, 2), (color, Shape::Starburst))]);
    state.hands[0].extend([(color, Shape::Starburst), (color, Shape::X), (color, Shape::Clover)]);
    next_play_error(state, [(0, (0, 0)), (1, (1, 1)), (2, (2, 2))], NextPlayError::NoLegalLines);
}

#[test]
fn next_play_holes() {
    let mut rng = rand::thread_rng();
    let mut state = NextState::empty_next_state();
    next_players(&mut state, &mut rng);
    let shape = next_tile(&mut rng).1;
    state.board.extend(
        Color::colors().into_iter().map(|color| (color, shape)).enumerate().map(|(index, tile)| ((-1, index as isize), tile)),
    );
    state.hands[0].extend([(Color::Purple, shape), (Color::Green, shape), (Color::Red, shape)]);
    next_play_error(
        state,
        [(0, (0, 0)), (1, (0, 2)), (2, (0, 5))],
        NextPlayError::Holes { holes: BTreeSet::from([((0, 1), (0, 1)), ((0, 3), (0, 4))]) },
    );
}

#[test]
fn next_play_holes_limit() {
    let mut rng = rand::thread_rng();
    let mut state = NextState::empty_next_state();
    next_players(&mut state, &mut rng);
    let color = next_tile(&mut rng).0;
    state.hands[0].extend([(color, Shape::Starburst), (color, Shape::X), (color, Shape::Clover)]);
    let a = different_color_same_shape(&mut rng, state.hands[0][0]);
    let b = different_shape_same_color(&mut rng, state.hands[0][1]);
    let c = different_color_same_shape(&mut rng, state.hands[0][2]);
    state.board.extend([((1, -COORDINATE_LIMIT + 1), a), ((1, 0), b), ((1, COORDINATE_LIMIT - 1), c)]);
    let limit = ((HOLES_LIMIT + 1) / 2) as isize;
    next_play_error(
        state,
        [(0, (0, -COORDINATE_LIMIT + 1)), (1, (0, 0)), (2, (0, COORDINATE_LIMIT - 1))],
        NextPlayError::Holes { holes: BTreeSet::from([((0, -limit), (0, -1)), ((0, 1), (0, limit))]) },
    );
}

#[test]
fn duplicates_vertical() {
    let mut rng = rand::thread_rng();
    let mut state = NextState::empty_next_state();
    next_players(&mut state, &mut rng);
    let tile = next_tile(&mut rng);
    let matching_tile = different_shape_same_color(&mut rng, tile);
    state.board.insert((0, 0), tile);
    state.board.insert((0, 1), matching_tile);
    state.hands[0].extend([tile, tile]);
    next_play_errors(
        state,
        [(0, (1, 0)), (1, (1, 1))],
        HashSet::from([
            NextPlayError::Duplicates { duplicates: next_groups(&[&[(1, 0), (1, 1)]]) },
            NextPlayError::Duplicates { duplicates: next_groups(&[&[(0, 0), (1, 0)]]) },
        ]),
    );
}

#[test]
fn duplicates_horizontal() {
    let mut rng = rand::thread_rng();
    let mut state = NextState::empty_next_state();
    next_players(&mut state, &mut rng);
    let tile = next_tile(&mut rng);
    let matching_tile = different_color_same_shape(&mut rng, tile);
    state.board.insert((0, 0), tile);
    state.board.insert((1, 0), matching_tile);
    state.hands[0].extend([tile, tile]);
    next_play_errors(
        state,
        [(0, (0, 1)), (1, (1, 1))],
        HashSet::from([
            NextPlayError::Duplicates { duplicates: next_groups(&[&[(0, 1), (1, 1)]]) },
            NextPlayError::Duplicates { duplicates: next_groups(&[&[(0, 0), (0, 1)]]) },
        ]),
    );
}

#[test]
fn multiple_matching_vertical() {
    let mut state = NextState::empty_next_state();
    next_players(&mut state, &mut rand::thread_rng());
    state.board.extend([
        ((-1, -1), (Color::Green, Shape::Diamond)),
        ((1, -1), (Color::Red, Shape::Square)),
        ((-1, 0), (Color::Green, Shape::X)),
        ((1, 0), (Color::Yellow, Shape::Circle)),
        ((-1, 1), (Color::Blue, Shape::Starburst)),
        ((1, 1), (Color::Purple, Shape::Circle)),
    ]);
    state.hands[0].extend([(Color::Green, Shape::Square), (Color::Green, Shape::Circle), (Color::Blue, Shape::Circle)]);
    next_play_errors(
        state,
        [(0, (0, -1)), (1, (0, 0)), (2, (0, 1))],
        HashSet::from([
            NextPlayError::MultipleMatching { multiple_matching: next_groups(&[&[(0, -1), (0, 0)], &[(0, 0), (0, 1)]]) },
            NextPlayError::MultipleMatching { multiple_matching: next_groups(&[&[(-1, -1), (0, -1)], &[(0, -1), (1, -1)]]) },
            NextPlayError::MultipleMatching { multiple_matching: next_groups(&[&[(-1, 0), (0, 0)], &[(0, 0), (1, 0)]]) },
            NextPlayError::MultipleMatching { multiple_matching: next_groups(&[&[(-1, 1), (0, 1)], &[(0, 1), (1, 1)]]) },
        ]),
    );
}

#[test]
fn multiple_matching_horizontal() {
    let mut state = NextState::empty_next_state();
    next_players(&mut state, &mut rand::thread_rng());
    state.board.extend([
        ((-1, -1), (Color::Green, Shape::Diamond)),
        ((-1, 1), (Color::Red, Shape::Square)),
        ((0, -1), (Color::Green, Shape::X)),
        ((0, 1), (Color::Yellow, Shape::Circle)),
        ((1, -1), (Color::Blue, Shape::Starburst)),
        ((1, 1), (Color::Purple, Shape::Circle)),
    ]);
    state.hands[0].extend([(Color::Green, Shape::Square), (Color::Green, Shape::Circle), (Color::Blue, Shape::Circle)]);
    next_play_errors(
        state,
        [(0, (-1, 0)), (1, (0, 0)), (2, (1, 0))],
        HashSet::from([
            NextPlayError::MultipleMatching { multiple_matching: next_groups(&[&[(-1, 0), (0, 0)], &[(0, 0), (1, 0)]]) },
            NextPlayError::MultipleMatching { multiple_matching: next_groups(&[&[(-1, -1), (-1, 0)], &[(-1, 0), (-1, 1)]]) },
            NextPlayError::MultipleMatching { multiple_matching: next_groups(&[&[(0, -1), (0, 0)], &[(0, 0), (0, 1)]]) },
            NextPlayError::MultipleMatching { multiple_matching: next_groups(&[&[(1, -1), (1, 0)], &[(1, 0), (1, 1)]]) },
        ]),
    );
}

#[test]
fn next_play_tiles() {
    let mut rng = rand::thread_rng();
    let mut state = NextState::empty_next_state();
    next_players(&mut state, &mut rng);
    state.board.insert((0, 0), (Color::Yellow, Shape::X));
    let first = (Color::Green, Shape::X);
    let second = (Color::Green, Shape::Clover);
    let third = (Color::Purple, Shape::Diamond);
    let fourth = (Color::Green, Shape::Square);
    state.hands[0].extend([first, second, third, fourth]);
    let bag_tile = (Color::Orange, next_tile(&mut rng).1);
    let bag_len = rng.gen_range(state.hands[0].len()..10);
    state.bag.extend((0..bag_len).map(|_| bag_tile));
    let mut plays = BiBTreeMap::new();
    plays.extend([(0, (1, 0)), (1, (1, 1)), (3, (1, 2))]);
    let plays_len = plays.len();
    let next_state =
        state.next_play(&plays).ok().expect("next_play should return Ok").left().expect("Ok should contain next_state");
    let hand = &next_state.hands[0];
    assert_eq!(third, hand[0]);
    assert_eq!(bag_tile, hand[1]);
    assert_eq!(bag_tile, hand[2]);
    assert_eq!(bag_tile, hand[3]);
    assert_eq!(bag_len - plays_len, next_state.bag.len());
    assert_eq!(first, next_state.board[&(1, 0)]);
    assert_eq!(second, next_state.board[&(1, 1)]);
    assert_eq!(fourth, next_state.board[&(1, 2)]);
}

#[test]
fn next_play_some_points() {
    let (state, plays) = set_up_next_play();
    let next_state = state.next_play(&plays).ok().expect("next_play should return Ok").left().expect("Ok should contain next_state");
    assert_eq!(2 + plays.len(), next_state.points[0]);
}

#[test]
fn next_play_some_points_last_play() {
    let (mut state, plays) = set_up_next_play();
    state.bag.clear();
    let mut last_state: LastState =
        state.next_play(&plays).ok().expect("next_play should return Ok").right().expect("Ok should contain last_state");
    assert_eq!(2 + plays.len() + LAST_PLAY_BONUS, last_state.mut_points()[0]);
}

#[test]
fn next_play_full_match() {
    let (state, plays) = set_up_next_play_full_match();
    let next_state = state.next_play(&plays).ok().expect("next_play should return Ok").left().expect("Ok should contain next_state");
    assert_eq!(2 + plays.len() + FULL_MATCH_BONUS, next_state.points[0]);
}

#[test]
fn next_play_double_full_match() {
    let (state, plays) = set_up_next_play_double_match();
    let next_state = state.next_play(&plays).ok().expect("next_play should return Ok").left().expect("Ok should contain next_state");
    assert_eq!(Color::COLORS_LEN + Shape::SHAPES_LEN + 2 * FULL_MATCH_BONUS, next_state.points[0]);
}

#[test]
fn next_play_double_full_match_last_play() {
    let (mut state, plays) = set_up_next_play_double_match();
    state.bag.clear();
    let mut last_state =
        state.next_play(&plays).ok().expect("next_play should return Ok").right().expect("Ok should contain last_state");
    assert_eq!(Color::COLORS_LEN + Shape::SHAPES_LEN + 2 * FULL_MATCH_BONUS + LAST_PLAY_BONUS, last_state.mut_points()[0]);
}

#[test]
fn next_play_full_match_last_play() {
    let (mut state, plays) = set_up_next_play_full_match();
    state.bag.clear();
    let mut last_state =
        state.next_play(&plays).ok().expect("next_play should return Ok").right().expect("Ok should contain last_state");
    assert_eq!(2 + plays.len() + FULL_MATCH_BONUS + LAST_PLAY_BONUS, last_state.mut_points()[0]);
}

#[test]
fn next_play_increment_current_player() {
    let (state, plays) = set_up_next_play();
    let next_state = state.next_play(&plays).ok().expect("next_play should return Ok").left().expect("Ok should contain next_state");
    assert_eq!(1, next_state.current_player);
}

#[test]
fn next_play_wrap_current_player() {
    let (mut state, plays) = set_up_next_play();
    let last = state.hands.len() - 1;
    state.current_player = last;
    let next_hand = state.hands[0].clone();
    state.hands[last].extend(next_hand);
    let next_state = state.next_play(&plays).ok().expect("next_play should return Ok").left().expect("Ok should contain next_state");
    assert_eq!(0, next_state.current_player);
}

#[test]
fn next_play_deadlock() {
    let mut rng = rand::thread_rng();
    let mut state = NextState::empty_next_state();
    let bag_tile = next_tile(&mut rng);
    state.bag.extend((0..Shape::SHAPES_LEN).map(|_| bag_tile));
    let color = next_tile(&mut rng).0;
    let rows: Vec<(Coordinate, Tile)> = Color::colors()
        .into_iter()
        .filter(|&other| color != other)
        .enumerate()
        .flat_map(|(row, color)| {
            Shape::shapes()
                .into_iter()
                .map(move |shape| (color, shape))
                .enumerate()
                .map(move |(col, tile)| ((col as isize, (row + 1) as isize), tile))
        })
        .collect();
    state.board.extend(rows.iter().copied());
    state.points.push(0);
    state.hands.push(Vec::with_capacity(HAND_CAPACITY));
    state.hands[0].extend(Shape::shapes().into_iter().map(|shape| (color, shape)));
    let mut plays = BiBTreeMap::new();
    plays.extend((0..state.hands[0].len()).map(|index| (index, (index as isize, 0))));
    let hand_len = state.hands[0].len();
    let mut last_state =
        state.next_play(&plays).ok().expect("next_play should return Ok").right().expect("Ok should contain last_state");
    assert_eq!(Color::COLORS_LEN * Shape::SHAPES_LEN, last_state.mut_board().len());
    for (coordinate, tile) in rows {
        assert_eq!(tile, last_state.mut_board()[&coordinate]);
    }
    for (index, shape) in Shape::shapes().into_iter().enumerate() {
        assert_eq!((color, shape), last_state.mut_board()[&(index as isize, 0)]);
    }
    assert_eq!(
        (Shape::SHAPES_LEN + FULL_MATCH_BONUS + LAST_PLAY_BONUS) + (Shape::SHAPES_LEN * (Color::COLORS_LEN + FULL_MATCH_BONUS)),
        last_state.mut_points()[0]
    );
    assert_eq!(hand_len, last_state.mut_hands()[0].len());
    for tile in &last_state.mut_hands()[0] {
        assert_eq!(bag_tile, *tile);
    }
}

#[test]
fn next_play_on_occupied_coordinate_is_rejected() {
    let mut state = NextState::empty_next_state();
    state.points.push(0);
    state.hands.push(vec![(Color::Red, Shape::X)]);
    state.board.insert((0, 0), (Color::Red, Shape::Circle));
    let plays: Plays = [(0, (0, 0))].into_iter().collect();
    next_play_errors(
        state,
        plays.clone(),
        HashSet::from([NextPlayError::CoordinatesOccupied { coordinates_occupied: plays }, NextPlayError::NoLegalPlays]),
    );
}

#[test]
fn next_play_connects_through_other_plays() {
    let mut state = NextState::empty_next_state();
    state.points.extend([0, 0]);
    state.hands.push(vec![(Color::Red, Shape::X), (Color::Red, Shape::Square)]);
    state.hands.push(vec![(Color::Blue, Shape::X)]);
    state.board.insert((0, 0), (Color::Red, Shape::Circle));
    state.bag.extend([(Color::Blue, Shape::Clover), (Color::Blue, Shape::Diamond)]);
    let plays: Plays = [(0, (0, 1)), (1, (0, 2))].into_iter().collect();
    let next_state = state.next_play(&plays).ok().expect("next_play should return Ok").left().expect("Ok should contain next_state");
    assert_eq!(3, next_state.points[0]);
}

#[test]
fn next_view() {
    let mut rng = rand::thread_rng();
    let mut state = NextState::empty_next_state();
    let players = next_players(&mut state, &mut rng);
    let bag_len = next_bag(&mut state, &mut rng);
    random_board(&mut state.board, &mut rng);
    next_hands(&mut state, &mut rng);
    random_points(&mut state, &mut rng);
    state.current_player = rng.gen_range(0..players);
    let view = state.next_view();
    let hands: HandLens = state.hands.iter().map(Vec::len).collect();
    assert_eq!(bag_len, view.bag_len);
    assert_eq!(state.board, *view.board);
    assert_eq!(state.points, *view.points);
    assert_eq!(hands, view.hand_lens);
    assert_eq!(state.current_player, view.current_player);
}

#[test]
fn next_view_get_hand_some() {
    let mut rng = rand::thread_rng();
    let mut state = NextState::empty_next_state();
    let players = next_players(&mut state, &mut rng);
    next_hands(&mut state, &mut rng);
    for player in 0..players {
        let hand = state.get_hand(player).cloned().expect("random_players should enable get_hand to return Some for 0..players");
        assert_eq!(state.hands[player], hand);
    }
}

#[test]
fn next_view_get_hand_none() {
    let mut state = NextState::empty_next_state();
    let players = next_players(&mut state, &mut rand::thread_rng());
    assert!(state.get_hand(players).is_none());
}

#[test]
fn empty_next_state() {
    let state = NextState::empty_next_state();
    assert!(state.bag.is_empty());
    assert_eq!(Board::new(), state.board);
    assert!(state.points.is_empty());
    assert!(state.hands.is_empty());
    assert_eq!(0, state.current_player);
}

#[test]
fn deadlocked_board() {
    let mut rng = rand::thread_rng();
    let mut state = NextState::empty_next_state();
    next_players(&mut state, &mut rng);
    next_hands(&mut state, &mut rng);
    assert!(!state.has_ended());
    state.deadlocked_board();
    assert!(state.has_ended());
}

#[test]
fn last_view() {
    let mut rng = rand::thread_rng();
    let mut last_state = LastState::empty_last_state();
    random_board(last_state.mut_board(), &mut rng);
    let players = rng.gen_range(2..=PLAYER_CAPACITY);
    for _ in 0..players {
        last_state.mut_points().push(0);
        last_state.mut_hands().push(Vec::new());
    }
    let view = last_state.last_view();
    assert_eq!(last_state.board, *view.board);
    assert_eq!(last_state.points, *view.points);
    assert_eq!(last_state.hands, *view.hands);
}

#[test]
fn empty_last_state() {
    let last_state = LastState::empty_last_state();
    assert_eq!(Board::new(), last_state.board);
    assert!(last_state.points.is_empty());
    assert!(last_state.hands.is_empty());
}
