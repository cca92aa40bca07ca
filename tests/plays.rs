use bimap::BiBTreeMap;
use qwirkle::{
    batch_continuous_decreasing_range, batch_continuous_increasing_range, check_line, partition_by_coordinates,
    possible_plays, Board, Color, Coordinate, Groups, Plays, Shape, Tile, COORDINATE_LIMIT, FULL_MATCH_BONUS,
};
use rand::seq::SliceRandom;
use rand::Rng;
use std::collections::BTreeSet;

fn legal_coordinates(rng: &mut impl Rng) -> Vec<Coordinate> {
    let mut coordinates = vec![
        (-rng.gen_range(0..COORDINATE_LIMIT), -rng.gen_range(0..COORDINATE_LIMIT)),
        (-rng.gen_range(0..COORDINATE_LIMIT), rng.gen_range(0..COORDINATE_LIMIT)),
        (rng.gen_range(0..COORDINATE_LIMIT), -rng.gen_range(0..COORDINATE_LIMIT)),
        (rng.gen_range(0..COORDINATE_LIMIT), rng.gen_range(0..COORDINATE_LIMIT)),
    ];
    coordinates.shuffle(rng);
    coordinates
}

fn illegal_coordinates(rng: &mut impl Rng) -> Vec<Coordinate> {
    let mut coordinates = vec![
        (-rng.gen_range(0..isize::MAX), -rng.gen_range(COORDINATE_LIMIT..isize::MAX)),
        (-rng.gen_range(COORDINATE_LIMIT..isize::MAX), rng.gen_range(0..isize::MAX)),
        (rng.gen_range(COORDINATE_LIMIT..isize::MAX), -rng.gen_range(0..isize::MAX)),
        (rng.gen_range(0..isize::MAX), rng.gen_range(COORDINATE_LIMIT..isize::MAX)),
    ];
    coordinates.shuffle(rng);
    coordinates
}

fn check_partition(plays: Plays, expected_in: Plays, expected_out: Plays) {
    let (actual_in, actual_out) = partition_by_coordinates(&plays);
    assert_eq!(expected_in, actual_in);
    assert_eq!(expected_out, actual_out);
}

fn as_sets(groups: &Groups) -> BTreeSet<BTreeSet<Coordinate>> {
    groups.iter().map(|group| group.iter().copied().collect()).collect()
}

fn set_of(groups: &[&[Coordinate]]) -> BTreeSet<BTreeSet<Coordinate>> {
    groups.iter().map(|group| group.iter().copied().collect()).collect()
}

fn check_line_error(line: Board, expected_duplicates: BTreeSet<BTreeSet<Coordinate>>, expected_multiple: BTreeSet<BTreeSet<Coordinate>>) {
    let (duplicates, multiple) = check_line(&line).expect_err("check_line should return Err");
    assert_eq!(expected_duplicates, as_sets(&duplicates));
    assert_eq!(expected_multiple, as_sets(&multiple));
}

fn check_line_points(line: Board, expected: usize) {
    assert_eq!(expected, check_line(&line).expect("check_line should return Ok"));
}

fn board_of(entries: &[(Coordinate, Tile)]) -> Board {
    entries.iter().copied().collect()
}

fn possible(k: usize) -> BTreeSet<BTreeSet<usize>> {
    let hand = vec![
        (Color::Green, Shape::X),
        (Color::Green, Shape::Clover),
        (Color::Green, Shape::Square),
        (Color::Red, Shape::Square),
        (Color::Red, Shape::Square),
        (Color::Orange, Shape::Circle),
    ];
    possible_plays(&hand, k).into_iter().map(|play| play.into_iter().collect()).collect()
}

fn index_sets(sets: &[&[usize]]) -> BTreeSet<BTreeSet<usize>> {
    sets.iter().map(|set| set.iter().copied().collect()).collect()
}

fn check_decreasing(values: Vec<isize>, expected: Option<(isize, isize)>) -> (Vec<isize>, usize) {
    let mut position = 0;
    assert_eq!(expected, batch_continuous_decreasing_range(&values, &mut position));
    (values, position)
}

fn check_increasing(values: Vec<isize>, expected: Option<(isize, isize)>) -> (Vec<isize>, usize) {
    let mut position = 0;
    assert_eq!(expected, batch_continuous_increasing_range(&values, &mut position));
    (values, position)
}

fn random_color(rng: &mut impl Rng) -> Color {
    Color::from_index(rng.gen_range(0..Color::COLORS_LEN)).unwrap()
}

#[test]
fn partition_by_coordinates_empty_plays() {
    check_partition(Plays::new(), Plays::new(), Plays::new());
}

#[test]
fn partition_by_coordinates_in_bounds() {
    let plays: Plays = (1..).zip(legal_coordinates(&mut rand::thread_rng())).collect();
    check_partition(plays.clone(), plays, Plays::new());
}

#[test]
fn partition_by_coordinates_out_of_bounds() {
    let plays: Plays = (1..).zip(illegal_coordinates(&mut rand::thread_rng())).collect();
    check_partition(plays.clone(), Plays::new(), plays);
}

#[test]
fn partition_by_coordinates_on_edge_case() {
    let plays: Plays = (1..)
        .zip([(0, COORDINATE_LIMIT), (0, -COORDINATE_LIMIT), (COORDINATE_LIMIT, 0), (-COORDINATE_LIMIT, 0)])
        .collect();
    check_partition(plays.clone(), Plays::new(), plays);
}

#[test]
fn partition_by_coordinates_both_in_and_out_of_bounds() {
    let mut rng = rand::thread_rng();
    let legal_plays: Plays = (1..).step_by(2).zip(legal_coordinates(&mut rng)).collect();
    let illegal_plays: Plays = (2..).step_by(2).zip(illegal_coordinates(&mut rng)).collect();
    let plays = legal_plays.clone().into_iter().chain(illegal_plays.clone()).collect();
    check_partition(plays, legal_plays, illegal_plays);
}

#[test]
fn possible_plays_empty_hand() {
    let actual: Vec<Vec<usize>> = possible_plays(&Vec::new(), 1);
    assert!(actual.is_empty());
}

#[test]
fn possible_plays_k_0() {
    assert_eq!(index_sets(&[&[]]), possible(0));
}

#[test]
fn possible_plays_k_1() {
    assert_eq!(index_sets(&[&[0], &[1], &[2], &[3], &[5]]), possible(1));
}

#[test]
fn possible_plays_k_2() {
    assert_eq!(index_sets(&[&[0, 1], &[0, 2], &[1, 2], &[2, 3]]), possible(2));
}

#[test]
fn possible_plays_k_3() {
    assert_eq!(index_sets(&[&[0, 1, 2]]), possible(3));
}

#[test]
fn possible_plays_k_4() {
    assert_eq!(index_sets(&[]), possible(4));
}

#[test]
fn check_line_duplicates() {
    let first_duplicate = (Color::Green, Shape::Square);
    let second_duplicate = (Color::Green, Shape::X);
    let third_duplicate = (Color::Green, Shape::Circle);
    check_line_error(
        board_of(&[
            ((0, 0), first_duplicate),
            ((0, 1), second_duplicate),
            ((0, 2), third_duplicate),
            ((0, 3), second_duplicate),
            ((0, 4), first_duplicate),
            ((0, 5), second_duplicate),
            ((0, 6), third_duplicate),
        ]),
        set_of(&[&[(0, 0), (0, 4)], &[(0, 1), (0, 3), (0, 5)], &[(0, 2), (0, 6)]]),
        set_of(&[]),
    );
}

#[test]
fn check_line_multiple_matching() {
    check_line_error(
        board_of(&[
            ((0, 0), (Color::Green, Shape::Square)),
            ((0, 1), (Color::Red, Shape::X)),
            ((0, 2), (Color::Red, Shape::Clover)),
            ((0, 3), (Color::Yellow, Shape::X)),
            ((0, 4), (Color::Green, Shape::X)),
            ((0, 5), (Color::Blue, Shape::Diamond)),
        ]),
        set_of(&[]),
        set_of(&[&[(0, 0), (0, 4)], &[(0, 1), (0, 3), (0, 4)], &[(0, 1), (0, 2)], &[(0, 5)]]),
    );
}

#[test]
fn check_line_duplicates_multiple_matching() {
    check_line_error(
        board_of(&[
            ((0, 0), (Color::Purple, Shape::Starburst)),
            ((0, 1), (Color::Purple, Shape::Starburst)),
            ((0, 2), (Color::Red, Shape::X)),
        ]),
        set_of(&[&[(0, 0), (0, 1)]]),
        set_of(&[&[(0, 0), (0, 1)], &[(0, 2)]]),
    );
}

#[test]
fn check_line_empty() {
    check_line_points(Board::new(), 0);
}

#[test]
fn check_line_partial_match() {
    check_line_points(
        board_of(&[
            ((0, 0), (Color::Orange, Shape::Starburst)),
            ((0, 1), (Color::Blue, Shape::Starburst)),
            ((0, 2), (Color::Purple, Shape::Starburst)),
        ]),
        3,
    );
}

#[test]
fn check_line_full_match() {
    let color = random_color(&mut rand::thread_rng());
    let line: Board = Shape::shapes()
        .into_iter()
        .map(|shape| (color, shape))
        .enumerate()
        .map(|(index, tile)| ((index as isize, 0), tile))
        .collect();
    check_line_points(line, Shape::SHAPES_LEN + FULL_MATCH_BONUS);
}

#[test]
fn check_line_every_color_once_gets_bonus() {
    let line: Board = Color::colors()
        .into_iter()
        .map(|color| (color, Shape::Diamond))
        .enumerate()
        .map(|(index, tile)| ((0, index as isize), tile))
        .collect();
    check_line_points(line, Color::COLORS_LEN + FULL_MATCH_BONUS);
}

#[test]
fn check_line_single_tile() {
    check_line_points(board_of(&[((4, -2), (Color::Blue, Shape::Clover))]), 1);
}

#[test]
fn batch_continuous_decreasing_range_none() {
    check_decreasing(Vec::new(), None);
}

#[test]
fn batch_continuous_decreasing_range_one_value() {
    let first = rand::thread_rng().gen();
    check_decreasing(vec![first], Some((first, first)));
}

#[test]
fn batch_continuous_decreasing_range_not_continuous() {
    let first = rand::thread_rng().gen_range(isize::MIN + 2..=isize::MAX);
    check_decreasing(vec![first, first - 2], Some((first, first)));
}

#[test]
fn batch_continuous_decreasing_range_not_decreasing() {
    let first = rand::thread_rng().gen_range(isize::MIN..=isize::MAX - 1);
    check_decreasing(vec![first, first + 1], Some((first, first)));
}

#[test]
fn batch_continuous_decreasing_range_wide() {
    let mut rng = rand::thread_rng();
    let diff = rng.gen_range(100..200);
    let first = rng.gen_range(isize::MIN..=isize::MAX - diff);
    check_decreasing((first - diff..=first).rev().collect(), Some((first - diff, first)));
}

#[test]
fn batch_continuous_decreasing_range_peekable_not_finished() {
    let mut rng = rand::thread_rng();
    let diff = rng.gen_range(100..200);
    let first = rng.gen_range(isize::MIN..=isize::MAX - 2 * diff);
    let next = first + diff + 2..=first + 2 * diff;
    let values: Vec<isize> = (first..=first + diff).chain(next).rev().collect();
    let (values, position) = check_decreasing(values, Some((first + diff + 2, first + 2 * diff)));
    assert!(values[position..].iter().copied().eq((first..=first + diff).rev()));
}

#[test]
fn batch_continuous_increasing_range_none() {
    check_increasing(Vec::new(), None);
}

#[test]
fn batch_continuous_increasing_range_one_value() {
    let first = rand::thread_rng().gen();
    check_increasing(vec![first], Some((first, first)));
}

#[test]
fn batch_continuous_increasing_range_not_continuous() {
    let first = rand::thread_rng().gen_range(isize::MIN..=isize::MAX - 2);
    check_increasing(vec![first, first + 2], Some((first, first)));
}

#[test]
fn batch_continuous_increasing_range_not_increasing() {
    let first = rand::thread_rng().gen_range(isize::MIN + 1..=isize::MAX);
    check_increasing(vec![first, first - 1], Some((first, first)));
}

#[test]
fn batch_continuous_increasing_range_wide() {
    let mut rng = rand::thread_rng();
    let diff = rng.gen_range(100..200);
    let first = rng.gen_range(isize::MIN..=isize::MAX - diff);
    check_increasing((first..=first + diff).collect(), Some((first, first + diff)));
}

#[test]
fn batch_continuous_increasing_range_peekable_not_finished() {
    let mut rng = rand::thread_rng();
    let diff = rng.gen_range(100..200);
    let first = rng.gen_range(isize::MIN..=isize::MAX - 2 * diff);
    let next = first + diff + 2..=first + 2 * diff;
    let values: Vec<isize> = (first..=first + diff).chain(next.clone()).collect();
    let (values, position) = check_increasing(values, Some((first, first + diff)));
    assert!(values[position..].iter().copied().eq(next));
}

#[test]
fn batch_stops_at_largest_value() {
    check_increasing(vec![isize::MAX - 1, isize::MAX], Some((isize::MAX - 1, isize::MAX)));
    check_decreasing(vec![isize::MIN + 1, isize::MIN], Some((isize::MIN, isize::MIN + 1)));
}

#[test]
fn bimap_of_plays_keeps_pairs() {
    let plays: Plays = BiBTreeMap::from_iter([(2, (0, 1)), (0, (0, 0))]);
    let (inside, outside) = partition_by_coordinates(&plays);
    assert_eq!(2, inside.len());
    assert!(outside.is_empty());
}

#[test]
fn check_line_groups_come_sorted() {
    let line = board_of(&[
        ((0, 4), (Color::Red, Shape::Circle)),
        ((0, 1), (Color::Blue, Shape::X)),
        ((0, 3), (Color::Red, Shape::Circle)),
        ((0, 0), (Color::Blue, Shape::X)),
    ]);
    let (duplicates, multiple) = check_line(&line).expect_err("check_line should return Err");
    assert_eq!(vec![vec![(0, 0), (0, 1)], vec![(0, 3), (0, 4)]], duplicates);
    assert_eq!(vec![vec![(0, 0), (0, 1)], vec![(0, 3), (0, 4)]], multiple);
}
