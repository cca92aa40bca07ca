use qwirkle::{adjacent_coordinates, find_component_minimums_and_maximums, find_coordinate_by_minimum_distance, Coordinate};
use rand::seq::SliceRandom;
use rand::Rng;

fn check_bounds(coordinates: &[Coordinate], expected: (isize, isize, isize, isize)) {
    let actual = find_component_minimums_and_maximums(coordinates)
        .expect("find_component_minimums_and_maximums should return Some");
    assert_eq!(expected, actual);
}

fn check_nearest(coordinates: &[Coordinate], expected: Coordinate) {
    let actual = find_coordinate_by_minimum_distance(coordinates)
        .expect("find_coordinate_by_minimum_distance should return Some");
    assert_eq!(expected, actual);
}

#[test]
fn find_component_minimums_and_maximums_empty() {
    assert!(find_component_minimums_and_maximums(&[]).is_none());
}

#[test]
fn find_component_minimums_and_maximums_one_coordinate() {
    let (x, y): (isize, isize) = rand::thread_rng().gen();
    check_bounds(&[(x, y)], (x, y, x, y));
}

#[test]
fn find_component_minimums_and_maximums_mix_components() {
    let mut rng = rand::thread_rng();
    let (x1, y1) = (rng.gen_range(0..100), rng.gen_range(200..300));
    let (x2, y2) = (rng.gen_range(800..900), rng.gen_range(0..100));
    let (x3, y3) = (rng.gen_range(300..400), rng.gen_range(100..200));
    check_bounds(&[(x1, y1), (x2, y2), (x3, y3)], (x1, y2, x2, y1));
}

#[test]
fn test_find_component_minimums_and_maximums_empty() {
    assert!(find_coordinate_by_minimum_distance(&[]).is_none());
}

#[test]
fn test_find_component_minimums_and_maximums_one_coordinate() {
    let coordinate: Coordinate = rand::thread_rng().gen();
    check_nearest(&[coordinate], coordinate);
}

#[test]
fn test_find_component_minimums_and_maximums_different_coordinates_one_solution() {
    let mut rng = rand::thread_rng();
    let limit: isize = rng.gen_range(5..10);
    let coordinate = (rng.gen_range(-limit..=limit), rng.gen_range(-limit..=limit));
    let mut coordinates = Vec::new();
    for (x_sign, y_sign) in [(1, 1), (1, -1), (-1, -1), (-1, 1)] {
        let count = rng.gen_range(2..=4);
        for _ in 0..count {
            coordinates.push((
                x_sign * rng.gen_range((limit + 1)..(2 * limit)),
                y_sign * rng.gen_range((limit + 1)..(2 * limit)),
            ));
        }
    }
    coordinates.push(coordinate);
    check_nearest(&coordinates, coordinate);
}

#[test]
fn test_find_component_minimums_and_maximums_different_coordinates_multiple_solutions() {
    let mut coordinates = [(1, 1), (1, -1), (-1, -1), (-1, 1)];
    coordinates.shuffle(&mut rand::thread_rng());
    check_nearest(&coordinates, coordinates[0]);
}

#[test]
fn nearest_is_exact_for_close_distances() {
    check_nearest(&[(3, 4), (0, 5), (1, 4)], (1, 4));
    check_nearest(&[(3, 4), (0, 5), (4, 3)], (3, 4));
}

#[test]
fn test_adjacent_coordinates() {
    let actual_adjacent_coordinates = adjacent_coordinates((0, 0));
    let expected_adjacent_coordinates = [(-1, 0), (0, -1), (0, 1), (1, 0)];
    assert_eq!(expected_adjacent_coordinates, actual_adjacent_coordinates);
}
