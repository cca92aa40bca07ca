use qwirkle::{tiles, Color, Shape, TILES_LEN};
use std::collections::HashMap;

#[test]
fn tiles_len() {
    assert_eq!(TILES_LEN, tiles().len());
}

#[test]
fn tiles_no_duplicates() {
    let all = tiles();
    let mut duplicates = 0;
    for i in 0..all.len() {
        for j in i + 1..all.len() {
            if all[i] == all[j] {
                duplicates += 1;
            }
        }
    }
    assert_eq!(0, duplicates);
}

#[test]
fn colors() {
    assert_eq!(Color::COLORS_LEN, Color::colors().len());
}

#[test]
fn colors_no_duplicates() {
    let all = Color::colors();
    let mut duplicates = 0;
    for i in 0..all.len() {
        for j in i + 1..all.len() {
            if all[i] == all[j] {
                duplicates += 1;
            }
        }
    }
    assert_eq!(0, duplicates);
}

#[test]
fn color_as_usize() {
    for (index, color) in Color::colors().into_iter().enumerate() {
        assert_eq!(index, color as usize);
        assert_eq!(index, color.index());
        assert_eq!(Some(color), Color::from_index(index));
    }
    assert_eq!(None, Color::from_index(Color::COLORS_LEN));
}

#[test]
fn count_colors() {
    let mut counts: HashMap<Color, usize> = HashMap::new();
    for color in Color::colors() {
        *counts.entry(color).or_insert(0) += 1;
    }
    for count in counts.into_values() {
        assert_eq!(1, count);
    }
}

#[test]
fn shapes() {
    assert_eq!(Shape::SHAPES_LEN, Shape::shapes().len());
}

#[test]
fn shapes_no_duplicates() {
    let all = Shape::shapes();
    let mut duplicates = 0;
    for i in 0..all.len() {
        for j in i + 1..all.len() {
            if all[i] == all[j] {
                duplicates += 1;
            }
        }
    }
    assert_eq!(0, duplicates);
}

#[test]
fn shape_as_usize() {
    for (index, shape) in Shape::shapes().into_iter().enumerate() {
        assert_eq!(index, shape as usize);
        assert_eq!(index, shape.index());
        assert_eq!(Some(shape), Shape::from_index(index));
    }
    assert_eq!(None, Shape::from_index(Shape::SHAPES_LEN));
}

#[test]
fn count_shapes() {
    let mut counts: HashMap<Shape, usize> = HashMap::new();
    for shape in Shape::shapes() {
        *counts.entry(shape).or_insert(0) += 1;
    }
    for count in counts.into_values() {
        assert_eq!(1, count);
    }
}

#[test]
fn tiles_in_color_then_shape_order() {
    let all = tiles();
    assert_eq!((Color::Red, Shape::Circle), all[0]);
    assert_eq!((Color::Red, Shape::X), all[5]);
    assert_eq!((Color::Orange, Shape::Circle), all[6]);
    assert_eq!((Color::Purple, Shape::X), all[35]);
}
