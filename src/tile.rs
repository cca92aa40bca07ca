use crate::consts::TILES_LEN;
use vstd::prelude::*;

verus! {

/// The color on a tile.
#[derive(Debug, Clone, Copy, PartialEq, Eq, Structural, Hash)]
pub enum Color {
    Red,
    Orange,
    Yellow,
    Green,
    Blue,
    Purple,
}

/// The shape on a tile.
#[derive(Debug, Clone, Copy, PartialEq, Eq, Structural, Hash)]
pub enum Shape {
    Circle,
    Clover,
    Diamond,
    Square,
    Starburst,
    X,
}

/// A tile: a color together with a shape.
pub type Tile = (Color, Shape);

impl Color {
    /// The number of colors.
    pub const COLORS_LEN: usize = 6;

    /// Position of the color in [Color::colors].
    pub open spec fn spec_index(self) -> nat {
        match self {
            Color::Red => 0,
            Color::Orange => 1,
            Color::Yellow => 2,
            Color::Green => 3,
            Color::Blue => 4,
            Color::Purple => 5,
        }
    }

    /// The color at a position of [Color::colors].
    pub open spec fn spec_from_index(i: int) -> Color {
        if i == 0 {
            Color::Red
        } else if i == 1 {
            Color::Orange
        } else if i == 2 {
            Color::Yellow
        } else if i == 3 {
            Color::Green
        } else if i == 4 {
            Color::Blue
        } else {
            Color::Purple
        }
    }

    /// Position of the color in [Color::colors].
    pub fn index(self) -> (r: usize)
        ensures
            r == self.spec_index(),
            r < Color::COLORS_LEN,
    {
        match self {
            Color::Red => 0,
            Color::Orange => 1,
            Color::Yellow => 2,
            Color::Green => 3,
            Color::Blue => 4,
            Color::Purple => 5,
        }
    }

    /// The color at position `i` of [Color::colors], if there is one.
    pub fn from_index(i: usize) -> (r: Option<Color>)
        ensures
            i < Color::COLORS_LEN <==> r is Some,
            r is Some ==> r->0 == Color::spec_from_index(i as int) && r->0.spec_index() == i,
    {
        if i == 0 {
            Some(Color::Red)
        } else if i == 1 {
            Some(Color::Orange)
        } else if i == 2 {
            Some(Color::Yellow)
        } else if i == 3 {
            Some(Color::Green)
        } else if i == 4 {
            Some(Color::Blue)
        } else if i == 5 {
            Some(Color::Purple)
        } else {
            None
        }
    }

    /// Every color, in order.
    pub fn colors() -> (r: [Color; 6])
        ensures
            forall|i: int| 0 <= i < 6 ==> (#[trigger] r@[i]) == Color::spec_from_index(i),
            forall|i: int| 0 <= i < 6 ==> (#[trigger] r@[i]).spec_index() == i,
    {
        [Color::Red, Color::Orange, Color::Yellow, Color::Green, Color::Blue, Color::Purple]
    }
}

impl Shape {
    /// The number of shapes.
    pub const SHAPES_LEN: usize = 6;

    /// Position of the shape in [Shape::shapes].
    pub open spec fn spec_index(self) -> nat {
        match self {
            Shape::Circle => 0,
            Shape::Clover => 1,
            Shape::Diamond => 2,
            Shape::Square => 3,
            Shape::Starburst => 4,
            Shape::X => 5,
        }
    }

    /// The shape at a position of [Shape::shapes].
    pub open spec fn spec_from_index(i: int) -> Shape {
        if i == 0 {
            Shape::Circle
        } else if i == 1 {
            Shape::Clover
        } else if i == 2 {
            Shape::Diamond
        } else if i == 3 {
            Shape::Square
        } else if i == 4 {
            Shape::Starburst
        } else {
            Shape::X
        }
    }

    /// Position of the shape in [Shape::shapes].
    pub fn index(self) -> (r: usize)
        ensures
            r == self.spec_index(),
            r < Shape::SHAPES_LEN,
    {
        match self {
            Shape::Circle => 0,
            Shape::Clover => 1,
            Shape::Diamond => 2,
            Shape::Square => 3,
            Shape::Starburst => 4,
            Shape::X => 5,
        }
    }

    /// The shape at position `i` of [Shape::shapes], if there is one.
    pub fn from_index(i: usize) -> (r: Option<Shape>)
        ensures
            i < Shape::SHAPES_LEN <==> r is Some,
            r is Some ==> r->0 == Shape::spec_from_index(i as int) && r->0.spec_index() == i,
    {
        if i == 0 {
            Some(Shape::Circle)
        } else if i == 1 {
            Some(Shape::Clover)
        } else if i == 2 {
            Some(Shape::Diamond)
        } else if i == 3 {
            Some(Shape::Square)
        } else if i == 4 {
            Some(Shape::Starburst)
        } else if i == 5 {
            Some(Shape::X)
        } else {
            None
        }
    }

    /// Every shape, in order.
    pub fn shapes() -> (r: [Shape; 6])
        ensures
            forall|i: int| 0 <= i < 6 ==> (#[trigger] r@[i]) == Shape::spec_from_index(i),
            forall|i: int| 0 <= i < 6 ==> (#[trigger] r@[i]).spec_index() == i,
    {
        [Shape::Circle, Shape::Clover, Shape::Diamond, Shape::Square, Shape::Starburst, Shape::X]
    }
}

/// Whether two tiles are the same.
pub fn same_tile(a: Tile, b: Tile) -> (r: bool)
    ensures
        r == (a == b),
{
    a.0 == b.0 && a.1 == b.1
}

/// The tile at position `i` of [tiles]: colors vary slowest, shapes fastest.
pub open spec fn spec_tile_at(i: int) -> Tile {
    (Color::spec_from_index(i / 6), Shape::spec_from_index(i % 6))
}

/// Every distinct tile, in color then shape order.
pub fn tiles() -> (r: Vec<Tile>)
    ensures
        r@.len() == TILES_LEN,
        forall|i: int| 0 <= i < TILES_LEN ==> (#[trigger] r@[i]) == spec_tile_at(i),
{
    let colors = Color::colors();
    let shapes = Shape::shapes();
    let mut r: Vec<Tile> = Vec::new();
    let mut c: usize = 0;
    while c < 6
        invariant
            c <= 6,
            r@.len() == 6 * c,
            forall|j: int| 0 <= j < 6 ==> (#[trigger] colors@[j]) == Color::spec_from_index(j),
            forall|j: int| 0 <= j < 6 ==> (#[trigger] shapes@[j]) == Shape::spec_from_index(j),
            forall|i: int| 0 <= i < r@.len() ==> (#[trigger] r@[i]) == spec_tile_at(i),
        decreases 6 - c,
    {
        let mut s: usize = 0;
        while s < 6
            invariant
                c < 6,
                s <= 6,
                r@.len() == 6 * c + s,
                forall|j: int| 0 <= j < 6 ==> (#[trigger] colors@[j]) == Color::spec_from_index(j),
                forall|j: int| 0 <= j < 6 ==> (#[trigger] shapes@[j]) == Shape::spec_from_index(j),
                forall|i: int| 0 <= i < r@.len() ==> (#[trigger] r@[i]) == spec_tile_at(i),
            decreases 6 - s,
        {
            proof {
                let i = 6 * c + s;
                assert(i / 6 == c as int && i % 6 == s as int) by (nonlinear_arith)
                    requires i == 6 * c + s, s < 6;
            }
            r.push((colors[c], shapes[s]));
            s = s + 1;
        }
        c = c + 1;
    }
    r
}

} // verus!
