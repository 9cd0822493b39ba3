//! Integer coordinates on the pixel grid and the canonical neighbor order.

use vstd::prelude::*;
use vstd::std_specs::ops::AddSpecImpl;
use vstd::std_specs::ops::MulSpecImpl;
use vstd::std_specs::ops::SubSpecImpl;

verus! {

/// A position on, or an offset between positions of, the pixel grid.
#[derive(Clone, Copy, Debug, PartialEq, Eq, Structural)]
pub struct Point {
    pub x: i32,
    pub y: i32,
}

impl Point {
    /// The origin.
    pub fn zero() -> (p: Point)
        ensures
            p == (Point { x: 0, y: 0 }),
    {
        Point { x: 0, y: 0 }
    }

    /// The point with the given coordinates.
    pub fn from(x: i32, y: i32) -> (p: Point)
        ensures
            p == (Point { x, y }),
    {
        Point { x, y }
    }

    /// Whether `x` and `y` are both coordinates that the grid can hold.
    pub open spec fn representable(x: int, y: int) -> bool {
        &&& i32::MIN <= x <= i32::MAX
        &&& i32::MIN <= y <= i32::MAX
    }

    /// The point at mathematical coordinates `x` and `y`.
    pub open spec fn at(x: int, y: int) -> Point
        recommends
            Point::representable(x, y),
    {
        Point { x: x as i32, y: y as i32 }
    }

    /// Whether this offset moves to one of the eight pixels around a position.
    pub open spec fn is_unit_step(self) -> bool {
        &&& -1 <= self.x <= 1
        &&& -1 <= self.y <= 1
        &&& (self.x != 0 || self.y != 0)
    }
}

impl core::ops::Add for Point {
    type Output = Point;

    /// Component-wise sum.
    fn add(self, other: Point) -> (sum: Point) {
        Point { x: self.x + other.x, y: self.y + other.y }
    }
}

impl AddSpecImpl for Point {
    open spec fn obeys_add_spec() -> bool {
        true
    }

    open spec fn add_req(self, other: Point) -> bool {
        Point::representable(self.x + other.x, self.y + other.y)
    }

    open spec fn add_spec(self, other: Point) -> Point {
        Point::at(self.x + other.x, self.y + other.y)
    }
}

impl core::ops::Sub for Point {
    type Output = Point;

    /// Component-wise difference.
    fn sub(self, other: Point) -> (difference: Point) {
        Point { x: self.x - other.x, y: self.y - other.y }
    }
}

impl SubSpecImpl for Point {
    open spec fn obeys_sub_spec() -> bool {
        true
    }

    open spec fn sub_req(self, other: Point) -> bool {
        Point::representable(self.x - other.x, self.y - other.y)
    }

    open spec fn sub_spec(self, other: Point) -> Point {
        Point::at(self.x - other.x, self.y - other.y)
    }
}

impl core::ops::Mul<i32> for Point {
    type Output = Point;

    /// The offset repeated `count` times.
    fn mul(self, count: i32) -> (product: Point) {
        Point { x: self.x * count, y: self.y * count }
    }
}

impl MulSpecImpl<i32> for Point {
    open spec fn obeys_mul_spec() -> bool {
        true
    }

    open spec fn mul_req(self, count: i32) -> bool {
        Point::representable(self.x * count, self.y * count)
    }

    open spec fn mul_spec(self, count: i32) -> Point {
        Point::at(self.x * count, self.y * count)
    }
}

/// The canonical neighbor order: right, up, left, down, down-right, up-right,
/// up-left, down-left, with `y` growing downwards.
///
/// The order is the priority in which the compiler discovers neighbors, and so
/// the order in which the matcher tries the transitions of a state.
pub open spec fn surrounding_spec() -> Seq<Point> {
    seq![
        Point::at(1, 0),
        Point::at(0, -1),
        Point::at(-1, 0),
        Point::at(0, 1),
        Point::at(1, 1),
        Point::at(1, -1),
        Point::at(-1, -1),
        Point::at(-1, 1),
    ]
}

/// The eight neighbor offsets in canonical order.
pub fn surrounding() -> (offsets: [Point; 8])
    ensures
        offsets@ == surrounding_spec(),
{
    let offsets = [
        Point { x: 1, y: 0 },
        Point { x: 0, y: -1 },
        Point { x: -1, y: 0 },
        Point { x: 0, y: 1 },
        Point { x: 1, y: 1 },
        Point { x: 1, y: -1 },
        Point { x: -1, y: -1 },
        Point { x: -1, y: 1 },
    ];
    assert(offsets@ =~= surrounding_spec());
    offsets
}

/// Every canonical neighbor offset is a unit step, and no two of them are equal.
pub proof fn lemma_surrounding_unit_steps()
    ensures
        surrounding_spec().len() == 8,
        forall|i: int| 0 <= i < 8 ==> (#[trigger] surrounding_spec()[i]).is_unit_step(),
        forall|i: int, j: int|
            0 <= i < j < 8 ==> #[trigger] surrounding_spec()[i] != #[trigger] surrounding_spec()[j],
{
    let s = surrounding_spec();
    assert(s[0] == Point::at(1, 0));
    assert(s[1] == Point::at(0, -1));
    assert(s[2] == Point::at(-1, 0));
    assert(s[3] == Point::at(0, 1));
    assert(s[4] == Point::at(1, 1));
    assert(s[5] == Point::at(1, -1));
    assert(s[6] == Point::at(-1, -1));
    assert(s[7] == Point::at(-1, 1));
}

} // verus!
