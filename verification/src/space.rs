//! Points, directions and grid cells of the plane.

use crate::arithmetic;
use crate::arithmetic::Arithmetic;
use crate::scalar::{Scalar, ZERO_BITS};
use vstd::prelude::*;

verus! {

/// A point of the plane, or the step from one point to another.
#[derive(Clone, Copy, Debug)]
pub struct Vec2 {
    pub x: Scalar,
    pub y: Scalar,
}

/// A direction: a step of length one.
#[derive(Clone, Copy, Debug)]
pub struct Dir2 {
    pub x: Scalar,
    pub y: Scalar,
}

/// A cell of a uniform grid.
#[derive(Clone, Copy, Debug, PartialEq, Eq, Structural)]
pub struct Cell {
    pub x: i32,
    pub y: i32,
}

impl Vec2 {
    /// `self == other` as points: both coordinates are equal numbers.
    pub open spec fn equals(self, other: Vec2) -> bool {
        self.x.equals(other.x) && self.y.equals(other.y)
    }

    /// Whether both coordinates are finite.
    pub open spec fn finite(self) -> bool {
        self.x.finite() && self.y.finite()
    }

    /// `step` is what `self - from` may return.
    pub open spec fn step_is<A: Arithmetic>(self, from: Vec2, step: Vec2) -> bool {
        &&& arithmetic::minus_is::<A>(self.x, from.x, step.x)
        &&& arithmetic::minus_is::<A>(self.y, from.y, step.y)
    }

    /// `square` is what `x * x + y * y` may return.
    pub open spec fn length_squared_is<A: Arithmetic>(self, square: Scalar) -> bool {
        exists|xx: Scalar, yy: Scalar|
            {
                &&& #[trigger] arithmetic::times_is::<A>(self.x, self.x, xx)
                &&& #[trigger] arithmetic::times_is::<A>(self.y, self.y, yy)
                &&& arithmetic::plus_is::<A>(xx, yy, square)
            }
    }

    /// `square` is what the squared distance from `self` to `other` may be
    /// computed as.
    pub open spec fn distance_squared_is<A: Arithmetic>(self, other: Vec2, square: Scalar) -> bool {
        exists|step: Vec2| #[trigger]
            self.step_is::<A>(other, step) && step.length_squared_is::<A>(square)
    }

    /// `cell` is what the grid cell of edge `size` that holds `self` may be
    /// computed as.
    pub open spec fn cell_is<A: Arithmetic>(self, size: Scalar, cell: Cell) -> bool {
        &&& whole_quotient_is::<A>(self.x, size, cell.x)
        &&& whole_quotient_is::<A>(self.y, size, cell.y)
    }

    /// Whether both coordinates are finite.
    pub fn is_finite(self) -> (answer: bool)
        ensures
            answer == self.finite(),
    {
        self.x.is_finite() && self.y.is_finite()
    }

    /// `self - from`.
    pub fn step_from<A: Arithmetic>(self, from: Vec2) -> (step: Vec2)
        ensures
            self.step_is::<A>(from, step),
    {
        Vec2 { x: A::minus(self.x, from.x), y: A::minus(self.y, from.y) }
    }

    /// The square of the length.
    pub fn length_squared<A: Arithmetic>(self) -> (square: Scalar)
        ensures
            self.length_squared_is::<A>(square),
    {
        let xx = A::times(self.x, self.x);
        let yy = A::times(self.y, self.y);
        proof {
            assert(arithmetic::times_is::<A>(self.x, self.x, xx));
            assert(arithmetic::times_is::<A>(self.y, self.y, yy));
        }
        A::plus(xx, yy)
    }

    /// The square of the distance to `other`.
    pub fn distance_squared<A: Arithmetic>(self, other: Vec2) -> (square: Scalar)
        ensures
            self.distance_squared_is::<A>(other, square),
    {
        self.step_from::<A>(other).length_squared::<A>()
    }

    /// The cell that holds this point in a grid of cells with edge `size`.
    pub fn cell<A: Arithmetic>(self, size: Scalar) -> (cell: Cell)
        ensures
            self.cell_is::<A>(size, cell),
    {
        Cell { x: whole_quotient::<A>(self.x, size), y: whole_quotient::<A>(self.y, size) }
    }
}

/// `line` is what `a / b`, rounded down, may return.
pub open spec fn line_is<A: Arithmetic>(a: Scalar, b: Scalar, line: Scalar) -> bool {
    exists|quotient: Scalar| #[trigger]
        arithmetic::over_is::<A>(a, b, quotient) && arithmetic::floor_is::<A>(quotient, line)
}

/// `whole` is what `a / b`, rounded down and read as an integer, may return.
pub open spec fn whole_quotient_is<A: Arithmetic>(a: Scalar, b: Scalar, whole: i32) -> bool {
    exists|line: Scalar| #[trigger]
        line_is::<A>(a, b, line) && arithmetic::to_int_is::<A>(line, whole)
}

/// `a / b`, rounded down.
pub fn line<A: Arithmetic>(a: Scalar, b: Scalar) -> (line: Scalar)
    ensures
        line_is::<A>(a, b, line),
{
    let quotient = A::over(a, b);
    proof {
        assert(arithmetic::over_is::<A>(a, b, quotient));
    }
    A::floor(quotient)
}

/// `a / b`, rounded down and read as an integer.
fn whole_quotient<A: Arithmetic>(a: Scalar, b: Scalar) -> (whole: i32)
    ensures
        whole_quotient_is::<A>(a, b, whole),
{
    let line = line::<A>(a, b);
    A::to_int(line)
}

impl Dir2 {
    /// `self == other` as directions.
    pub open spec fn equals(self, other: Dir2) -> bool {
        self.x.equals(other.x) && self.y.equals(other.y)
    }

    /// `direction` is what normalizing `step` may return: none where the length
    /// comes out as zero, infinite or no number.
    pub open spec fn direction_is<A: Arithmetic>(step: Vec2, direction: Option<Dir2>) -> bool {
        exists|square: Scalar, length: Scalar|
            {
                &&& #[trigger] step.length_squared_is::<A>(square)
                &&& #[trigger] arithmetic::square_root_is::<A>(square, length)
                &&& match direction {
                    Some(unit) => {
                        &&& Dir2::length_usable(length)
                        &&& arithmetic::over_is::<A>(step.x, length, unit.x)
                        &&& arithmetic::over_is::<A>(step.y, length, unit.y)
                    },
                    None => !Dir2::length_usable(length),
                }
            }
    }

    /// Whether a step of this length has a direction.
    pub open spec fn length_usable(length: Scalar) -> bool {
        length.finite() && Scalar::from_bits(ZERO_BITS).less(length)
    }

    /// The direction of a step, if it has one.
    pub fn new<A: Arithmetic>(step: Vec2) -> (direction: Option<Dir2>)
        ensures
            Dir2::direction_is::<A>(step, direction),
    {
        let square = step.length_squared::<A>();
        let length = A::square_root(square);
        proof {
            assert(arithmetic::square_root_is::<A>(square, length));
        }
        if length.is_finite() && length > Scalar::from_bits(ZERO_BITS) {
            Some(Dir2 { x: A::over(step.x, length), y: A::over(step.y, length) })
        } else {
            None
        }
    }
}

impl PartialEq for Vec2 {
    fn eq(&self, other: &Vec2) -> (answer: bool) {
        self.x == other.x && self.y == other.y
    }
}

impl vstd::std_specs::cmp::PartialEqSpecImpl for Vec2 {
    open spec fn obeys_eq_spec() -> bool {
        true
    }

    open spec fn eq_spec(&self, other: &Vec2) -> bool {
        self.equals(*other)
    }
}

impl PartialEq for Dir2 {
    fn eq(&self, other: &Dir2) -> (answer: bool) {
        self.x == other.x && self.y == other.y
    }
}

impl vstd::std_specs::cmp::PartialEqSpecImpl for Dir2 {
    open spec fn obeys_eq_spec() -> bool {
        true
    }

    open spec fn eq_spec(&self, other: &Dir2) -> bool {
        self.equals(*other)
    }
}

} // verus!
