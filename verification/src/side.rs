//! The sides of a cube, and values kept per side.
use vstd::prelude::*;

verus! {

/// A coordinate axis.
#[derive(Copy, Clone, Debug, Eq, PartialEq, Hash)]
pub enum Axis {
    X,
    Y,
    Z,
}

/// The number of an axis: 0 for X, 1 for Y, 2 for Z.
pub open spec fn axis_number(axis: Axis) -> int {
    match axis {
        Axis::X => 0,
        Axis::Y => 1,
        Axis::Z => 2,
    }
}

impl Axis {
    /// The number of the axis: 0 for X, 1 for Y, 2 for Z.
    pub fn number(self) -> (r: usize)
        ensures
            r == axis_number(self),
    {
        match self {
            Axis::X => 0,
            Axis::Y => 1,
            Axis::Z => 2,
        }
    }
}

/// Six sides of a cube.
#[derive(Copy, Clone, Debug, Eq, PartialEq, Hash)]
pub enum Side {
    /// Positive Y.
    Top,
    /// Negative Y.
    Bottom,
    /// Positive X.
    Right,
    /// Negative X.
    Left,
    /// Positive Z.
    Front,
    /// Negative Z.
    Back,
}

/// The side faces the positive direction of its axis.
pub open spec fn spec_facing_positive(side: Side) -> bool {
    side is Top || side is Right || side is Front
}

pub open spec fn spec_axis(side: Side) -> Axis {
    match side {
        Side::Left | Side::Right => Axis::X,
        Side::Top | Side::Bottom => Axis::Y,
        Side::Front | Side::Back => Axis::Z,
    }
}

/// The unit vector that points out of the side.
pub open spec fn spec_normal(side: Side) -> [i32; 3] {
    match side {
        Side::Top => [0, 1, 0],
        Side::Bottom => [0, -1i32, 0],
        Side::Right => [1, 0, 0],
        Side::Left => [-1i32, 0, 0],
        Side::Front => [0, 0, 1],
        Side::Back => [0, 0, -1i32],
    }
}

/// The vector with `l` along the side's outward direction, `u` along the next
/// axis and `v` along the one after it.
pub open spec fn spec_uvl_to_xyz(side: Side, u: int, v: int, l: int) -> (int, int, int) {
    let l = if spec_facing_positive(side) {
        l
    } else {
        -l
    };
    match spec_axis(side) {
        Axis::X => (l, u, v),
        Axis::Y => (v, l, u),
        Axis::Z => (u, v, l),
    }
}

impl Side {
    pub fn facing_positive(&self) -> (r: bool)
        ensures
            r == spec_facing_positive(*self),
    {
        match self {
            Side::Top | Side::Right | Side::Front => true,
            _ => false,
        }
    }

    pub fn normal(&self) -> (r: [i32; 3])
        ensures
            r == spec_normal(*self),
    {
        match *self {
            Side::Top => [0, 1, 0],
            Side::Bottom => [0, -1, 0],
            Side::Right => [1, 0, 0],
            Side::Left => [-1, 0, 0],
            Side::Front => [0, 0, 1],
            Side::Back => [0, 0, -1],
        }
    }

    pub fn axis(&self) -> (r: Axis)
        ensures
            r == spec_axis(*self),
    {
        match self {
            Side::Left | Side::Right => Axis::X,
            Side::Top | Side::Bottom => Axis::Y,
            Side::Front | Side::Back => Axis::Z,
        }
    }

    /// All six sides, in the order right, left, top, bottom, front, back.
    pub fn enumerate() -> (r: [Side; 6])
        ensures
            r == [Side::Right, Side::Left, Side::Top, Side::Bottom, Side::Front, Side::Back],
    {
        [Side::Right, Side::Left, Side::Top, Side::Bottom, Side::Front, Side::Back]
    }

    /// Takes coordinates (u, v, l) where (u, v) is parallel to this face and
    /// converts it to a relative xyz coordinate.
    pub fn uvl_to_xyz(&self, u: i32, v: i32, l: i32) -> (r: [i32; 3])
        requires
            l != i32::MIN,
        ensures
            (r[0] as int, r[1] as int, r[2] as int) == spec_uvl_to_xyz(*self, u as int, v as int, l as int),
    {
        let l = if self.facing_positive() {
            l
        } else {
            -l
        };
        match self.axis() {
            Axis::X => [l, u, v],
            Axis::Y => [v, l, u],
            Axis::Z => [u, v, l],
        }
    }
}

/// One value for each side of a cube.
#[derive(Copy, Clone, Debug, Eq, PartialEq, Hash, Default)]
pub struct Faces<T> {
    pub top: T,
    pub bottom: T,
    pub right: T,
    pub left: T,
    pub front: T,
    pub back: T,
}

impl<T> Faces<T> {
    /// The value of `side`.
    pub open spec fn at(&self, side: Side) -> T {
        match side {
            Side::Top => self.top,
            Side::Bottom => self.bottom,
            Side::Right => self.right,
            Side::Left => self.left,
            Side::Front => self.front,
            Side::Back => self.back,
        }
    }

    /// The value of `side`.
    pub fn index(&self, side: Side) -> (r: &T)
        ensures
            *r == self.at(side),
    {
        match side {
            Side::Top => &self.top,
            Side::Bottom => &self.bottom,
            Side::Right => &self.right,
            Side::Left => &self.left,
            Side::Front => &self.front,
            Side::Back => &self.back,
        }
    }

    /// `func` applied to the value of each side.
    pub fn map<U, F: Fn(T) -> U>(self, func: F) -> (r: Faces<U>)
        requires
            forall|t: T| #[trigger] func.requires((t,)),
        ensures
            forall|side: Side| func.ensures((self.at(side),), #[trigger] r.at(side)),
    {
        let r = Faces {
            top: func(self.top),
            bottom: func(self.bottom),
            left: func(self.left),
            right: func(self.right),
            front: func(self.front),
            back: func(self.back),
        };
        assert forall|side: Side| func.ensures((self.at(side),), #[trigger] r.at(side)) by {
            match side {
                Side::Top => {},
                Side::Bottom => {},
                Side::Right => {},
                Side::Left => {},
                Side::Front => {},
                Side::Back => {},
            }
        }
        r
    }

    /// `func` holds of the value of every side. The sides are asked in the
    /// order top, bottom, left, right, front, back, up to the first that
    /// fails.
    pub fn all<F: Fn(&T) -> bool>(&self, func: F) -> (r: bool)
        requires
            forall|t: &T| #[trigger] func.requires((t,)),
        ensures
            r ==> forall|side: Side| #[trigger] func.ensures((&self.at(side),), true),
            !r ==> exists|side: Side| #[trigger] func.ensures((&self.at(side),), false),
    {
        let r = func(&self.top) && func(&self.bottom) && func(&self.left) && func(&self.right)
            && func(&self.front) && func(&self.back);
        proof {
            if r {
                assert forall|side: Side| #[trigger] func.ensures((&self.at(side),), true) by {
                    match side {
                        Side::Top => {},
                        Side::Bottom => {},
                        Side::Right => {},
                        Side::Left => {},
                        Side::Front => {},
                        Side::Back => {},
                    }
                }
            } else {
                if func.ensures((&self.at(Side::Top),), false) {
                } else if func.ensures((&self.at(Side::Bottom),), false) {
                } else if func.ensures((&self.at(Side::Left),), false) {
                } else if func.ensures((&self.at(Side::Right),), false) {
                } else if func.ensures((&self.at(Side::Front),), false) {
                } else {
                    assert(func.ensures((&self.at(Side::Back),), false));
                }
            }
        }
        r
    }

    /// `func` holds of the value of some side. The sides are asked in the
    /// order top, bottom, left, right, front, back, up to the first that
    /// holds.
    pub fn any<F: Fn(&T) -> bool>(&self, func: F) -> (r: bool)
        requires
            forall|t: &T| #[trigger] func.requires((t,)),
        ensures
            r ==> exists|side: Side| #[trigger] func.ensures((&self.at(side),), true),
            !r ==> forall|side: Side| #[trigger] func.ensures((&self.at(side),), false),
    {
        let r = func(&self.top) || func(&self.bottom) || func(&self.left) || func(&self.right)
            || func(&self.front) || func(&self.back);
        proof {
            if !r {
                assert forall|side: Side| #[trigger] func.ensures((&self.at(side),), false) by {
                    match side {
                        Side::Top => {},
                        Side::Bottom => {},
                        Side::Right => {},
                        Side::Left => {},
                        Side::Front => {},
                        Side::Back => {},
                    }
                }
            } else {
                if func.ensures((&self.at(Side::Top),), true) {
                } else if func.ensures((&self.at(Side::Bottom),), true) {
                } else if func.ensures((&self.at(Side::Left),), true) {
                } else if func.ensures((&self.at(Side::Right),), true) {
                } else if func.ensures((&self.at(Side::Front),), true) {
                } else {
                    assert(func.ensures((&self.at(Side::Back),), true));
                }
            }
        }
        r
    }
}

} // verus!
