use vstd::prelude::*;

verus! {

/// A point or an extent in integer coordinates; component 0 is `x`, component 1 is `y`.
#[derive(Clone, Copy, Debug, PartialEq, Eq, Structural)]
pub struct Vec2 {
    pub x: i32,
    pub y: i32,
}

impl Vec2 {
    /// Component `i` of the vector (0 is `x`, anything else `y`).
    pub open spec fn at(self, i: int) -> i32 {
        if i == 0 {
            self.x
        } else {
            self.y
        }
    }

    /// The vector with component `i` replaced by `v`.
    pub open spec fn with(self, i: int, v: i32) -> Vec2 {
        if i == 0 {
            Vec2 { x: v, ..self }
        } else {
            Vec2 { y: v, ..self }
        }
    }

    /// The origin.
    pub fn zero() -> (r: Vec2)
        ensures
            r == (Vec2 { x: 0, y: 0 }),
    {
        Vec2 { x: 0, y: 0 }
    }

    /// Reads component `i` (0 is `x`, 1 is `y`).
    pub fn index(&self, i: usize) -> (r: i32)
        requires
            i < 2,
        ensures
            r == self.at(i as int),
    {
        if i == 0 {
            self.x
        } else {
            self.y
        }
    }

    /// Gives write access to component `i` (0 is `x`, 1 is `y`).
    pub fn index_mut(&mut self, i: usize) -> (r: &mut i32)
        requires
            i < 2,
        ensures
            *r == old(self).at(i as int),
            *final(self) == old(self).with(i as int, *final(r)),
    {
        if i == 0 {
            &mut self.x
        } else {
            &mut self.y
        }
    }
}

/// An axis-aligned rectangle; components 0 to 3 are `x`, `y`, `w` and `h`.
#[derive(Clone, Copy, Debug, PartialEq, Eq, Structural)]
pub struct Rect {
    pub x: i32,
    pub y: i32,
    pub w: i32,
    pub h: i32,
}

impl Rect {
    /// Component `i` of the rectangle (0 `x`, 1 `y`, 2 `w`, anything else `h`).
    pub open spec fn at(self, i: int) -> i32 {
        if i == 0 {
            self.x
        } else if i == 1 {
            self.y
        } else if i == 2 {
            self.w
        } else {
            self.h
        }
    }

    /// The rectangle with component `i` replaced by `v`.
    pub open spec fn with(self, i: int, v: i32) -> Rect {
        if i == 0 {
            Rect { x: v, ..self }
        } else if i == 1 {
            Rect { y: v, ..self }
        } else if i == 2 {
            Rect { w: v, ..self }
        } else {
            Rect { h: v, ..self }
        }
    }

    /// The empty rectangle at the origin.
    pub fn zero() -> (r: Rect)
        ensures
            r == (Rect { x: 0, y: 0, w: 0, h: 0 }),
    {
        Rect { x: 0, y: 0, w: 0, h: 0 }
    }

    /// Reads component `i` (0 `x`, 1 `y`, 2 `w`, 3 `h`).
    pub fn index(&self, i: usize) -> (r: i32)
        requires
            i < 4,
        ensures
            r == self.at(i as int),
    {
        if i == 0 {
            self.x
        } else if i == 1 {
            self.y
        } else if i == 2 {
            self.w
        } else {
            self.h
        }
    }

    /// Gives write access to component `i` (0 `x`, 1 `y`, 2 `w`, 3 `h`).
    pub fn index_mut(&mut self, i: usize) -> (r: &mut i32)
        requires
            i < 4,
        ensures
            *r == old(self).at(i as int),
            *final(self) == old(self).with(i as int, *final(r)),
    {
        if i == 0 {
            &mut self.x
        } else if i == 1 {
            &mut self.y
        } else if i == 2 {
            &mut self.w
        } else {
            &mut self.h
        }
    }
}

/// The larger of two integers.
pub open spec fn spec_max(a: i32, b: i32) -> i32 {
    if a > b {
        a
    } else {
        b
    }
}

/// The smaller of two integers.
pub open spec fn spec_min(a: i32, b: i32) -> i32 {
    if a < b {
        a
    } else {
        b
    }
}

/// The larger of `a` and `b`.
pub fn max(a: i32, b: i32) -> (r: i32)
    ensures
        r == spec_max(a, b),
{
    if a > b {
        a
    } else {
        b
    }
}

/// The smaller of `a` and `b`.
pub fn min(a: i32, b: i32) -> (r: i32)
    ensures
        r == spec_min(a, b),
{
    if a < b {
        a
    } else {
        b
    }
}

} // verus!
