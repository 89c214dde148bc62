//! Axis-aligned bounding boxes.
//!
//! Coordinates are carried as order keys: integers that compare with one
//! another exactly as the coordinates they stand for do. Everything a box is
//! used for here (surrounding two boxes, telling whether one box holds
//! another, sorting boxes along an axis) depends on that order alone.
use vstd::prelude::*;

verus! {

/// A point whose coordinates are given by their order keys.
#[derive(Clone, Copy, Debug, PartialEq, Eq, Structural)]
pub struct Point3 {
    pub x: i64,
    pub y: i64,
    pub z: i64,
}

impl Point3 {
    /// The key of the coordinate on `axis` (0 is x, 1 is y, anything else z).
    pub open spec fn axis(self, axis: int) -> i64 {
        if axis == 0 {
            self.x
        } else if axis == 1 {
            self.y
        } else {
            self.z
        }
    }

    /// The key of the coordinate on `axis`.
    pub fn get(&self, axis: usize) -> (r: i64)
        requires
            axis < 3,
        ensures
            r == self.axis(axis as int),
    {
        if axis == 0 {
            self.x
        } else if axis == 1 {
            self.y
        } else {
            self.z
        }
    }
}

pub open spec fn min_key(a: i64, b: i64) -> i64 {
    if a <= b {
        a
    } else {
        b
    }
}

pub open spec fn max_key(a: i64, b: i64) -> i64 {
    if a >= b {
        a
    } else {
        b
    }
}

/// An axis-aligned box, given by its lowest and its highest corner.
#[derive(Clone, Copy, Debug, PartialEq, Eq, Structural)]
pub struct AABB {
    pub min: Point3,
    pub max: Point3,
}

impl AABB {
    /// The lowest corner is below the highest one on every axis.
    pub open spec fn wf(self) -> bool {
        &&& self.min.x <= self.max.x
        &&& self.min.y <= self.max.y
        &&& self.min.z <= self.max.z
    }

    /// `other` lies inside `self` on every axis.
    pub open spec fn holds(self, other: AABB) -> bool {
        &&& self.min.x <= other.min.x && other.max.x <= self.max.x
        &&& self.min.y <= other.min.y && other.max.y <= self.max.y
        &&& self.min.z <= other.min.z && other.max.z <= self.max.z
    }

    /// The smallest box that holds both `a` and `b`.
    pub open spec fn surrounding_spec(a: AABB, b: AABB) -> AABB {
        AABB {
            min: Point3 {
                x: min_key(a.min.x, b.min.x),
                y: min_key(a.min.y, b.min.y),
                z: min_key(a.min.z, b.min.z),
            },
            max: Point3 {
                x: max_key(a.max.x, b.max.x),
                y: max_key(a.max.y, b.max.y),
                z: max_key(a.max.z, b.max.z),
            },
        }
    }

    /// The box made of the componentwise minimum of the two lowest corners
    /// and the componentwise maximum of the two highest ones.
    pub fn surrounding(box0: AABB, box1: AABB) -> (r: AABB)
        ensures
            r == AABB::surrounding_spec(box0, box1),
            r.holds(box0),
            r.holds(box1),
            box0.wf() && box1.wf() ==> r.wf(),
    {
        let min = Point3 {
            x: if box0.min.x <= box1.min.x { box0.min.x } else { box1.min.x },
            y: if box0.min.y <= box1.min.y { box0.min.y } else { box1.min.y },
            z: if box0.min.z <= box1.min.z { box0.min.z } else { box1.min.z },
        };
        let max = Point3 {
            x: if box0.max.x >= box1.max.x { box0.max.x } else { box1.max.x },
            y: if box0.max.y >= box1.max.y { box0.max.y } else { box1.max.y },
            z: if box0.max.z >= box1.max.z { box0.max.z } else { box1.max.z },
        };
        AABB { min, max }
    }

    /// Whether `other` lies inside this box.
    pub fn contains(&self, other: &AABB) -> (r: bool)
        ensures
            r == self.holds(*other),
    {
        self.min.x <= other.min.x && other.max.x <= self.max.x && self.min.y <= other.min.y
            && other.max.y <= self.max.y && self.min.z <= other.min.z && other.max.z
            <= self.max.z
    }
}

/// Every box holds itself.
pub proof fn lemma_holds_reflexive(a: AABB)
    ensures
        a.holds(a),
{
}

/// The surrounding box holds both boxes.
pub proof fn lemma_surrounding_holds(a: AABB, b: AABB)
    ensures
        AABB::surrounding_spec(a, b).holds(a),
        AABB::surrounding_spec(a, b).holds(b),
{
}

/// On each axis the surrounding box takes the lower of the two lowest
/// corners and the higher of the two highest ones.
pub proof fn lemma_surrounding_axis(a: AABB, b: AABB, axis: int)
    ensures
        AABB::surrounding_spec(a, b).min.axis(axis) == min_key(a.min.axis(axis), b.min.axis(axis)),
        AABB::surrounding_spec(a, b).max.axis(axis) == max_key(a.max.axis(axis), b.max.axis(axis)),
{
}

/// Holding is transitive.
pub proof fn lemma_holds_transitive(a: AABB, b: AABB, c: AABB)
    requires
        a.holds(b),
        b.holds(c),
    ensures
        a.holds(c),
{
}

} // verus!
