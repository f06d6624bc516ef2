//! Axis-aligned bounding boxes over ordered coordinate keys.

use vstd::prelude::*;

verus! {

/// A corner of a box: one coordinate key per axis. Keys are only compared,
/// never added or scaled.
#[derive(Clone, Copy, Debug, PartialEq, Eq, Structural)]
pub struct Corner {
    pub x: i64,
    pub y: i64,
    pub z: i64,
}

impl Corner {
    /// The key on `axis`: 0 is x, 1 is y, anything else is z.
    pub open spec fn on(self, axis: int) -> int {
        if axis == 0 {
            self.x as int
        } else if axis == 1 {
            self.y as int
        } else {
            self.z as int
        }
    }

    /// Every key of `self` is at most the matching key of `other`.
    pub open spec fn le(self, other: Corner) -> bool {
        self.x <= other.x && self.y <= other.y && self.z <= other.z
    }

    /// The corner with the given keys.
    pub fn new(x: i64, y: i64, z: i64) -> (c: Corner)
        ensures
            c == (Corner { x, y, z }),
    {
        Corner { x, y, z }
    }

    /// Reads the key on `axis`.
    pub fn key(&self, axis: usize) -> (k: i64)
        ensures
            k == self.on(axis as int),
    {
        if axis == 0 {
            self.x
        } else if axis == 1 {
            self.y
        } else {
            self.z
        }
    }
}

/// An axis-aligned box given by its lower and upper corner. A box whose
/// upper corner lies below its lower corner on some axis holds no point.
#[derive(Clone, Copy, Debug, PartialEq, Eq, Structural)]
pub struct Aabb {
    pub min: Corner,
    pub max: Corner,
}

/// The lower of two keys.
pub open spec fn min_key(a: i64, b: i64) -> i64 {
    if a <= b {
        a
    } else {
        b
    }
}

/// The upper of two keys.
pub open spec fn max_key(a: i64, b: i64) -> i64 {
    if a >= b {
        a
    } else {
        b
    }
}

fn lower(a: i64, b: i64) -> (m: i64)
    ensures
        m == min_key(a, b),
{
    if a <= b {
        a
    } else {
        b
    }
}

fn upper(a: i64, b: i64) -> (m: i64)
    ensures
        m == max_key(a, b),
{
    if a >= b {
        a
    } else {
        b
    }
}

impl Aabb {
    /// The box with no points that every box encloses.
    pub open spec fn spec_empty() -> Aabb {
        Aabb {
            min: Corner { x: i64::MAX, y: i64::MAX, z: i64::MAX },
            max: Corner { x: i64::MIN, y: i64::MIN, z: i64::MIN },
        }
    }

    /// The smallest box that encloses both `box0` and `box1`.
    pub open spec fn union(box0: Aabb, box1: Aabb) -> Aabb {
        Aabb {
            min: Corner {
                x: min_key(box0.min.x, box1.min.x),
                y: min_key(box0.min.y, box1.min.y),
                z: min_key(box0.min.z, box1.min.z),
            },
            max: Corner {
                x: max_key(box0.max.x, box1.max.x),
                y: max_key(box0.max.y, box1.max.y),
                z: max_key(box0.max.z, box1.max.z),
            },
        }
    }

    /// `other` lies inside `self` on every axis.
    pub open spec fn encloses(self, other: Aabb) -> bool {
        self.min.le(other.min) && other.max.le(self.max)
    }

    /// The point `p` lies inside `self`.
    pub open spec fn holds(self, p: Corner) -> bool {
        self.min.le(p) && p.le(self.max)
    }

    /// The box between the two corners.
    pub fn new(min: Corner, max: Corner) -> (b: Aabb)
        ensures
            b == (Aabb { min, max }),
    {
        Aabb { min, max }
    }

    /// The box with no points: the neutral element of `surrounding_box`.
    pub fn empty() -> (b: Aabb)
        ensures
            b == Aabb::spec_empty(),
    {
        Aabb {
            min: Corner { x: i64::MAX, y: i64::MAX, z: i64::MAX },
            max: Corner { x: i64::MIN, y: i64::MIN, z: i64::MIN },
        }
    }

    /// A box bounds itself.
    pub fn bounding_box(&self) -> (b: Aabb)
        ensures
            b == *self,
    {
        Aabb::surrounding_box(*self, *self)
    }

    /// The smallest box around both boxes: corner by corner the lower of the
    /// lower keys and the upper of the upper keys.
    pub fn surrounding_box(box0: Aabb, box1: Aabb) -> (b: Aabb)
        ensures
            b == Aabb::union(box0, box1),
    {
        let small = Corner::new(
            lower(box0.min.x, box1.min.x),
            lower(box0.min.y, box1.min.y),
            lower(box0.min.z, box1.min.z),
        );
        let big = Corner::new(
            upper(box0.max.x, box1.max.x),
            upper(box0.max.y, box1.max.y),
            upper(box0.max.z, box1.max.z),
        );
        Aabb::new(small, big)
    }
}

/// The union of two boxes encloses both, and is enclosed by every box that
/// encloses both.
pub proof fn lemma_union_is_least_upper_bound(box0: Aabb, box1: Aabb, outer: Aabb)
    ensures
        Aabb::union(box0, box1).encloses(box0),
        Aabb::union(box0, box1).encloses(box1),
        outer.encloses(box0) && outer.encloses(box1) ==> outer.encloses(Aabb::union(box0, box1)),
{
}

/// Enclosure is reflexive and transitive.
pub proof fn lemma_encloses_is_preorder(a: Aabb, b: Aabb, c: Aabb)
    ensures
        a.encloses(a),
        a.encloses(b) && b.encloses(c) ==> a.encloses(c),
{
}

/// Taking the union is commutative, associative and idempotent, and the empty
/// box is its neutral element.
pub proof fn lemma_union_laws(a: Aabb, b: Aabb, c: Aabb)
    ensures
        Aabb::union(a, b) == Aabb::union(b, a),
        Aabb::union(Aabb::union(a, b), c) == Aabb::union(a, Aabb::union(b, c)),
        Aabb::union(a, a) == a,
        Aabb::union(Aabb::spec_empty(), a) == a,
{
}

/// A point lies in the union's box whenever it lies in one of the two boxes.
pub proof fn lemma_union_holds_points(box0: Aabb, box1: Aabb, p: Corner)
    ensures
        box0.holds(p) || box1.holds(p) ==> Aabb::union(box0, box1).holds(p),
{
}

} // verus!
