//! Axis-aligned bounding boxes over ordered keys.

use vstd::prelude::*;

verus! {

/// An ordered key: an integer that stands for a coordinate or a ray parameter
/// and compares as that number does.
pub type Key = i64;

/// The lesser of two keys.
pub open spec fn key_min(a: int, b: int) -> int {
    if a < b { a } else { b }
}

/// The greater of two keys.
pub open spec fn key_max(a: int, b: int) -> int {
    if a > b { a } else { b }
}

/// A corner of a box: one key for each of the three axes.
#[derive(Clone, Copy, Debug, PartialEq, Eq, Structural)]
pub struct Corner {
    pub x: Key,
    pub y: Key,
    pub z: Key,
}

impl Corner {
    /// The key along `axis`: 0 is x, 1 is y, anything else is z.
    pub open spec fn along(self, axis: int) -> int {
        if axis == 0 {
            self.x as int
        } else if axis == 1 {
            self.y as int
        } else {
            self.z as int
        }
    }

    /// The key along the axis of that number.
    pub open spec fn on_axis(self, axis: usize) -> int {
        self.along(axis as int)
    }

    /// `self` is no greater than `other` along every axis.
    pub open spec fn le(self, other: Corner) -> bool {
        self.x <= other.x && self.y <= other.y && self.z <= other.z
    }

    /// The corner with the given keys.
    pub fn new(x: Key, y: Key, z: Key) -> (c: Corner)
        ensures
            c == (Corner { x, y, z }),
    {
        Corner { x, y, z }
    }

    /// Reads the key along one of the three axes.
    pub fn index(&self, axis: usize) -> (k: Key)
        requires
            axis < 3,
        ensures
            k == self.along(axis as int),
    {
        if axis == 0 {
            self.x
        } else if axis == 1 {
            self.y
        } else {
            self.z
        }
    }
}

/// The lesser of two keys; the second one when they are equal.
pub fn min_key(a: Key, b: Key) -> (m: Key)
    ensures
        m == key_min(a as int, b as int),
{
    if a < b { a } else { b }
}

/// The greater of two keys; the second one when they are equal.
pub fn max_key(a: Key, b: Key) -> (m: Key)
    ensures
        m == key_max(a as int, b as int),
{
    if a > b { a } else { b }
}

/// An axis-aligned box, given by its least and its greatest corner.
#[derive(Clone, Copy, Debug, PartialEq, Eq, Structural)]
pub struct AABB {
    pub minimum: Corner,
    pub maximum: Corner,
}

impl AABB {
    /// The least corner is no greater than the greatest one.
    pub open spec fn ordered(self) -> bool {
        self.minimum.le(self.maximum)
    }

    /// `inner` lies inside `self`.
    pub open spec fn encloses(self, inner: AABB) -> bool {
        self.minimum.le(inner.minimum) && inner.maximum.le(self.maximum)
    }

    /// The smallest box around two boxes.
    pub open spec fn union(self, other: AABB) -> AABB {
        AABB {
            minimum: Corner {
                x: key_min(self.minimum.x as int, other.minimum.x as int) as Key,
                y: key_min(self.minimum.y as int, other.minimum.y as int) as Key,
                z: key_min(self.minimum.z as int, other.minimum.z as int) as Key,
            },
            maximum: Corner {
                x: key_max(self.maximum.x as int, other.maximum.x as int) as Key,
                y: key_max(self.maximum.y as int, other.maximum.y as int) as Key,
                z: key_max(self.maximum.z as int, other.maximum.z as int) as Key,
            },
        }
    }

    /// `self` is the smallest box that holds all of `points`: it holds each
    /// of them, and each of its six bounds is a coordinate of one of them.
    pub open spec fn is_hull_of(self, points: Seq<Corner>) -> bool {
        &&& forall|i: int|
            0 <= i < points.len() ==> self.minimum.le(#[trigger] points[i]) && points[i].le(
                self.maximum,
            )
        &&& exists|i: int| 0 <= i < points.len() && (#[trigger] points[i]).x == self.minimum.x
        &&& exists|i: int| 0 <= i < points.len() && (#[trigger] points[i]).y == self.minimum.y
        &&& exists|i: int| 0 <= i < points.len() && (#[trigger] points[i]).z == self.minimum.z
        &&& exists|i: int| 0 <= i < points.len() && (#[trigger] points[i]).x == self.maximum.x
        &&& exists|i: int| 0 <= i < points.len() && (#[trigger] points[i]).y == self.maximum.y
        &&& exists|i: int| 0 <= i < points.len() && (#[trigger] points[i]).z == self.maximum.z
    }

    /// The smallest box that holds all of `points`: the least and the
    /// greatest of their coordinates along each axis. There is none around
    /// no points.
    pub fn around(points: &Vec<Corner>) -> (out: Option<AABB>)
        ensures
            out is Some <==> points@.len() > 0,
            out matches Some(b) ==> b.is_hull_of(points@) && b.ordered(),
    {
        if points.len() == 0 {
            return None;
        }
        let mut min = points[0];
        let mut max = points[0];
        let mut i: usize = 1;
        proof {
            let first = points@.take(1);
            assert(first[0] == points@[0]);
        }
        while i < points.len()
            invariant
                1 <= i <= points@.len(),
                (AABB { minimum: min, maximum: max }).is_hull_of(points@.take(i as int)),
            decreases points@.len() - i,
        {
            let t = points[i];
            let ghost seen = points@.take(i as int);
            let ghost before = AABB { minimum: min, maximum: max };
            if t.x > max.x {
                max.x = t.x;
            }
            if t.y > max.y {
                max.y = t.y;
            }
            if t.z > max.z {
                max.z = t.z;
            }
            if t.x < min.x {
                min.x = t.x;
            }
            if t.y < min.y {
                min.y = t.y;
            }
            if t.z < min.z {
                min.z = t.z;
            }
            proof {
                let now = points@.take(i + 1);
                let hull = AABB { minimum: min, maximum: max };
                assert(now[i as int] == t);
                assert forall|k: int| 0 <= k < i implies now[k] == seen[k] by {}
                let ax = choose|k: int| 0 <= k < seen.len() && (#[trigger] seen[k]).x == before.minimum.x;
                let ay = choose|k: int| 0 <= k < seen.len() && (#[trigger] seen[k]).y == before.minimum.y;
                let az = choose|k: int| 0 <= k < seen.len() && (#[trigger] seen[k]).z == before.minimum.z;
                let bx = choose|k: int| 0 <= k < seen.len() && (#[trigger] seen[k]).x == before.maximum.x;
                let by = choose|k: int| 0 <= k < seen.len() && (#[trigger] seen[k]).y == before.maximum.y;
                let bz = choose|k: int| 0 <= k < seen.len() && (#[trigger] seen[k]).z == before.maximum.z;
                assert(now[if t.x < before.minimum.x { i as int } else { ax }].x == hull.minimum.x);
                assert(now[if t.y < before.minimum.y { i as int } else { ay }].y == hull.minimum.y);
                assert(now[if t.z < before.minimum.z { i as int } else { az }].z == hull.minimum.z);
                assert(now[if t.x > before.maximum.x { i as int } else { bx }].x == hull.maximum.x);
                assert(now[if t.y > before.maximum.y { i as int } else { by }].y == hull.maximum.y);
                assert(now[if t.z > before.maximum.z { i as int } else { bz }].z == hull.maximum.z);
                assert forall|k: int| 0 <= k < now.len() implies hull.minimum.le(#[trigger] now[k])
                    && now[k].le(hull.maximum) by {
                    if k < i {
                        assert(before.minimum.le(seen[k]) && seen[k].le(before.maximum));
                    }
                }
            }
            i = i + 1;
        }
        proof {
            assert(points@.take(i as int) =~= points@);
            let hull = AABB { minimum: min, maximum: max };
            assert(hull.minimum.le(points@[0]) && points@[0].le(hull.maximum));
        }
        Some(AABB { minimum: min, maximum: max })
    }

    /// The smallest box that holds both `box0` and `box1`.
    pub fn surrounding_box(box0: AABB, box1: AABB) -> (out: AABB)
        ensures
            out == box0.union(box1),
    {
        let small = Corner::new(
            min_key(box0.minimum.x, box1.minimum.x),
            min_key(box0.minimum.y, box1.minimum.y),
            min_key(box0.minimum.z, box1.minimum.z),
        );
        let big = Corner::new(
            max_key(box0.maximum.x, box1.maximum.x),
            max_key(box0.maximum.y, box1.maximum.y),
            max_key(box0.maximum.z, box1.maximum.z),
        );
        AABB { minimum: small, maximum: big }
    }
}

/// The union of two boxes holds both of them, and is ordered when they are.
pub proof fn lemma_union_encloses(a: AABB, b: AABB)
    ensures
        a.union(b).encloses(a),
        a.union(b).encloses(b),
        a.ordered() && b.ordered() ==> a.union(b).ordered(),
{
}

/// Any box that holds both `a` and `b` holds their union: the union is the
/// least such box.
pub proof fn lemma_union_least(a: AABB, b: AABB, outer: AABB)
    requires
        outer.encloses(a),
        outer.encloses(b),
    ensures
        outer.encloses(a.union(b)),
{
}

/// Enclosure is transitive.
pub proof fn lemma_encloses_trans(a: AABB, b: AABB, c: AABB)
    requires
        a.encloses(b),
        b.encloses(c),
    ensures
        a.encloses(c),
{
}

} // verus!
