//! Decisions on ray parameters: which of them lie on a range, and what
//! several ranges have in common.

use crate::aabb::{key_max, key_min, max_key, min_key, Key};
use vstd::prelude::*;

verus! {

/// `t` lies on the range from `t_min` to `t_max`, ends included.
pub open spec fn on_range(t: int, t_min: int, t_max: int) -> bool {
    t_min <= t <= t_max
}

/// Whether `t` lies on the range from `t_min` to `t_max`, ends included.
pub fn within(t: Key, t_min: Key, t_max: Key) -> (inside: bool)
    ensures
        inside == on_range(t as int, t_min as int, t_max as int),
{
    !(t < t_min || t > t_max)
}

/// The root that counts as the hit: the first one if it lies on the range,
/// else the second one if that does, else none.
pub open spec fn chosen_root(first: int, second: int, t_min: int, t_max: int) -> Option<int> {
    if on_range(first, t_min, t_max) {
        Some(first)
    } else if on_range(second, t_min, t_max) {
        Some(second)
    } else {
        None
    }
}

/// Of the two parameters at which a ray meets a closed surface, the one
/// that counts as the hit on the range from `t_min` to `t_max`.
pub fn nearest_root(first: Key, second: Key, t_min: Key, t_max: Key) -> (root: Option<Key>)
    ensures
        root matches Some(t) ==> chosen_root(first as int, second as int, t_min as int, t_max as int)
            == Some(t as int),
        root is None ==> chosen_root(first as int, second as int, t_min as int, t_max as int)
            is None,
{
    let mut root = first;
    if root < t_min || t_max < root {
        root = second;
        if root < t_min || t_max < root {
            return None;
        }
    }
    Some(root)
}

/// Given the two roots in order, the chosen root is the least root on the
/// range, and there is none only if neither root lies on it.
pub proof fn lemma_chosen_root_is_least(first: int, second: int, t_min: int, t_max: int)
    requires
        first <= second,
    ensures
        chosen_root(first, second, t_min, t_max) matches Some(t) ==> on_range(t, t_min, t_max) && (t
            == first || t == second) && (on_range(first, t_min, t_max) ==> t <= first) && (on_range(
            second,
            t_min,
            t_max,
        ) ==> t <= second),
        chosen_root(first, second, t_min, t_max) is None <==> !on_range(first, t_min, t_max)
            && !on_range(second, t_min, t_max),
{
}

/// The stretch of a ray between the two planes that bound a box along one
/// axis. `reversed` tells that the ray runs against the axis, so that it
/// meets the planes in the other order.
#[derive(Clone, Copy, Debug, PartialEq, Eq, Structural)]
pub struct Slab {
    pub t0: Key,
    pub t1: Key,
    pub reversed: bool,
}

impl Slab {
    /// The parameter at which the ray enters the slab.
    pub open spec fn enter(self) -> int {
        if self.reversed {
            self.t1 as int
        } else {
            self.t0 as int
        }
    }

    /// The parameter at which the ray leaves the slab.
    pub open spec fn leave(self) -> int {
        if self.reversed {
            self.t0 as int
        } else {
            self.t1 as int
        }
    }
}

/// The start of what a range and a slab have in common.
pub open spec fn narrowed_min(t_min: int, slab: Slab) -> int {
    key_max(slab.enter(), t_min)
}

/// The end of what a range and a slab have in common.
pub open spec fn narrowed_max(t_max: int, slab: Slab) -> int {
    key_min(slab.leave(), t_max)
}

/// The three slabs of a box and the range from `t_min` to `t_max` have a
/// stretch of the ray in common.
pub open spec fn slabs_overlap(x: Slab, y: Slab, z: Slab, t_min: int, t_max: int) -> bool {
    let lo = narrowed_min(narrowed_min(narrowed_min(t_min, x), y), z);
    let hi = narrowed_max(narrowed_max(narrowed_max(t_max, x), y), z);
    lo < hi
}

/// Narrows the range by one slab. `None` where nothing is left.
fn narrow(slab: Slab, t_min: Key, t_max: Key) -> (left: Option<(Key, Key)>)
    ensures
        left matches Some(r) ==> r.0 == narrowed_min(t_min as int, slab) && r.1 == narrowed_max(
            t_max as int,
            slab,
        ) && r.0 < r.1,
        left is None ==> narrowed_max(t_max as int, slab) <= narrowed_min(t_min as int, slab),
{
    let mut t0 = slab.t0;
    let mut t1 = slab.t1;
    if slab.reversed {
        let swapped = t0;
        t0 = t1;
        t1 = swapped;
    }
    let lo = max_key(t0, t_min);
    let hi = min_key(t1, t_max);
    if hi <= lo {
        None
    } else {
        Some((lo, hi))
    }
}

/// The slab test: whether a ray passes through a box at some parameter
/// between `t_min` and `t_max`, given the stretch of the ray inside each of
/// the three slabs of the box. The range is narrowed slab by slab, and the
/// ray misses as soon as nothing is left of it.
pub fn hit_slabs(x: Slab, y: Slab, z: Slab, t_min: Key, t_max: Key) -> (hit: bool)
    ensures
        hit == slabs_overlap(x, y, z, t_min as int, t_max as int),
{
    let after_x = match narrow(x, t_min, t_max) {
        Some(r) => r,
        None => {
            return false;
        },
    };
    let after_y = match narrow(y, after_x.0, after_x.1) {
        Some(r) => r,
        None => {
            return false;
        },
    };
    narrow(z, after_y.0, after_y.1).is_some()
}

/// A ray that is inside all three slabs where the range starts passes
/// through the box: if every slab is entered no later than `t_min` and left
/// after it, and the range is not empty, the slab test reports a hit.
pub proof fn lemma_inside_every_slab_hits(x: Slab, y: Slab, z: Slab, t_min: int, t_max: int)
    requires
        t_min < t_max,
        x.enter() <= t_min < x.leave(),
        y.enter() <= t_min < y.leave(),
        z.enter() <= t_min < z.leave(),
    ensures
        slabs_overlap(x, y, z, t_min, t_max),
{
}

/// What is left of the stretch from `entry` to `exit` on the range from
/// `t_min` to `t_max`, started no earlier than `origin`.
pub open spec fn clipped(entry: int, exit: int, t_min: int, t_max: int, origin: int) -> Option<
    (int, int),
> {
    let from = if entry < t_min {
        t_min
    } else {
        entry
    };
    let to = if exit > t_max {
        t_max
    } else {
        exit
    };
    if from >= to {
        None
    } else if from < origin {
        Some((origin, to))
    } else {
        Some((from, to))
    }
}

/// Cuts the stretch of a ray inside a volume, from `entry` to `exit`, down
/// to the range from `t_min` to `t_max`. Nothing is left where the cut
/// stretch is empty. What is left starts no earlier than `origin`, the
/// parameter of the ray's own starting point.
pub fn clip_segment(entry: Key, exit: Key, t_min: Key, t_max: Key, origin: Key) -> (left: Option<
    (Key, Key),
>)
    ensures
        left matches Some(s) ==> clipped(
            entry as int,
            exit as int,
            t_min as int,
            t_max as int,
            origin as int,
        ) == Some((s.0 as int, s.1 as int)),
        left is None ==> clipped(entry as int, exit as int, t_min as int, t_max as int, origin as int)
            is None,
{
    let mut from = entry;
    let mut to = exit;
    if from < t_min {
        from = t_min;
    }
    if to > t_max {
        to = t_max;
    }
    if from >= to {
        return None;
    }
    if from < origin {
        from = origin;
    }
    Some((from, to))
}

} // verus!
