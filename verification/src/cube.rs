//! The sides of a box with faces along the axes.

use crate::aabb::{Corner, Key};
use vstd::prelude::*;

verus! {

/// A rectangle in the plane where the coordinate along `axis` is `k`. It
/// spans from `a0` to `a1` along the first of the two other axes and from
/// `b0` to `b1` along the second.
#[derive(Clone, Copy, Debug, PartialEq, Eq, Structural)]
pub struct Rect {
    pub axis: usize,
    pub a0: Key,
    pub a1: Key,
    pub b0: Key,
    pub b1: Key,
    pub k: Key,
}

/// The side of the box between the corners `low` and `high` that lies
/// across `axis`, at the far end of the box or at the near one.
pub open spec fn side(low: Corner, high: Corner, axis: int, far: bool) -> Rect {
    let first = if axis == 0 {
        1int
    } else {
        0int
    };
    let second = if axis == 2 {
        1int
    } else {
        2int
    };
    Rect {
        axis: axis as usize,
        a0: low.along(first) as Key,
        a1: high.along(first) as Key,
        b0: low.along(second) as Key,
        b1: high.along(second) as Key,
        k: if far {
            high.along(axis) as Key
        } else {
            low.along(axis) as Key
        },
    }
}

/// The six sides of the box between the corners `low` and `high`: for each
/// axis from z down to x the far side, then the near one.
pub open spec fn sides_of(low: Corner, high: Corner) -> Seq<Rect> {
    seq![
        side(low, high, 2, true),
        side(low, high, 2, false),
        side(low, high, 1, true),
        side(low, high, 1, false),
        side(low, high, 0, true),
        side(low, high, 0, false),
    ]
}

/// The six rectangles that close the box between the corners `low` and
/// `high`.
pub fn sides(low: Corner, high: Corner) -> (out: Vec<Rect>)
    ensures
        out@ == sides_of(low, high),
{
    let mut out: Vec<Rect> = Vec::new();
    out.push(Rect { axis: 2, a0: low.x, a1: high.x, b0: low.y, b1: high.y, k: high.z });
    out.push(Rect { axis: 2, a0: low.x, a1: high.x, b0: low.y, b1: high.y, k: low.z });
    out.push(Rect { axis: 1, a0: low.x, a1: high.x, b0: low.z, b1: high.z, k: high.y });
    out.push(Rect { axis: 1, a0: low.x, a1: high.x, b0: low.z, b1: high.z, k: low.y });
    out.push(Rect { axis: 0, a0: low.y, a1: high.y, b0: low.z, b1: high.z, k: high.x });
    out.push(Rect { axis: 0, a0: low.y, a1: high.y, b0: low.z, b1: high.z, k: low.x });
    assert(out@ =~= sides_of(low, high));
    out
}

} // verus!
