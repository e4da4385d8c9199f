//! The radiance estimator: what a ray carries back, found by following it
//! from surface to surface for a bounded number of steps.

use vstd::prelude::*;

verus! {

/// What a ray met. `R` is a ray, `C` a colour and `W` whatever weighs the
/// light that comes back along the scattered ray.
#[derive(Debug, PartialEq, Eq)]
pub enum Interaction<R, C, W> {
    /// The ray left the scene.
    Miss,
    /// The ray ended on a surface that scatters nothing.
    Absorbed { emitted: C },
    /// The ray goes on from the surface as `scattered`.
    Scattered { emitted: C, weight: W, scattered: R },
}

/// What one step makes of the interaction `seen` and of the colour
/// `incoming` that the scattered ray, if there is one, brought back.
pub open spec fn shaded<R, C, W, M: Fn(C, W, C) -> C>(
    blend: M,
    background: C,
    seen: Interaction<R, C, W>,
    incoming: C,
    out: C,
) -> bool {
    match seen {
        Interaction::Miss => out == background,
        Interaction::Absorbed { emitted } => out == emitted,
        Interaction::Scattered { emitted, weight, scattered } => call_ensures(
            blend,
            (emitted, weight, incoming),
            out,
        ),
    }
}

/// `out` can be the colour of the ray `r` followed for at most `depth`
/// steps.
///
/// With no step left it is `black`. Otherwise the ray meets something: if
/// it leaves the scene the colour is `background`; if it is absorbed, what
/// the surface emits; if it is scattered, the blend of what the surface
/// emits with the colour of the scattered ray, followed for one step less.
pub open spec fn radiance<R, C, W, I: Fn(&R) -> Interaction<R, C, W>, M: Fn(C, W, C) -> C>(
    interact: I,
    blend: M,
    background: C,
    black: C,
    r: R,
    depth: int,
    out: C,
) -> bool
    decreases depth,
{
    if depth <= 0 {
        out == black
    } else {
        exists|seen: Interaction<R, C, W>, incoming: C|
            #![trigger shaded(blend, background, seen, incoming, out)]
            {
                &&& call_ensures(interact, (&r,), seen)
                &&& seen matches Interaction::Scattered { scattered, .. } ==> radiance(
                    interact,
                    blend,
                    background,
                    black,
                    scattered,
                    depth - 1,
                    incoming,
                )
                &&& shaded(blend, background, seen, incoming, out)
            }
    }
}

/// The colour of the ray `r`, followed through the scene for at most
/// `depth` steps. `interact` finds what a ray meets, `blend` weighs what
/// comes back along a scattered ray and adds what the surface emits.
pub fn ray_color<R, C: Copy, W, I: Fn(&R) -> Interaction<R, C, W>, M: Fn(C, W, C) -> C>(
    r: R,
    background: C,
    black: C,
    depth: i32,
    interact: &I,
    blend: &M,
) -> (out: C)
    requires
        forall|any: R| call_requires(*interact, (&any,)),
        forall|emitted: C, weight: W, incoming: C|
            call_requires(*blend, (emitted, weight, incoming)),
    ensures
        radiance(*interact, *blend, background, black, r, depth as int, out),
    decreases depth,
{
    if depth <= 0 {
        return black;
    }
    let seen = interact(&r);
    let ghost met = seen;
    match seen {
        Interaction::Miss => {
            assert(shaded(*blend, background, met, black, background));
            background
        },
        Interaction::Absorbed { emitted } => {
            assert(shaded(*blend, background, met, black, emitted));
            emitted
        },
        Interaction::Scattered { emitted, weight, scattered } => {
            let incoming = ray_color(scattered, background, black, depth - 1, interact, blend);
            let out = blend(emitted, weight, incoming);
            assert(shaded(*blend, background, met, incoming, out));
            out
        },
    }
}

} // verus!
