//! What a ray can hit: the record of a hit, and the plain collection that
//! is searched from front to back.

use crate::aabb::{lemma_encloses_trans, lemma_union_encloses, Key, AABB};
use crate::utility::random_index;
use vstd::prelude::*;

verus! {

/// What an intersection test reports. `t` is the ray parameter of the hit as
/// an ordered key. `front_face` tells whether the ray came from the side the
/// outward normal points to. `surface` is whatever the caller's geometry
/// attaches to a hit: point, normal, texture coordinates, material.
#[derive(Debug, PartialEq, Eq)]
pub struct HitRecord<S> {
    pub t: Key,
    pub front_face: bool,
    pub surface: S,
}

/// The outcome of one intersection test: a hit or none.
pub type Outcome<S> = Option<HitRecord<S>>;

/// The ray parameter of an outcome, if it is a hit.
pub open spec fn time_of<S>(out: Outcome<S>) -> Option<int> {
    match out {
        Some(h) => Some(h.t as int),
        None => None,
    }
}

/// The upper end of the range that the next test is given, after the
/// outcomes `outs` of the tests before it: the parameter of the latest hit,
/// or `t_max` while there is none.
pub open spec fn closest_after<S>(outs: Seq<Outcome<S>>, t_max: Key) -> Key
    decreases outs.len(),
{
    if outs.len() == 0 {
        t_max
    } else {
        match outs.last() {
            Some(h) => h.t,
            None => closest_after(outs.drop_last(), t_max),
        }
    }
}

/// The latest hit among the outcomes `outs`, if any.
pub open spec fn latest_hit<S>(outs: Seq<Outcome<S>>) -> Outcome<S>
    decreases outs.len(),
{
    if outs.len() == 0 {
        None
    } else {
        match outs.last() {
            Some(h) => Some(h),
            None => latest_hit(outs.drop_last()),
        }
    }
}

/// `outs` can be what `hit_one` reported of the objects in turn, each test
/// made on the range from `t_min` to the closest hit before it.
pub open spec fn scan_trace<'a, T: 'a, S, F: Fn(&'a T, Key, Key) -> Outcome<S>>(
    objects: Seq<T>,
    hit_one: F,
    t_min: Key,
    t_max: Key,
    outs: Seq<Outcome<S>>,
) -> bool {
    &&& outs.len() == objects.len()
    &&& forall|i: int|
        0 <= i < objects.len() ==> call_ensures(
            hit_one,
            (&objects[i], t_min, closest_after(outs.take(i), t_max)),
            #[trigger] outs[i],
        )
}

/// `out` can be the result of searching `objects` from front to back: the
/// latest hit of some run of tests.
pub open spec fn scan_outcome<'a, T: 'a, S, F: Fn(&'a T, Key, Key) -> Outcome<S>>(
    objects: Seq<T>,
    hit_one: F,
    t_min: Key,
    t_max: Key,
    out: Outcome<S>,
) -> bool {
    exists|outs: Seq<Outcome<S>>| #[trigger]
        scan_trace(objects, hit_one, t_min, t_max, outs) && out == latest_hit(outs)
}

/// The box around all of `boxes`, none of which is absent.
pub open spec fn union_of(boxes: Seq<Option<AABB>>) -> AABB
    decreases boxes.len(),
{
    if boxes.len() <= 1 {
        boxes[0]->0
    } else {
        union_of(boxes.drop_last()).union(boxes.last()->0)
    }
}

/// `boxes` can be what `box_of` reported of the objects in turn, up to and
/// including the first one that has no box.
pub open spec fn box_trace<T, F: Fn(&T) -> Option<AABB>>(
    objects: Seq<T>,
    box_of: F,
    boxes: Seq<Option<AABB>>,
) -> bool {
    &&& boxes.len() <= objects.len()
    &&& forall|i: int|
        0 <= i < boxes.len() ==> call_ensures(box_of, (&objects[i],), #[trigger] boxes[i])
    &&& forall|i: int| 0 <= i < boxes.len() - 1 ==> (#[trigger] boxes[i]) is Some
    &&& boxes.len() == objects.len() || (boxes.len() > 0 && boxes.last() is None)
}

/// What a run of box queries amounts to: no box where there is no object or
/// where some object has none, else the box around all of them.
pub open spec fn box_of_all(boxes: Seq<Option<AABB>>) -> Option<AABB> {
    if boxes.len() == 0 || boxes.last() is None {
        None
    } else {
        Some(union_of(boxes))
    }
}

/// `out` can be the bounding box of a collection of `objects`.
pub open spec fn box_outcome<T, F: Fn(&T) -> Option<AABB>>(
    objects: Seq<T>,
    box_of: F,
    out: Option<AABB>,
) -> bool {
    exists|boxes: Seq<Option<AABB>>| #[trigger]
        box_trace(objects, box_of, boxes) && out == box_of_all(boxes)
}

/// The box around a run of boxes holds each of them.
pub proof fn lemma_union_of_holds_each(boxes: Seq<Option<AABB>>, i: int)
    requires
        0 <= i < boxes.len(),
        forall|k: int| 0 <= k < boxes.len() ==> (#[trigger] boxes[k]) is Some,
    ensures
        union_of(boxes).encloses(boxes[i]->0),
    decreases boxes.len(),
{
    if boxes.len() > 1 {
        let rest = boxes.drop_last();
        lemma_union_encloses(union_of(rest), boxes.last()->0);
        if i < rest.len() {
            assert(rest[i] == boxes[i]);
            lemma_union_of_holds_each(rest, i);
            lemma_encloses_trans(union_of(boxes), union_of(rest), boxes[i]->0);
        }
    }
}

impl<S> HitRecord<S> {
    /// The same hit seen from the other side of the surface.
    pub open spec fn flipped(self) -> HitRecord<S> {
        HitRecord { t: self.t, front_face: !self.front_face, surface: self.surface }
    }

    /// Turns the hit to the other side of the surface.
    pub fn flip_face(self) -> (out: HitRecord<S>)
        ensures
            out == self.flipped(),
    {
        HitRecord { t: self.t, front_face: !self.front_face, surface: self.surface }
    }
}

/// An outcome with its hit, if it has one, turned to the other side.
pub open spec fn flipped_outcome<S>(inner: Outcome<S>) -> Outcome<S> {
    match inner {
        Some(h) => Some(h.flipped()),
        None => None,
    }
}

/// An object seen from the other side: what it reports as its front is
/// the back, and the other way round.
pub struct Flipface<T> {
    pub ptr: T,
}

impl<T> Flipface<T> {
    /// The object `p` seen from the other side.
    pub fn new(p: T) -> (flip: Flipface<T>)
        ensures
            flip.ptr == p,
    {
        Flipface { ptr: p }
    }

    /// Tests the object with `hit_inner` and turns the hit, if there is one,
    /// to the other side.
    pub fn hit<'a, S, F: Fn(&'a T, Key, Key) -> Outcome<S>>(
        &'a self,
        t_min: Key,
        t_max: Key,
        hit_inner: &F,
    ) -> (out: Outcome<S>)
        requires
            call_requires(*hit_inner, (&self.ptr, t_min, t_max)),
        ensures
            exists|inner: Outcome<S>| #[trigger]
                call_ensures(*hit_inner, (&self.ptr, t_min, t_max), inner) && out
                    == flipped_outcome(inner),
    {
        let inner = hit_inner(&self.ptr, t_min, t_max);
        let ghost reported = inner;
        let out = match inner {
            Some(rec) => Some(rec.flip_face()),
            None => None,
        };
        assert(call_ensures(*hit_inner, (&self.ptr, t_min, t_max), reported));
        out
    }
}

/// A collection of objects in the order they were added.
pub struct HittableList<T> {
    pub objects: Vec<T>,
}

impl<T> Default for HittableList<T> {
    /// The empty collection.
    fn default() -> (list: HittableList<T>)
        ensures
            list.objects@ == Seq::<T>::empty(),
    {
        HittableList { objects: Vec::new() }
    }
}

impl<T> HittableList<T> {
    /// The empty collection.
    pub fn new() -> (list: HittableList<T>)
        ensures
            list.objects@ == Seq::<T>::empty(),
    {
        HittableList { objects: Vec::new() }
    }

    /// Removes every object.
    pub fn clear(&mut self)
        ensures
            final(self).objects@ == Seq::<T>::empty(),
    {
        self.objects.clear();
    }

    /// Adds `obj` behind the objects already there.
    pub fn add(&mut self, obj: T)
        ensures
            final(self).objects@ == old(self).objects@.push(obj),
    {
        self.objects.push(obj);
    }

    /// Searches the objects from front to back for the nearest hit in the
    /// range from `t_min` to `t_max`. Each object is tested by `hit_one` on
    /// the range that ends at the closest hit found so far; the latest hit
    /// is the result.
    pub fn hit<'a, S, F: Fn(&'a T, Key, Key) -> Outcome<S>>(
        &'a self,
        t_min: Key,
        t_max: Key,
        hit_one: &F,
    ) -> (out: Outcome<S>)
        requires
            forall|i: int, c: Key|
                0 <= i < self.objects@.len() ==> call_requires(
                    *hit_one,
                    (&#[trigger] self.objects@[i], t_min, c),
                ),
        ensures
            scan_outcome(self.objects@, *hit_one, t_min, t_max, out),
    {
        let mut hit_rec: Outcome<S> = None;
        let mut closest_so_far: Key = t_max;
        let ghost mut outs: Seq<Outcome<S>> = Seq::empty();
        let mut i: usize = 0;
        while i < self.objects.len()
            invariant
                i <= self.objects@.len(),
                outs.len() == i,
                forall|k: int, c: Key|
                    0 <= k < self.objects@.len() ==> call_requires(
                        *hit_one,
                        (&#[trigger] self.objects@[k], t_min, c),
                    ),
                forall|k: int|
                    0 <= k < i ==> call_ensures(
                        *hit_one,
                        (&self.objects@[k], t_min, closest_after(outs.take(k), t_max)),
                        #[trigger] outs[k],
                    ),
                closest_so_far == closest_after(outs, t_max),
                hit_rec == latest_hit(outs),
            decreases self.objects@.len() - i,
        {
            let temp = hit_one(&self.objects[i], t_min, closest_so_far);
            proof {
                let before = outs;
                outs = outs.push(temp);
                assert(outs.drop_last() =~= before);
                assert(outs.take(i as int) =~= before);
                assert forall|k: int| 0 <= k < i + 1 implies call_ensures(
                    *hit_one,
                    (&self.objects@[k], t_min, closest_after(outs.take(k), t_max)),
                    #[trigger] outs[k],
                ) by {
                    if k < i {
                        assert(outs.take(k) =~= before.take(k));
                        assert(outs[k] == before[k]);
                    }
                }
            }
            if let Some(temp_rec) = temp {
                closest_so_far = temp_rec.t;
                hit_rec = Some(temp_rec);
            }
            i = i + 1;
        }
        proof {
            assert(scan_trace(self.objects@, *hit_one, t_min, t_max, outs));
        }
        hit_rec
    }

    /// The box around all objects, each asked for its box by `box_of`.
    /// There is none where the collection is empty or an object has none.
    pub fn bounding_box<F: Fn(&T) -> Option<AABB>>(&self, box_of: &F) -> (out: Option<AABB>)
        requires
            forall|i: int|
                0 <= i < self.objects@.len() ==> call_requires(
                    *box_of,
                    (&#[trigger] self.objects@[i],),
                ),
        ensures
            box_outcome(self.objects@, *box_of, out),
    {
        if self.objects.len() == 0 {
            proof {
                assert(box_trace(self.objects@, *box_of, Seq::<Option<AABB>>::empty()));
            }
            return None;
        }
        let first = box_of(&self.objects[0]);
        let ghost mut boxes: Seq<Option<AABB>> = seq![first];
        let mut output_box = match first {
            Some(b) => b,
            None => {
                proof {
                    assert(box_trace(self.objects@, *box_of, boxes));
                }
                return None;
            },
        };
        let mut i: usize = 1;
        while i < self.objects.len()
            invariant
                1 <= i <= self.objects@.len(),
                boxes.len() == i,
                forall|k: int|
                    0 <= k < self.objects@.len() ==> call_requires(
                        *box_of,
                        (&#[trigger] self.objects@[k],),
                    ),
                forall|k: int|
                    0 <= k < i ==> call_ensures(
                        *box_of,
                        (&self.objects@[k],),
                        #[trigger] boxes[k],
                    ),
                forall|k: int| 0 <= k < i ==> (#[trigger] boxes[k]) is Some,
                output_box == union_of(boxes),
            decreases self.objects@.len() - i,
        {
            let next = box_of(&self.objects[i]);
            proof {
                let before = boxes;
                boxes = boxes.push(next);
                assert(boxes.drop_last() =~= before);
            }
            match next {
                Some(temp_box) => {
                    output_box = AABB::surrounding_box(output_box, temp_box);
                },
                None => {
                    proof {
                        assert(box_trace(self.objects@, *box_of, boxes));
                    }
                    return None;
                },
            }
            i = i + 1;
        }
        proof {
            assert(box_trace(self.objects@, *box_of, boxes));
        }
        Some(output_box)
    }

    /// One of the objects, drawn at random.
    pub fn random(&self) -> (obj: &T)
        requires
            0 < self.objects@.len() <= i32::MAX,
        ensures
            self.objects@.contains(*obj),
    {
        let t = random_index(self.objects.len());
        &self.objects[t]
    }
}

} // verus!
