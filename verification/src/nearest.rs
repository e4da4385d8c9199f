//! What the searches find: the nearest hit, whichever way the objects are
//! arranged.
//!
//! The statements here are made against a description of the scene as seen
//! along one ray: for every object, the parameter of the first point at
//! which the ray meets it, if it meets it at all. An intersection test
//! *follows* that description when, on any range, it reports that point if
//! the range reaches it and nothing otherwise.

use crate::aabb::{lemma_encloses_trans, lemma_union_encloses, Key, AABB};
use crate::bvh::{closest_of, later_of, BvhNode, Child};
use crate::hittable::{closest_after, latest_hit, scan_outcome, scan_trace, time_of, Outcome};
use crate::sorting::Object;
use vstd::prelude::*;

verus! {

/// What a range that ends at `c` shows of a first meeting point.
pub open spec fn visible(first: Option<int>, c: int) -> Option<int> {
    match first {
        Some(v) => if v <= c {
            Some(v)
        } else {
            None
        },
        None => None,
    }
}

/// The lesser of two parameters, either of which may be absent.
pub open spec fn lesser(a: Option<int>, b: Option<int>) -> Option<int> {
    match (a, b) {
        (Some(x), Some(y)) => if x < y {
            Some(x)
        } else {
            Some(y)
        },
        (Some(x), None) => Some(x),
        (None, _) => b,
    }
}

/// The least first meeting point of `objects` that a range ending at `c`
/// shows.
pub open spec fn nearest<T>(objects: Seq<T>, first_hit: spec_fn(T) -> Option<int>, c: int)
    -> Option<int>
    decreases objects.len(),
{
    if objects.len() == 0 {
        None
    } else {
        lesser(
            nearest(objects.drop_last(), first_hit, c),
            visible(first_hit(objects.last()), c),
        )
    }
}

/// The test `hit_one` follows the description `first_hit` on the object
/// `o`: on every range from `t_min` it reports a hit exactly when the range
/// shows the object's first meeting point, and reports it at that point.
pub open spec fn follows<'a, T: 'a, S, F: Fn(&'a T, Key, Key) -> Outcome<S>>(
    hit_one: F,
    first_hit: spec_fn(T) -> Option<int>,
    t_min: Key,
    o: T,
) -> bool {
    forall|c: Key, out: Outcome<S>| #[trigger]
        call_ensures(hit_one, (&o, t_min, c), out) ==> time_of(out) == visible(
            first_hit(o),
            c as int,
        )
}

/// The box test `box_hit` never hides a hit: where it says that the ray
/// misses a box on a range, the range shows no meeting point of any object
/// whose own box lies inside that box.
pub open spec fn pruning_sound<B: Fn(&AABB, Key, Key) -> bool>(
    box_hit: B,
    first_hit: spec_fn(Object) -> Option<int>,
    t_min: Key,
) -> bool {
    forall|b: AABB, o: Object, c: Key|
        #![trigger call_ensures(box_hit, (&b, t_min, c), false), b.encloses(o.bbox)]
        call_ensures(box_hit, (&b, t_min, c), false) && b.encloses(o.bbox) ==> visible(
            first_hit(o),
            c as int,
        ) is None
}

/// The nearest point that a range shows lies in the range, is the first
/// meeting point of one of the objects, and no object has a lesser one.
/// There is none exactly when the range shows no object at all.
pub proof fn lemma_nearest_is_least<T>(
    objects: Seq<T>,
    first_hit: spec_fn(T) -> Option<int>,
    c: int,
)
    ensures
        nearest(objects, first_hit, c) matches Some(m) ==> m <= c && exists|i: int|
            0 <= i < objects.len() && first_hit(#[trigger] objects[i]) == Some(m),
        forall|i: int|
            0 <= i < objects.len() ==> lesser(
                nearest(objects, first_hit, c),
                visible(first_hit(#[trigger] objects[i]), c),
            ) == nearest(objects, first_hit, c),
        nearest(objects, first_hit, c) is None <==> forall|i: int|
            0 <= i < objects.len() ==> visible(first_hit(#[trigger] objects[i]), c) is None,
    decreases objects.len(),
{
    if objects.len() > 0 {
        let rest = objects.drop_last();
        lemma_nearest_is_least(rest, first_hit, c);
        let last = objects.len() - 1;
        assert(forall|i: int| 0 <= i < rest.len() ==> rest[i] == objects[i]);
        if nearest(objects, first_hit, c) is Some {
            let m = nearest(objects, first_hit, c)->0;
            if visible(first_hit(objects.last()), c) == Some(m) {
                assert(first_hit(objects[last]) == Some(m));
            } else {
                let i = choose|i: int| 0 <= i < rest.len() && first_hit(#[trigger] rest[i]) == Some(m);
                assert(first_hit(objects[i]) == Some(m));
            }
        }
        assert forall|i: int| 0 <= i < objects.len() implies lesser(
            nearest(objects, first_hit, c),
            visible(first_hit(#[trigger] objects[i]), c),
        ) == nearest(objects, first_hit, c) by {
            if i < last {
                assert(rest[i] == objects[i]);
            }
        }
        if nearest(objects, first_hit, c) is None {
            assert forall|i: int| 0 <= i < objects.len() implies visible(
                first_hit(#[trigger] objects[i]),
                c,
            ) is None by {
                if i < last {
                    assert(rest[i] == objects[i]);
                }
            }
        } else {
            if nearest(rest, first_hit, c) is Some {
                let i = choose|i: int|
                    0 <= i < rest.len() && visible(first_hit(#[trigger] rest[i]), c) is Some;
                assert(visible(first_hit(objects[i]), c) is Some);
            } else {
                assert(visible(first_hit(objects[last]), c) is Some);
            }
        }
    }
}

/// The nearest point of two groups of objects is the lesser of the nearest
/// points of each.
pub proof fn lemma_nearest_of_concat<T>(
    a: Seq<T>,
    b: Seq<T>,
    first_hit: spec_fn(T) -> Option<int>,
    c: int,
)
    ensures
        nearest(a + b, first_hit, c) == lesser(nearest(a, first_hit, c), nearest(b, first_hit, c)),
    decreases b.len(),
{
    if b.len() == 0 {
        assert(a + b =~= a);
    } else {
        lemma_nearest_of_concat(a, b.drop_last(), first_hit, c);
        assert((a + b).drop_last() =~= a + b.drop_last());
        assert((a + b).last() == b.last());
    }
}

/// A shorter range shows of the nearest point what it shows of any point.
pub proof fn lemma_nearest_on_shorter_range<T>(
    objects: Seq<T>,
    first_hit: spec_fn(T) -> Option<int>,
    c: int,
    shorter: int,
)
    requires
        shorter <= c,
    ensures
        nearest(objects, first_hit, shorter) == visible(nearest(objects, first_hit, c), shorter),
    decreases objects.len(),
{
    if objects.len() > 0 {
        lemma_nearest_on_shorter_range(objects.drop_last(), first_hit, c, shorter);
    }
}

/// The nearest point does not depend on the order of the objects.
pub proof fn lemma_nearest_of_permutation<T>(
    a: Seq<T>,
    b: Seq<T>,
    first_hit: spec_fn(T) -> Option<int>,
    c: int,
)
    requires
        a.to_multiset() == b.to_multiset(),
    ensures
        nearest(a, first_hit, c) == nearest(b, first_hit, c),
{
    broadcast use vstd::seq_lib::group_to_multiset_ensures;

    lemma_nearest_is_least(a, first_hit, c);
    lemma_nearest_is_least(b, first_hit, c);
    let na = nearest(a, first_hit, c);
    let nb = nearest(b, first_hit, c);
    assert forall|i: int| 0 <= i < a.len() implies b.contains(#[trigger] a[i]) by {
        assert(a.contains(a[i]));
        assert(a.to_multiset().count(a[i]) > 0);
    }
    assert forall|j: int| 0 <= j < b.len() implies a.contains(#[trigger] b[j]) by {
        assert(b.contains(b[j]));
        assert(b.to_multiset().count(b[j]) > 0);
    }
    if na is Some {
        let i = choose|i: int| 0 <= i < a.len() && first_hit(#[trigger] a[i]) == Some(na->0);
        assert(b.contains(a[i]));
        let j = choose|j: int| 0 <= j < b.len() && b[j] == a[i];
        assert(lesser(nb, visible(first_hit(b[j]), c)) == nb);
    }
    if nb is Some {
        let j = choose|j: int| 0 <= j < b.len() && first_hit(#[trigger] b[j]) == Some(nb->0);
        assert(a.contains(b[j]));
        let i = choose|i: int| 0 <= i < a.len() && a[i] == b[j];
        assert(lesser(na, visible(first_hit(a[i]), c)) == na);
    }
}

/// After the first `k` tests of a search from front to back, the latest hit
/// is the nearest point of the first `k` objects, and the range left to
/// search ends there.
proof fn lemma_scan_prefix<'a, T: 'a, S, F: Fn(&'a T, Key, Key) -> Outcome<S>>(
    objects: Seq<T>,
    hit_one: F,
    first_hit: spec_fn(T) -> Option<int>,
    t_min: Key,
    t_max: Key,
    outs: Seq<Outcome<S>>,
    k: int,
)
    requires
        0 <= k <= objects.len(),
        scan_trace(objects, hit_one, t_min, t_max, outs),
        forall|i: int|
            0 <= i < objects.len() ==> follows(hit_one, first_hit, t_min, #[trigger] objects[i]),
    ensures
        time_of(latest_hit(outs.take(k))) == nearest(objects.take(k), first_hit, t_max as int),
        closest_after(outs.take(k), t_max) as int == match nearest(
            objects.take(k),
            first_hit,
            t_max as int,
        ) {
            Some(m) => m,
            None => t_max as int,
        },
    decreases k,
{
    if k > 0 {
        lemma_scan_prefix(objects, hit_one, first_hit, t_min, t_max, outs, k - 1);
        lemma_nearest_is_least(objects.take(k - 1), first_hit, t_max as int);
        assert(outs.take(k).drop_last() =~= outs.take(k - 1));
        assert(outs.take(k).last() == outs[k - 1]);
        assert(objects.take(k).drop_last() =~= objects.take(k - 1));
        assert(objects.take(k).last() == objects[k - 1]);
        let c = closest_after(outs.take(k - 1), t_max);
        assert(call_ensures(hit_one, (&objects[k - 1], t_min, c), outs[k - 1]));
        assert(follows(hit_one, first_hit, t_min, objects[k - 1]));
        assert(time_of(outs[k - 1]) == visible(first_hit(objects[k - 1]), c as int));
    }
}

/// A search from front to back finds the nearest hit: where every test
/// follows the description, the result is a hit exactly when the range shows
/// some object, and it lies at the least first meeting point.
pub proof fn lemma_scan_finds_nearest<'a, T: 'a, S, F: Fn(&'a T, Key, Key) -> Outcome<S>>(
    objects: Seq<T>,
    hit_one: F,
    first_hit: spec_fn(T) -> Option<int>,
    t_min: Key,
    t_max: Key,
    out: Outcome<S>,
)
    requires
        forall|i: int|
            0 <= i < objects.len() ==> follows(hit_one, first_hit, t_min, #[trigger] objects[i]),
        scan_outcome(objects, hit_one, t_min, t_max, out),
    ensures
        time_of(out) == nearest(objects, first_hit, t_max as int),
{
    let outs = choose|outs: Seq<Outcome<S>>| #[trigger]
        scan_trace(objects, hit_one, t_min, t_max, outs) && out == latest_hit(outs);
    lemma_scan_prefix(objects, hit_one, first_hit, t_min, t_max, outs, objects.len() as int);
    assert(outs.take(objects.len() as int) =~= outs);
    assert(objects.take(objects.len() as int) =~= objects);
}

/// In a well-formed tree the box of a node holds the box of every object
/// below it.
pub proof fn lemma_node_box_holds_leaves(node: BvhNode)
    requires
        node.well_formed(),
    ensures
        forall|i: int|
            0 <= i < node.leaves().len() ==> node.bbox.encloses((#[trigger] node.leaves()[i]).bbox),
    decreases node,
{
    lemma_child_box_holds_leaves(node.left);
    let ll = node.left.leaves();
    match node.right {
        Some(r) => {
            lemma_child_box_holds_leaves(r);
            lemma_union_encloses(node.left.bounds(), r.bounds());
            assert forall|i: int| 0 <= i < node.leaves().len() implies node.bbox.encloses(
                (#[trigger] node.leaves()[i]).bbox,
            ) by {
                if i < ll.len() {
                    assert(node.leaves()[i] == ll[i]);
                    lemma_encloses_trans(node.bbox, node.left.bounds(), ll[i].bbox);
                } else {
                    assert(node.leaves()[i] == r.leaves()[i - ll.len()]);
                    lemma_encloses_trans(node.bbox, r.bounds(), r.leaves()[i - ll.len()].bbox);
                }
            }
        },
        None => {},
    }
}

/// The box of a child holds the box of every object below it.
pub proof fn lemma_child_box_holds_leaves(child: Child)
    requires
        child.well_formed(),
    ensures
        forall|i: int|
            0 <= i < child.leaves().len() ==> child.bounds().encloses(
                (#[trigger] child.leaves()[i]).bbox,
            ),
    decreases child,
{
    let leaves = child.leaves();
    if child is Object {
        let o = child->Object_0;
        assert forall|i: int| 0 <= i < leaves.len() implies child.bounds().encloses(
            (#[trigger] leaves[i]).bbox,
        ) by {
            assert(leaves[i] == o);
        }
    } else {
        let n = *child->Node_0;
        lemma_node_box_holds_leaves(n);
        assert(leaves == n.leaves());
        assert(child.bounds() == n.bbox);
        assert forall|i: int| 0 <= i < leaves.len() implies child.bounds().encloses(
            (#[trigger] leaves[i]).bbox,
        ) by {
            assert(n.bbox.encloses(n.leaves()[i].bbox));
        }
    }
}

/// A search of the tree finds the nearest hit: where every object test
/// follows the description and the box test never hides a hit, the result
/// lies at the least first meeting point of all objects below the node.
pub proof fn lemma_tree_finds_nearest<S, B: Fn(&AABB, Key, Key) -> bool, P: Fn(&Object, Key, Key) -> Outcome<S>>(
    node: BvhNode,
    box_hit: B,
    object_hit: P,
    first_hit: spec_fn(Object) -> Option<int>,
    t_min: Key,
    t_max: Key,
    out: Outcome<S>,
)
    requires
        node.well_formed(),
        forall|i: int|
            0 <= i < node.leaves().len() ==> follows(
                object_hit,
                first_hit,
                t_min,
                #[trigger] node.leaves()[i],
            ),
        pruning_sound(box_hit, first_hit, t_min),
        node.hit_outcome(box_hit, object_hit, t_min, t_max, out),
    ensures
        time_of(out) == nearest(node.leaves(), first_hit, t_max as int),
    decreases node,
{
    let leaves = node.leaves();
    if call_ensures(box_hit, (&node.bbox, t_min, t_max), false) && out is None {
        lemma_node_box_holds_leaves(node);
        lemma_nearest_is_least(leaves, first_hit, t_max as int);
        assert forall|i: int| 0 <= i < leaves.len() implies visible(
            first_hit(#[trigger] leaves[i]),
            t_max as int,
        ) is None by {
            assert(node.bbox.encloses(leaves[i].bbox));
        }
    } else {
        let (l, r) = choose|l: Outcome<S>, r: Outcome<S>|
            #![trigger later_of(l, r)]
            {
                &&& node.left.hit_outcome(box_hit, object_hit, t_min, t_max, l)
                &&& match node.right {
                    None => r is None,
                    Some(right) => right.hit_outcome(
                        box_hit,
                        object_hit,
                        t_min,
                        closest_of(l, t_max),
                        r,
                    ),
                }
                &&& out == later_of(l, r)
            };
        let ll = node.left.leaves();
        assert forall|i: int| 0 <= i < ll.len() implies follows(
            object_hit,
            first_hit,
            t_min,
            #[trigger] ll[i],
        ) by {
            assert(leaves[i] == ll[i]);
        }
        lemma_child_finds_nearest(node.left, box_hit, object_hit, first_hit, t_min, t_max, l);
        lemma_nearest_is_least(ll, first_hit, t_max as int);
        match node.right {
            None => {},
            Some(right) => {
                let rl = right.leaves();
                assert forall|i: int| 0 <= i < rl.len() implies follows(
                    object_hit,
                    first_hit,
                    t_min,
                    #[trigger] rl[i],
                ) by {
                    assert(leaves[ll.len() + i] == rl[i]);
                }
                let c = closest_of(l, t_max);
                lemma_child_finds_nearest(right, box_hit, object_hit, first_hit, t_min, c, r);
                lemma_nearest_on_shorter_range(rl, first_hit, t_max as int, c as int);
                lemma_nearest_of_concat(ll, rl, first_hit, t_max as int);
            },
        }
    }
}

/// A search below a child finds the nearest hit, as a search of a tree
/// does.
pub proof fn lemma_child_finds_nearest<S, B: Fn(&AABB, Key, Key) -> bool, P: Fn(&Object, Key, Key) -> Outcome<S>>(
    child: Child,
    box_hit: B,
    object_hit: P,
    first_hit: spec_fn(Object) -> Option<int>,
    t_min: Key,
    t_max: Key,
    out: Outcome<S>,
)
    requires
        child.well_formed(),
        forall|i: int|
            0 <= i < child.leaves().len() ==> follows(
                object_hit,
                first_hit,
                t_min,
                #[trigger] child.leaves()[i],
            ),
        pruning_sound(box_hit, first_hit, t_min),
        child.hit_outcome(box_hit, object_hit, t_min, t_max, out),
    ensures
        time_of(out) == nearest(child.leaves(), first_hit, t_max as int),
    decreases child,
{
    match child {
        Child::Object(o) => {
            let one = child.leaves();
            assert(one[0] == o);
            assert(one.last() == o);
            assert(follows(object_hit, first_hit, t_min, o));
            assert(one.drop_last() =~= Seq::<Object>::empty());
            assert(nearest(one.drop_last(), first_hit, t_max as int) is None);
            assert(nearest(one, first_hit, t_max as int) == visible(first_hit(o), t_max as int));
        },
        Child::Node(n) => {
            lemma_tree_finds_nearest(*n, box_hit, object_hit, first_hit, t_min, t_max, out);
        },
    }
}

/// The tree and the plain collection agree. A search of a well-formed tree
/// and a search from front to back of any collection that holds the same
/// objects, in whatever order, report a hit for the same rays and at the
/// same parameter, provided the tests follow one description of the scene
/// and the box test never hides a hit.
pub proof fn lemma_tree_agrees_with_scan<S, B: Fn(&AABB, Key, Key) -> bool, P: Fn(&Object, Key, Key) -> Outcome<S>>(
    node: BvhNode,
    objects: Seq<Object>,
    box_hit: B,
    object_hit: P,
    first_hit: spec_fn(Object) -> Option<int>,
    t_min: Key,
    t_max: Key,
    from_tree: Outcome<S>,
    from_scan: Outcome<S>,
)
    requires
        node.well_formed(),
        node.leaves().to_multiset() == objects.to_multiset(),
        forall|i: int|
            0 <= i < objects.len() ==> follows(object_hit, first_hit, t_min, #[trigger] objects[i]),
        pruning_sound(box_hit, first_hit, t_min),
        node.hit_outcome(box_hit, object_hit, t_min, t_max, from_tree),
        scan_outcome(objects, object_hit, t_min, t_max, from_scan),
    ensures
        time_of(from_tree) == time_of(from_scan),
        time_of(from_tree) == nearest(objects, first_hit, t_max as int),
{
    broadcast use vstd::seq_lib::group_to_multiset_ensures;

    let leaves = node.leaves();
    assert forall|i: int| 0 <= i < leaves.len() implies follows(
        object_hit,
        first_hit,
        t_min,
        #[trigger] leaves[i],
    ) by {
        assert(leaves.contains(leaves[i]));
        assert(objects.to_multiset().count(leaves[i]) > 0);
        assert(objects.contains(leaves[i]));
        let j = choose|j: int| 0 <= j < objects.len() && objects[j] == leaves[i];
        assert(follows(object_hit, first_hit, t_min, objects[j]));
    }
    lemma_tree_finds_nearest(node, box_hit, object_hit, first_hit, t_min, t_max, from_tree);
    lemma_scan_finds_nearest(objects, object_hit, first_hit, t_min, t_max, from_scan);
    lemma_nearest_of_permutation(leaves, objects, first_hit, t_max as int);
}

/// The axes drawn during construction do not show in what a ray reports.
/// Two well-formed trees over the same objects, however each was split,
/// report a hit for the same rays and at the same parameter, provided the
/// tests follow one description of the scene and the box test never hides a
/// hit.
pub proof fn lemma_trees_agree<S, B: Fn(&AABB, Key, Key) -> bool, P: Fn(&Object, Key, Key) -> Outcome<S>>(
    one: BvhNode,
    other: BvhNode,
    box_hit: B,
    object_hit: P,
    first_hit: spec_fn(Object) -> Option<int>,
    t_min: Key,
    t_max: Key,
    from_one: Outcome<S>,
    from_other: Outcome<S>,
)
    requires
        one.well_formed(),
        other.well_formed(),
        one.leaves().to_multiset() == other.leaves().to_multiset(),
        forall|i: int|
            0 <= i < one.leaves().len() ==> follows(
                object_hit,
                first_hit,
                t_min,
                #[trigger] one.leaves()[i],
            ),
        pruning_sound(box_hit, first_hit, t_min),
        one.hit_outcome(box_hit, object_hit, t_min, t_max, from_one),
        other.hit_outcome(box_hit, object_hit, t_min, t_max, from_other),
    ensures
        time_of(from_one) == time_of(from_other),
{
    broadcast use vstd::seq_lib::group_to_multiset_ensures;

    let leaves = other.leaves();
    assert forall|i: int| 0 <= i < leaves.len() implies follows(
        object_hit,
        first_hit,
        t_min,
        #[trigger] leaves[i],
    ) by {
        assert(leaves.contains(leaves[i]));
        assert(one.leaves().to_multiset().count(leaves[i]) > 0);
        assert(one.leaves().contains(leaves[i]));
        let j = choose|j: int| 0 <= j < one.leaves().len() && one.leaves()[j] == leaves[i];
        assert(follows(object_hit, first_hit, t_min, one.leaves()[j]));
    }
    lemma_tree_finds_nearest(one, box_hit, object_hit, first_hit, t_min, t_max, from_one);
    lemma_tree_finds_nearest(other, box_hit, object_hit, first_hit, t_min, t_max, from_other);
    lemma_nearest_of_permutation(one.leaves(), leaves, first_hit, t_max as int);
}

} // verus!
