//! The bounding-volume hierarchy: a binary tree over the objects of a scene
//! that lets a ray skip whole groups of them.

use crate::aabb::{Key, AABB};
use crate::hittable::{HittableList, Outcome};
use crate::sorting::{
    keeps_order_of_equals, lemma_same_order_same_objects, sort_on_axis, sorted_on, Object,
};
use crate::utility::random_axis;
use vstd::prelude::*;

verus! {

/// What hangs below a node: one object of the scene, or a subtree.
#[derive(Debug, PartialEq, Eq)]
pub enum Child {
    Object(Object),
    Node(Box<BvhNode>),
}

/// A node of the tree. It has a left child, may have a right one, and
/// holds the box around everything below it.
#[derive(Debug, PartialEq, Eq)]
pub struct BvhNode {
    pub bbox: AABB,
    pub left: Child,
    pub right: Option<Child>,
}

impl Child {
    /// The box of the object, or the box the subtree holds.
    pub open spec fn bounds(self) -> AABB {
        match self {
            Child::Object(o) => o.bbox,
            Child::Node(n) => n.bbox,
        }
    }

    /// The objects below, from left to right.
    pub open spec fn leaves(self) -> Seq<Object>
        decreases self,
    {
        match self {
            Child::Object(o) => seq![o],
            Child::Node(n) => n.leaves(),
        }
    }

    /// Every node below holds the union of its children's boxes.
    pub open spec fn well_formed(self) -> bool
        decreases self,
    {
        match self {
            Child::Object(_) => true,
            Child::Node(n) => n.well_formed(),
        }
    }

    /// `out` can be what a ray reports of this child on the range from
    /// `t_min` to `t_max`: the object's own outcome, or the subtree's.
    pub open spec fn hit_outcome<S, B: Fn(&AABB, Key, Key) -> bool, P: Fn(&Object, Key, Key) -> Outcome<S>>(
        self,
        box_hit: B,
        object_hit: P,
        t_min: Key,
        t_max: Key,
        out: Outcome<S>,
    ) -> bool
        decreases self,
    {
        match self {
            Child::Object(o) => call_ensures(object_hit, (&o, t_min, t_max), out),
            Child::Node(n) => n.hit_outcome(box_hit, object_hit, t_min, t_max, out),
        }
    }

    /// The box of the object, or the box the subtree holds.
    pub fn bounding_box(&self) -> (out: AABB)
        ensures
            out == self.bounds(),
    {
        match self {
            Child::Object(o) => o.bbox,
            Child::Node(n) => n.bbox,
        }
    }

    /// Tests the ray against the object, or searches the subtree.
    pub fn hit<S, B: Fn(&AABB, Key, Key) -> bool, P: Fn(&Object, Key, Key) -> Outcome<S>>(
        &self,
        t_min: Key,
        t_max: Key,
        box_hit: &B,
        object_hit: &P,
    ) -> (out: Outcome<S>)
        requires
            forall|b: AABB, c: Key| call_requires(*box_hit, (&b, t_min, c)),
            forall|o: Object, c: Key|
                self.leaves().contains(o) ==> call_requires(*object_hit, (&o, t_min, c)),
        ensures
            self.hit_outcome(*box_hit, *object_hit, t_min, t_max, out),
        decreases self,
    {
        match self {
            Child::Object(o) => {
                assert(self.leaves()[0] == *o);
                object_hit(o, t_min, t_max)
            },
            Child::Node(n) => n.hit(t_min, t_max, box_hit, object_hit),
        }
    }
}

/// The outcome of two searches, the second made on the range that the first
/// left: the second one's hit if it has one, else the first one's.
pub open spec fn later_of<S>(first: Outcome<S>, second: Outcome<S>) -> Outcome<S> {
    if second is Some {
        second
    } else {
        first
    }
}

/// The upper end of the range that is left to search after the outcome
/// `found`: the parameter of the hit, or `t_max` if there is none.
pub open spec fn closest_of<S>(found: Outcome<S>, t_max: Key) -> Key {
    match found {
        Some(h) => h.t,
        None => t_max,
    }
}

/// `s` is `objects` sorted along one of the three axes, objects with equal
/// keys left in the order they had.
pub open spec fn sorted_copy_on(s: Seq<Object>, objects: Seq<Object>, axis: int) -> bool {
    &&& 0 <= axis < 3
    &&& s.len() == objects.len()
    &&& sorted_on(s, axis)
    &&& keeps_order_of_equals(s, objects, axis)
}

/// The two objects `first` and `second` are the two of `objects`, the one
/// with the lesser key along `axis` first, and the earlier one first where
/// neither is lesser.
pub open spec fn pair_in_order(first: Object, second: Object, objects: Seq<Object>, axis: int)
    -> bool {
    &&& 0 <= axis < 3
    &&& objects.len() == 2
    &&& if objects[1].key(axis) < objects[0].key(axis) {
        first == objects[1] && second == objects[0]
    } else {
        first == objects[0] && second == objects[1]
    }
}

impl BvhNode {
    /// The objects below this node, from left to right.
    pub open spec fn leaves(self) -> Seq<Object>
        decreases self,
    {
        match self.right {
            Some(r) => self.left.leaves() + r.leaves(),
            None => self.left.leaves(),
        }
    }

    /// This node and every node below it holds the union of its children's
    /// boxes.
    pub open spec fn well_formed(self) -> bool
        decreases self,
    {
        &&& self.left.well_formed()
        &&& match self.right {
            Some(r) => r.well_formed() && self.bbox == self.left.bounds().union(r.bounds()),
            None => self.bbox == self.left.bounds(),
        }
    }

    /// Both children are objects, and they are the two of `objects` in order
    /// along `axis`.
    pub open spec fn holds_pair_on(self, objects: Seq<Object>, axis: int) -> bool {
        &&& self.left is Object
        &&& self.right is Some
        &&& self.right->0 is Object
        &&& pair_in_order(self.left->Object_0, self.right->0->Object_0, objects, axis)
    }

    /// The shape that construction gives a tree over `objects`, whatever axes
    /// were drawn on the way.
    ///
    /// One object hangs alone on the left. Two objects hang left and right,
    /// in order along some axis. More are sorted along some axis and cut at
    /// the middle, and each half is a subtree of this same shape.
    pub open spec fn built_from(self, objects: Seq<Object>) -> bool
        decreases objects.len(),
    {
        let n = objects.len();
        if n == 1 {
            self.left == Child::Object(objects[0]) && self.right is None
        } else if n == 2 {
            exists|axis: int| #[trigger] self.holds_pair_on(objects, axis)
        } else if n > 2 {
            exists|s: Seq<Object>, axis: int|
                #![trigger sorted_copy_on(s, objects, axis)]
                {
                    &&& sorted_copy_on(s, objects, axis)
                    &&& self.left matches Child::Node(l)
                    &&& self.right matches Some(Child::Node(r))
                    &&& l.built_from(s.take(n as int / 2))
                    &&& r.built_from(s.skip(n as int / 2))
                }
        } else {
            false
        }
    }

    /// `out` can be what a ray reports of this node on the range from
    /// `t_min` to `t_max`.
    ///
    /// Where the ray misses the node's box there is no hit. Otherwise the
    /// left child is searched on the whole range and the right child on the
    /// range that ends at the left child's hit; the right child's hit is
    /// the result if there is one, else the left child's.
    pub open spec fn hit_outcome<S, B: Fn(&AABB, Key, Key) -> bool, P: Fn(&Object, Key, Key) -> Outcome<S>>(
        self,
        box_hit: B,
        object_hit: P,
        t_min: Key,
        t_max: Key,
        out: Outcome<S>,
    ) -> bool
        decreases self,
    {
        ||| call_ensures(box_hit, (&self.bbox, t_min, t_max), false) && out is None
        ||| {
            &&& call_ensures(box_hit, (&self.bbox, t_min, t_max), true)
            &&& exists|l: Outcome<S>, r: Outcome<S>|
                #![trigger later_of(l, r)]
                {
                    &&& self.left.hit_outcome(box_hit, object_hit, t_min, t_max, l)
                    &&& match self.right {
                        None => r is None,
                        Some(right) => right.hit_outcome(
                            box_hit,
                            object_hit,
                            t_min,
                            closest_of(l, t_max),
                            r,
                        ),
                    }
                    &&& out == later_of(l, r)
                }
        }
    }

    /// A node over one or two children. The box it holds is the left
    /// child's, or the union of both.
    pub fn new(left: Option<Child>, right: Option<Child>) -> (node: BvhNode)
        requires
            left is Some,
        ensures
            node.left == left->0,
            node.right == right,
            node.bbox == match right {
                Some(r) => left->0.bounds().union(r.bounds()),
                None => left->0.bounds(),
            },
    {
        let l = left.unwrap();
        let box_left = l.bounding_box();
        match right {
            Some(r) => {
                let box_right = r.bounding_box();
                BvhNode {
                    bbox: AABB::surrounding_box(box_left, box_right),
                    left: l,
                    right: Some(r),
                }
            },
            None => BvhNode { bbox: box_left, left: l, right: None },
        }
    }

    /// Whether the box `a` starts before the box `b` along `axis`.
    pub fn box_cmp(a: Option<AABB>, b: Option<AABB>, axis: usize) -> (less: bool)
        requires
            a is Some,
            b is Some,
            axis < 3,
        ensures
            less == (a->0.minimum.on_axis(axis) < b->0.minimum.on_axis(axis)),
    {
        let box_a = a.unwrap();
        let box_b = b.unwrap();
        box_a.minimum.index(axis) < box_b.minimum.index(axis)
    }

    /// Whether `a` starts before `b` along x.
    pub fn x_cmp(a: Option<AABB>, b: Option<AABB>) -> (less: bool)
        requires
            a is Some,
            b is Some,
        ensures
            less == (a->0.minimum.x < b->0.minimum.x),
    {
        BvhNode::box_cmp(a, b, 0)
    }

    /// Whether `a` starts before `b` along y.
    pub fn y_cmp(a: Option<AABB>, b: Option<AABB>) -> (less: bool)
        requires
            a is Some,
            b is Some,
        ensures
            less == (a->0.minimum.y < b->0.minimum.y),
    {
        BvhNode::box_cmp(a, b, 1)
    }

    /// Whether `a` starts before `b` along z.
    pub fn z_cmp(a: Option<AABB>, b: Option<AABB>) -> (less: bool)
        requires
            a is Some,
            b is Some,
        ensures
            less == (a->0.minimum.z < b->0.minimum.z),
    {
        BvhNode::box_cmp(a, b, 2)
    }

    /// The box around everything below this node.
    pub fn bounding_box(&self) -> (out: Option<AABB>)
        ensures
            out == Some(self.bbox),
    {
        Some(self.bbox)
    }

    /// Searches the tree for the nearest hit in the range from `t_min` to
    /// `t_max`. `box_hit` tells whether the ray passes through a box on a
    /// range, `object_hit` tests one object on a range.
    pub fn hit<S, B: Fn(&AABB, Key, Key) -> bool, P: Fn(&Object, Key, Key) -> Outcome<S>>(
        &self,
        t_min: Key,
        t_max: Key,
        box_hit: &B,
        object_hit: &P,
    ) -> (out: Outcome<S>)
        requires
            forall|b: AABB, c: Key| call_requires(*box_hit, (&b, t_min, c)),
            forall|o: Object, c: Key|
                self.leaves().contains(o) ==> call_requires(*object_hit, (&o, t_min, c)),
        ensures
            self.hit_outcome(*box_hit, *object_hit, t_min, t_max, out),
        decreases self,
    {
        if !box_hit(&self.bbox, t_min, t_max) {
            return None;
        }
        proof {
            assert forall|o: Object| self.left.leaves().contains(o) implies self.leaves().contains(
                o,
            ) by {
                let i = choose|i: int| 0 <= i < self.left.leaves().len() && self.left.leaves()[i] == o;
                assert(self.leaves()[i] == o);
            }
        }
        let mut closest_so_far: Key = t_max;
        let hit_left = self.left.hit(t_min, closest_so_far, box_hit, object_hit);
        if let Some(rec) = &hit_left {
            closest_so_far = rec.t;
        }
        assert(closest_so_far == closest_of(hit_left, t_max));
        let ghost left_outcome = hit_left;
        match &self.right {
            Some(right) => {
                proof {
                    assert forall|o: Object| right.leaves().contains(o) implies self.leaves().contains(
                        o,
                    ) by {
                        let i = choose|i: int| 0 <= i < right.leaves().len() && right.leaves()[i] == o;
                        assert(self.leaves()[self.left.leaves().len() + i] == o);
                    }
                }
                let hit_right = right.hit(t_min, closest_so_far, box_hit, object_hit);
                let ghost right_outcome = hit_right;
                let out = if hit_right.is_some() {
                    hit_right
                } else {
                    hit_left
                };
                proof {
                    assert(right.hit_outcome(
                        *box_hit,
                        *object_hit,
                        t_min,
                        closest_of(left_outcome, t_max),
                        right_outcome,
                    ));
                    assert(self.left.hit_outcome(*box_hit, *object_hit, t_min, t_max, left_outcome));
                    assert(out == later_of(left_outcome, right_outcome));
                }
                out
            },
            None => {
                proof {
                    assert(self.left.hit_outcome(*box_hit, *object_hit, t_min, t_max, left_outcome));
                    assert(hit_left == later_of(left_outcome, None));
                }
                hit_left
            },
        }
    }

    /// Builds the tree over the objects of `list`.
    pub fn new_from_list(list: HittableList<Object>) -> (node: BvhNode)
        requires
            list.objects@.len() > 0,
        ensures
            node.well_formed(),
            node.built_from(list.objects@),
            node.leaves().to_multiset() == list.objects@.to_multiset(),
    {
        BvhNode::new_from_vec(list.objects)
    }

    /// Builds the tree over `src_objects`, drawing a fresh axis at every
    /// node.
    pub fn new_from_vec(src_objects: Vec<Object>) -> (node: BvhNode)
        requires
            src_objects@.len() > 0,
        ensures
            node.well_formed(),
            node.built_from(src_objects@),
            node.leaves().to_multiset() == src_objects@.to_multiset(),
        decreases src_objects@.len(),
    {
        broadcast use {
            vstd::seq_lib::group_to_multiset_ensures,
            vstd::multiset::group_multiset_axioms,
        };

        let mut objects = src_objects;
        let axis = random_axis();
        let object_span = objects.len();
        if object_span == 1 {
            let obj = objects.pop().unwrap();
            let node = BvhNode::new(Some(Child::Object(obj)), None);
            proof {
                assert(node.leaves() =~= src_objects@);
            }
            node
        } else if object_span == 2 {
            let obj1 = objects.pop().unwrap();
            let obj2 = objects.pop().unwrap();
            let node = if obj1.sort_key(axis) < obj2.sort_key(axis) {
                BvhNode::new(Some(Child::Object(obj1)), Some(Child::Object(obj2)))
            } else {
                BvhNode::new(Some(Child::Object(obj2)), Some(Child::Object(obj1)))
            };
            proof {
                let first = node.left->Object_0;
                let second = node.right->0->Object_0;
                assert(node.holds_pair_on(src_objects@, axis as int));
                assert(src_objects@ =~= seq![obj2] + seq![obj1]);
                vstd::seq_lib::lemma_multiset_commutative(seq![obj2], seq![obj1]);
                vstd::seq_lib::lemma_multiset_commutative(seq![obj1], seq![obj2]);
                assert(node.leaves() =~= seq![first] + seq![second]);
            }
            node
        } else {
            let sorted = sort_on_axis(objects, axis);
            let ghost s = sorted@;
            let mut left_vec = sorted;
            let right_vec = left_vec.split_off(object_span / 2);
            proof {
                assert(left_vec@ =~= s.take(object_span as int / 2));
                assert(right_vec@ =~= s.skip(object_span as int / 2));
                assert(s =~= left_vec@ + right_vec@);
                vstd::seq_lib::lemma_multiset_commutative(left_vec@, right_vec@);
            }
            let l = BvhNode::new_from_vec(left_vec);
            let r = BvhNode::new_from_vec(right_vec);
            let node = BvhNode::new(Some(Child::Node(Box::new(l))), Some(Child::Node(Box::new(r))));
            proof {
                assert(sorted_copy_on(s, src_objects@, axis as int));
                assert(node.leaves() =~= l.leaves() + r.leaves());
                vstd::seq_lib::lemma_multiset_commutative(l.leaves(), r.leaves());
            }
            node
        }
    }
}

/// Every object below the left child of `node` comes no later along
/// `axis` than every object below the right child.
pub open spec fn split_along(node: BvhNode, axis: int) -> bool {
    node.right matches Some(right) && forall|i: int, j: int|
        0 <= i < node.left.leaves().len() && 0 <= j < right.leaves().len() ==> (
        #[trigger] node.left.leaves()[i]).key(axis) <= (#[trigger] right.leaves()[j]).key(axis)
}

/// A tree of the shape that construction gives holds exactly the objects it
/// was built from.
pub proof fn lemma_built_tree_holds_objects(node: BvhNode, objects: Seq<Object>)
    requires
        node.built_from(objects),
    ensures
        node.leaves().to_multiset() == objects.to_multiset(),
        node.leaves().len() == objects.len(),
    decreases objects.len(),
{
    broadcast use {
        vstd::seq_lib::group_to_multiset_ensures,
        vstd::multiset::group_multiset_axioms,
    };

    let n = objects.len() as int;
    if n == 1 {
        assert(node.leaves() =~= seq![objects[0]]);
        assert(objects =~= seq![objects[0]]);
    } else if n == 2 {
        let axis = choose|axis: int| #[trigger] node.holds_pair_on(objects, axis);
        let first = node.left->Object_0;
        let second = node.right->0->Object_0;
        assert(node.leaves() =~= seq![first] + seq![second]);
        assert(objects =~= seq![objects[0]] + seq![objects[1]]);
        vstd::seq_lib::lemma_multiset_commutative(seq![objects[0]], seq![objects[1]]);
        vstd::seq_lib::lemma_multiset_commutative(seq![objects[1]], seq![objects[0]]);
        vstd::seq_lib::lemma_multiset_commutative(seq![first], seq![second]);
    } else {
        let (s, axis) = choose|s: Seq<Object>, axis: int|
            #![trigger sorted_copy_on(s, objects, axis)]
            {
                &&& sorted_copy_on(s, objects, axis)
                &&& node.left matches Child::Node(l)
                &&& node.right matches Some(Child::Node(r))
                &&& l.built_from(s.take(n / 2))
                &&& r.built_from(s.skip(n / 2))
            };
        let l = *node.left->Node_0;
        let r = *node.right->0->Node_0;
        lemma_built_tree_holds_objects(l, s.take(n / 2));
        lemma_built_tree_holds_objects(r, s.skip(n / 2));
        lemma_same_order_same_objects(s, objects, axis);
        assert(s =~= s.take(n / 2) + s.skip(n / 2));
        vstd::seq_lib::lemma_multiset_commutative(s.take(n / 2), s.skip(n / 2));
        assert(node.leaves() =~= l.leaves() + r.leaves());
        vstd::seq_lib::lemma_multiset_commutative(l.leaves(), r.leaves());
    }
}

/// A tree built from two or more objects is cut at the middle of an order:
/// the left child holds half of the objects, rounded down, the right child
/// the rest, and along one of the three axes nothing on the left comes
/// later than anything on the right.
pub proof fn lemma_built_tree_is_split(node: BvhNode, objects: Seq<Object>)
    requires
        node.built_from(objects),
        objects.len() >= 2,
    ensures
        node.right is Some,
        node.left.leaves().len() == objects.len() / 2,
        node.right->0.leaves().len() == objects.len() - objects.len() / 2,
        exists|axis: int| 0 <= axis < 3 && #[trigger] split_along(node, axis),
{
    broadcast use vstd::seq_lib::group_to_multiset_ensures;

    let n = objects.len() as int;
    if n == 2 {
        let axis = choose|axis: int| #[trigger] node.holds_pair_on(objects, axis);
        let first = node.left->Object_0;
        let second = node.right->0->Object_0;
        assert(node.left.leaves() =~= seq![first]);
        assert(node.right->0.leaves() =~= seq![second]);
        assert(split_along(node, axis));
    } else {
        let (s, axis) = choose|s: Seq<Object>, axis: int|
            #![trigger sorted_copy_on(s, objects, axis)]
            {
                &&& sorted_copy_on(s, objects, axis)
                &&& node.left matches Child::Node(l)
                &&& node.right matches Some(Child::Node(r))
                &&& l.built_from(s.take(n / 2))
                &&& r.built_from(s.skip(n / 2))
            };
        let l = *node.left->Node_0;
        let r = *node.right->0->Node_0;
        let low = s.take(n / 2);
        let high = s.skip(n / 2);
        lemma_built_tree_holds_objects(l, low);
        lemma_built_tree_holds_objects(r, high);
        assert forall|i: int, j: int|
            0 <= i < node.left.leaves().len() && 0 <= j < node.right->0.leaves().len() implies (
        #[trigger] node.left.leaves()[i]).key(axis) <= (#[trigger] node.right->0.leaves()[j]).key(
            axis,
        ) by {
            let a = l.leaves()[i];
            let b = r.leaves()[j];
            assert(l.leaves().contains(a));
            assert(low.to_multiset().count(a) > 0);
            assert(low.contains(a));
            assert(r.leaves().contains(b));
            assert(high.to_multiset().count(b) > 0);
            assert(high.contains(b));
            let ia = choose|ia: int| 0 <= ia < low.len() && low[ia] == a;
            let ib = choose|ib: int| 0 <= ib < high.len() && high[ib] == b;
            assert(s[ia] == a);
            assert(s[n / 2 + ib] == b);
        }
        assert(split_along(node, axis));
    }
}

} // verus!
