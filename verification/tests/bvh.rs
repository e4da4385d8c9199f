use raytracer::aabb::{Corner, AABB};
use raytracer::bvh::{BvhNode, Child};
use raytracer::hittable::{HitRecord, HittableList};
use raytracer::interval::{hit_slabs, nearest_root, Slab};
use raytracer::sorting::Object;

// The key of a number: an integer that orders as the number does.
fn key(x: f64) -> i64 {
    let bits = (x + 0.0).to_bits() as i64;
    bits ^ ((((bits >> 63) as u64) >> 1) as i64)
}

fn number(k: i64) -> f64 {
    f64::from_bits((k ^ ((((k >> 63) as u64) >> 1) as i64)) as u64)
}

fn float_box(lo: [f64; 3], hi: [f64; 3]) -> AABB {
    AABB {
        minimum: Corner::new(key(lo[0]), key(lo[1]), key(lo[2])),
        maximum: Corner::new(key(hi[0]), key(hi[1]), key(hi[2])),
    }
}

fn int_box(lo: [i64; 3], hi: [i64; 3]) -> AABB {
    AABB { minimum: Corner::new(lo[0], lo[1], lo[2]), maximum: Corner::new(hi[0], hi[1], hi[2]) }
}

fn leaves_of_child(child: &Child, out: &mut Vec<Object>) {
    match child {
        Child::Object(o) => out.push(*o),
        Child::Node(n) => leaves_of(n, out),
    }
}

fn leaves_of(node: &BvhNode, out: &mut Vec<Object>) {
    leaves_of_child(&node.left, out);
    if let Some(r) = &node.right {
        leaves_of_child(r, out);
    }
}

fn bounds(child: &Child) -> AABB {
    match child {
        Child::Object(o) => o.bbox,
        Child::Node(n) => n.bbox,
    }
}

// Checks the cached boxes and the split of every node; returns the number of leaves.
fn check_node(node: &BvhNode) -> usize {
    let mut left = Vec::new();
    leaves_of_child(&node.left, &mut left);
    if let Child::Node(n) = &node.left {
        check_node(n);
    }
    match &node.right {
        None => {
            assert_eq!(node.bbox, bounds(&node.left));
            assert_eq!(left.len(), 1);
            1
        }
        Some(r) => {
            let mut right = Vec::new();
            leaves_of_child(r, &mut right);
            if let Child::Node(n) = r {
                check_node(n);
            }
            assert_eq!(node.bbox, AABB::surrounding_box(bounds(&node.left), bounds(r)));
            let total = left.len() + right.len();
            assert_eq!(left.len(), total / 2);
            let split_on = |axis: usize| {
                left.iter().all(|l| right.iter().all(|r| l.sort_key(axis) <= r.sort_key(axis)))
            };
            assert!(split_on(0) || split_on(1) || split_on(2));
            total
        }
    }
}

fn sphere_objects(count: usize) -> (Vec<[f64; 3]>, Vec<Object>) {
    let mut centers = Vec::new();
    let mut objects = Vec::new();
    let mut seed: u64 = 19260817;
    let mut next = || {
        seed = seed.wrapping_mul(6364136223846793005).wrapping_add(1442695040888963407);
        ((seed >> 11) as f64) / ((1u64 << 53) as f64)
    };
    for id in 0..count {
        let c = [next() * 20.0 - 10.0, next() * 20.0 - 10.0, -5.0 - next() * 30.0];
        centers.push(c);
        objects.push(Object::new(
            id,
            float_box([c[0] - 0.5, c[1] - 0.5, c[2] - 0.5], [c[0] + 0.5, c[1] + 0.5, c[2] + 0.5]),
        ));
    }
    (centers, objects)
}

// The least root in [t_min, t_max] of a ray against a sphere of radius 0.5.
fn sphere_hit(center: [f64; 3], orig: [f64; 3], dir: [f64; 3], t_min: f64, t_max: f64) -> Option<f64> {
    let oc = [orig[0] - center[0], orig[1] - center[1], orig[2] - center[2]];
    let a = dir[0] * dir[0] + dir[1] * dir[1] + dir[2] * dir[2];
    let half_b = oc[0] * dir[0] + oc[1] * dir[1] + oc[2] * dir[2];
    let c = oc[0] * oc[0] + oc[1] * oc[1] + oc[2] * oc[2] - 0.25;
    let discriminant = half_b * half_b - a * c;
    if discriminant < 0.0 {
        return None;
    }
    let sqrtd = discriminant.sqrt();
    nearest_root(key((-half_b - sqrtd) / a), key((-half_b + sqrtd) / a), key(t_min), key(t_max))
        .map(number)
}

// The stretch of a ray between the two planes that bound a box along one axis.
fn slab(b: &AABB, orig: [f64; 3], dir: [f64; 3], i: usize) -> Slab {
    let inv_d = 1.0 / dir[i];
    let reversed = inv_d < 0.0;
    let mut t0 = (number(b.minimum.index(i)) - orig[i]) * inv_d;
    let mut t1 = (number(b.maximum.index(i)) - orig[i]) * inv_d;
    if t0.is_nan() {
        t0 = if reversed { f64::INFINITY } else { f64::NEG_INFINITY };
    }
    if t1.is_nan() {
        t1 = if reversed { f64::NEG_INFINITY } else { f64::INFINITY };
    }
    Slab { t0: key(t0), t1: key(t1), reversed }
}

// The slab test of a ray against a box.
fn slab_hit(b: &AABB, orig: [f64; 3], dir: [f64; 3], t_min: f64, t_max: f64) -> bool {
    hit_slabs(slab(b, orig, dir, 0), slab(b, orig, dir, 1), slab(b, orig, dir, 2), key(t_min), key(t_max))
}

#[test]
fn keys_order_as_the_numbers_do() {
    let numbers = [f64::NEG_INFINITY, -1.0e300, -2.5, -1.0e-300, 0.0, 1.0e-300, 0.001, 1.0, 554.0, f64::INFINITY];
    for pair in numbers.windows(2) {
        assert!(key(pair[0]) < key(pair[1]));
    }
    for x in numbers {
        assert_eq!(number(key(x)), x);
    }
    assert_eq!(key(-0.0), key(0.0));
}

#[test]
fn box_cmp_compares_the_least_corners() {
    let a = int_box([1, 9, 5], [2, 10, 6]);
    let b = int_box([3, 7, 5], [4, 8, 6]);
    assert!(BvhNode::box_cmp(Some(a), Some(b), 0));
    assert!(!BvhNode::box_cmp(Some(a), Some(b), 1));
    assert!(!BvhNode::box_cmp(Some(a), Some(b), 2));
    assert!(!BvhNode::box_cmp(Some(b), Some(a), 0));
    assert!(BvhNode::x_cmp(Some(a), Some(b)));
    assert!(BvhNode::y_cmp(Some(b), Some(a)));
    assert!(!BvhNode::z_cmp(Some(a), Some(b)));
    assert!(!BvhNode::z_cmp(Some(b), Some(a)));
}

#[test]
fn new_node_with_one_child_takes_its_box() {
    let o = Object::new(3, int_box([1, 2, 3], [4, 5, 6]));
    let node = BvhNode::new(Some(Child::Object(o)), None);
    assert_eq!(node.bbox, o.bbox);
    assert_eq!(node.left, Child::Object(o));
    assert_eq!(node.right, None);
    assert_eq!(node.bounding_box(), Some(o.bbox));
}

#[test]
fn new_node_with_two_children_takes_the_union() {
    let a = Object::new(0, int_box([1, 2, 3], [4, 5, 6]));
    let b = Object::new(1, int_box([-1, 3, 0], [2, 9, 4]));
    let node = BvhNode::new(Some(Child::Object(a)), Some(Child::Object(b)));
    assert_eq!(node.bbox, int_box([-1, 2, 0], [4, 9, 6]));
    assert_eq!(node.left, Child::Object(a));
    assert_eq!(node.right, Some(Child::Object(b)));
}

#[test]
fn tree_over_one_object_is_a_single_leaf() {
    let o = Object::new(0, int_box([1, 2, 3], [4, 5, 6]));
    let node = BvhNode::new_from_vec(vec![o]);
    assert_eq!(node, BvhNode { bbox: o.bbox, left: Child::Object(o), right: None });
}

#[test]
fn tree_over_two_objects_puts_the_lesser_first() {
    // Lesser along every axis, so the drawn axis does not matter.
    let small = Object::new(0, int_box([0, 0, 0], [1, 1, 1]));
    let large = Object::new(1, int_box([5, 5, 5], [6, 6, 6]));
    for objects in [vec![small, large], vec![large, small]] {
        let node = BvhNode::new_from_vec(objects);
        assert_eq!(node.left, Child::Object(small));
        assert_eq!(node.right, Some(Child::Object(large)));
        assert_eq!(node.bbox, int_box([0, 0, 0], [6, 6, 6]));
    }
}

#[test]
fn tree_over_two_equal_objects_keeps_their_order() {
    let first = Object::new(0, int_box([2, 2, 2], [3, 3, 3]));
    let second = Object::new(1, int_box([2, 2, 2], [4, 4, 4]));
    let node = BvhNode::new_from_vec(vec![first, second]);
    assert_eq!(node.left, Child::Object(first));
    assert_eq!(node.right, Some(Child::Object(second)));
}

#[test]
fn tree_over_three_objects_splits_one_and_two() {
    // Ordered alike along every axis.
    let a = Object::new(0, int_box([0, 0, 0], [1, 1, 1]));
    let b = Object::new(1, int_box([2, 2, 2], [3, 3, 3]));
    let c = Object::new(2, int_box([4, 4, 4], [5, 5, 5]));
    let node = BvhNode::new_from_vec(vec![c, a, b]);
    let expected = BvhNode {
        bbox: int_box([0, 0, 0], [5, 5, 5]),
        left: Child::Node(Box::new(BvhNode { bbox: a.bbox, left: Child::Object(a), right: None })),
        right: Some(Child::Node(Box::new(BvhNode {
            bbox: int_box([2, 2, 2], [5, 5, 5]),
            left: Child::Object(b),
            right: Some(Child::Object(c)),
        }))),
    };
    assert_eq!(node, expected);
}

#[test]
fn tree_holds_every_object_once_and_every_box_is_the_union_below() {
    for count in [1usize, 2, 3, 4, 5, 8, 17, 100, 1000] {
        let (_, objects) = sphere_objects(count);
        let node = BvhNode::new_from_vec(objects.clone());
        assert_eq!(check_node(&node), count);
        let mut leaves = Vec::new();
        leaves_of(&node, &mut leaves);
        let mut found: Vec<usize> = leaves.iter().map(|o| o.id).collect();
        found.sort();
        assert_eq!(found, (0..count).collect::<Vec<usize>>());
        for leaf in &leaves {
            assert_eq!(*leaf, objects[leaf.id]);
        }
    }
}

#[test]
fn tree_from_list_is_built_like_tree_from_vec() {
    let a = Object::new(0, int_box([0, 0, 0], [1, 1, 1]));
    let b = Object::new(1, int_box([2, 2, 2], [3, 3, 3]));
    let mut list = HittableList::new();
    list.add(b);
    list.add(a);
    let node = BvhNode::new_from_list(list);
    assert_eq!(node, BvhNode::new_from_vec(vec![b, a]));
}

#[test]
fn tree_search_skips_what_lies_in_a_missed_box() {
    let a = Object::new(0, int_box([0, 0, 0], [1, 1, 1]));
    let b = Object::new(1, int_box([5, 5, 5], [6, 6, 6]));
    let node = BvhNode::new_from_vec(vec![a, b]);
    let tested = std::cell::Cell::new(0);
    let object_hit = |o: &Object, _t_min: i64, _t_max: i64| {
        tested.set(tested.get() + 1);
        Some(HitRecord { t: 10, front_face: true, surface: o.id })
    };
    assert_eq!(node.hit(0, 100, &|_b: &AABB, _lo: i64, _hi: i64| false, &object_hit), None);
    assert_eq!(tested.get(), 0);
    let out = node.hit(0, 100, &|_b: &AABB, _lo: i64, _hi: i64| true, &object_hit);
    assert_eq!(out, Some(HitRecord { t: 10, front_face: true, surface: 1 }));
    assert_eq!(tested.get(), 2);
}

#[test]
fn tree_search_hands_the_closest_hit_on_as_the_end_of_the_range() {
    let a = Object::new(0, int_box([0, 0, 0], [1, 1, 1]));
    let b = Object::new(1, int_box([5, 5, 5], [6, 6, 6]));
    let node = BvhNode::new_from_vec(vec![a, b]);
    let seen = std::cell::RefCell::new(Vec::new());
    let object_hit = |o: &Object, t_min: i64, t_max: i64| {
        seen.borrow_mut().push((o.id, t_min, t_max));
        if o.id == 0 {
            Some(HitRecord { t: 40, front_face: false, surface: () })
        } else {
            None
        }
    };
    let out = node.hit(1, 100, &|_b: &AABB, _lo: i64, _hi: i64| true, &object_hit);
    assert_eq!(out, Some(HitRecord { t: 40, front_face: false, surface: () }));
    assert_eq!(*seen.borrow(), vec![(0, 1, 100), (1, 1, 40)]);
}

#[test]
fn tree_and_plain_search_find_the_same_nearest_sphere() {
    let (centers, objects) = sphere_objects(300);
    let node = BvhNode::new_from_vec(objects.clone());
    let mut list = HittableList::new();
    for o in &objects {
        list.add(*o);
    }
    let orig = [0.0, 0.0, 0.0];
    let mut hits = 0;
    for i in 0..40 {
        for j in 0..40 {
            let dir = [(i as f64 - 20.0) / 40.0, (j as f64 - 20.0) / 40.0, -1.0];
            let object_hit = |o: &Object, t_min: i64, t_max: i64| {
                sphere_hit(centers[o.id], orig, dir, number(t_min), number(t_max))
                    .map(|t| HitRecord { t: key(t), front_face: true, surface: o.id })
            };
            let box_hit =
                |b: &AABB, t_min: i64, t_max: i64| slab_hit(b, orig, dir, number(t_min), number(t_max));
            let from_tree = node.hit(key(0.001), key(f64::INFINITY), &box_hit, &object_hit);
            let from_list = list.hit(key(0.001), key(f64::INFINITY), &object_hit);
            assert_eq!(from_tree.as_ref().map(|h| h.t), from_list.as_ref().map(|h| h.t));
            let brute = centers
                .iter()
                .filter_map(|c| sphere_hit(*c, orig, dir, 0.001, f64::INFINITY))
                .fold(None, |best: Option<f64>, t| match best {
                    Some(b) if b <= t => Some(b),
                    _ => Some(t),
                });
            assert_eq!(from_tree.as_ref().map(|h| number(h.t)), brute);
            if from_tree.is_some() {
                hits += 1;
            }
        }
    }
    assert!(hits > 100);
}

#[test]
fn child_reports_its_box_and_its_hit() {
    let o = Object::new(4, int_box([1, 2, 3], [4, 5, 6]));
    let leaf = Child::Object(o);
    assert_eq!(leaf.bounding_box(), o.bbox);
    let object_hit = |o: &Object, t_min: i64, t_max: i64| {
        Some(HitRecord { t: t_min + t_max, front_face: true, surface: o.id })
    };
    // An object is tested without asking for its box.
    let out = leaf.hit(3, 9, &|_b: &AABB, _lo: i64, _hi: i64| false, &object_hit);
    assert_eq!(out, Some(HitRecord { t: 12, front_face: true, surface: 4 }));
    let subtree = Child::Node(Box::new(BvhNode::new_from_vec(vec![o])));
    assert_eq!(subtree.bounding_box(), o.bbox);
    assert_eq!(subtree.hit(3, 9, &|_b: &AABB, _lo: i64, _hi: i64| false, &object_hit), None);
    assert_eq!(
        subtree.hit(3, 9, &|_b: &AABB, _lo: i64, _hi: i64| true, &object_hit),
        Some(HitRecord { t: 12, front_face: true, surface: 4 })
    );
}

#[test]
fn a_ray_down_the_axis_meets_the_sphere_in_front_of_it() {
    // A sphere of radius 0.5 around (0, 0, -1), seen from the origin.
    let center = [0.0, 0.0, -1.0];
    let object = Object::new(0, float_box([-0.5, -0.5, -1.5], [0.5, 0.5, -0.5]));
    let node = BvhNode::new_from_vec(vec![object]);
    let orig = [0.0, 0.0, 0.0];
    let dir = [0.0, 0.0, -1.0];
    let object_hit = |_o: &Object, t_min: i64, t_max: i64| {
        sphere_hit(center, orig, dir, number(t_min), number(t_max)).map(|t| {
            let p = [orig[0] + t * dir[0], orig[1] + t * dir[1], orig[2] + t * dir[2]];
            let normal = [(p[0] - center[0]) / 0.5, (p[1] - center[1]) / 0.5, (p[2] - center[2]) / 0.5];
            HitRecord { t: key(t), front_face: true, surface: normal }
        })
    };
    let box_hit = |b: &AABB, t_min: i64, t_max: i64| slab_hit(b, orig, dir, number(t_min), number(t_max));
    let out = node.hit(key(0.001), key(f64::INFINITY), &box_hit, &object_hit).unwrap();
    assert_eq!(number(out.t), 0.5);
    assert_eq!(out.surface, [0.0, 0.0, 1.0]);
    assert!(out.front_face);
}

#[test]
fn a_ray_from_inside_a_box_passes_the_slab_test() {
    let b = float_box([-1.0, -2.0, -3.0], [4.0, 5.0, 6.0]);
    let mut seed: u64 = 7;
    let mut next = || {
        seed = seed.wrapping_mul(6364136223846793005).wrapping_add(1442695040888963407);
        ((seed >> 11) as f64) / ((1u64 << 53) as f64)
    };
    for _ in 0..500 {
        let orig = [-1.0 + 5.0 * next().max(1e-9), -2.0 + 7.0 * next().max(1e-9), -3.0 + 9.0 * next().max(1e-9)];
        let dir = [next() - 0.5, next() - 0.5, next() - 0.5];
        assert!(slab_hit(&b, orig, dir, 0.0, f64::INFINITY));
    }
    for dir in [[1.0, 0.0, 0.0], [0.0, -1.0, 0.0], [0.0, 0.0, 1.0], [-0.0, 3.0, 0.0]] {
        assert!(slab_hit(&b, [0.0, 0.0, 0.0], dir, 0.0, f64::INFINITY));
    }
}
