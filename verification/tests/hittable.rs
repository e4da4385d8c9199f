use raytracer::aabb::{Corner, AABB};
use raytracer::hittable::{Flipface, HitRecord, HittableList};

fn int_box(lo: [i64; 3], hi: [i64; 3]) -> AABB {
    AABB { minimum: Corner::new(lo[0], lo[1], lo[2]), maximum: Corner::new(hi[0], hi[1], hi[2]) }
}

// An object that is met at the parameter it holds.
fn meet(at: &i64, t_min: i64, t_max: i64) -> Option<HitRecord<i64>> {
    if *at < t_min || *at > t_max {
        None
    } else {
        Some(HitRecord { t: *at, front_face: true, surface: *at * 10 })
    }
}

#[test]
fn list_starts_empty_and_add_appends() {
    let mut list: HittableList<i64> = HittableList::new();
    assert!(list.objects.is_empty());
    list.add(4);
    list.add(9);
    list.add(4);
    assert_eq!(list.objects, vec![4, 9, 4]);
}

#[test]
fn list_clear_removes_every_object() {
    let mut list = HittableList::new();
    list.add(1u8);
    list.add(2u8);
    list.clear();
    assert!(list.objects.is_empty());
    list.add(3u8);
    assert_eq!(list.objects, vec![3u8]);
}

#[test]
fn list_hit_of_empty_list_is_none() {
    let list: HittableList<i64> = HittableList::new();
    assert_eq!(list.hit(0, 100, &meet), None);
}

#[test]
fn list_hit_finds_the_nearest_object() {
    let mut list = HittableList::new();
    for at in [70, 30, 50, 20, 90] {
        list.add(at);
    }
    assert_eq!(list.hit(0, 100, &meet), Some(HitRecord { t: 20, front_face: true, surface: 200 }));
    assert_eq!(list.hit(25, 100, &meet), Some(HitRecord { t: 30, front_face: true, surface: 300 }));
    assert_eq!(list.hit(0, 10, &meet), None);
    assert_eq!(list.hit(95, 100, &meet), None);
    assert_eq!(list.hit(90, 90, &meet), Some(HitRecord { t: 90, front_face: true, surface: 900 }));
}

#[test]
fn list_hit_narrows_the_range_after_every_hit() {
    let mut list = HittableList::new();
    for at in [70, 30, 50, 20] {
        list.add(at);
    }
    let ranges = std::cell::RefCell::new(Vec::new());
    let out = list.hit(5, 100, &|at: &i64, t_min: i64, t_max: i64| {
        ranges.borrow_mut().push((t_min, t_max));
        meet(at, t_min, t_max)
    });
    assert_eq!(out.map(|h| h.t), Some(20));
    assert_eq!(*ranges.borrow(), vec![(5, 100), (5, 70), (5, 30), (5, 30)]);
}

#[test]
fn list_hit_prefers_the_later_of_two_equal_hits() {
    let mut list = HittableList::new();
    list.add((40i64, 'a'));
    list.add((40i64, 'b'));
    let out = list.hit(0, 100, &|o: &(i64, char), _t_min: i64, t_max: i64| {
        if o.0 <= t_max {
            Some(HitRecord { t: o.0, front_face: false, surface: o.1 })
        } else {
            None
        }
    });
    assert_eq!(out, Some(HitRecord { t: 40, front_face: false, surface: 'b' }));
}

#[test]
fn list_bounding_box_of_empty_list_is_none() {
    let list: HittableList<AABB> = HittableList::new();
    assert_eq!(list.bounding_box(&|b: &AABB| Some(*b)), None);
}

#[test]
fn list_bounding_box_is_the_union_of_all_boxes() {
    let mut list = HittableList::new();
    list.add(int_box([0, 0, 0], [1, 1, 1]));
    assert_eq!(list.bounding_box(&|b: &AABB| Some(*b)), Some(int_box([0, 0, 0], [1, 1, 1])));
    list.add(int_box([-3, 2, 0], [0, 4, 9]));
    list.add(int_box([5, -7, 1], [6, 0, 2]));
    assert_eq!(list.bounding_box(&|b: &AABB| Some(*b)), Some(int_box([-3, -7, 0], [6, 4, 9])));
}

#[test]
fn list_bounding_box_is_none_where_an_object_has_none() {
    let mut list = HittableList::new();
    list.add(Some(int_box([0, 0, 0], [1, 1, 1])));
    list.add(None);
    list.add(Some(int_box([5, 5, 5], [6, 6, 6])));
    let asked = std::cell::Cell::new(0);
    let out = list.bounding_box(&|b: &Option<AABB>| {
        asked.set(asked.get() + 1);
        *b
    });
    assert_eq!(out, None);
    assert_eq!(asked.get(), 2);
}

#[test]
fn list_random_returns_one_of_the_objects() {
    let mut list = HittableList::new();
    for name in ["a", "b", "c", "d"] {
        list.add(name);
    }
    let mut seen = [false; 4];
    for _ in 0..400 {
        let picked = list.random();
        let at = list.objects.iter().position(|o| o == picked);
        assert!(at.is_some());
        seen[at.unwrap()] = true;
    }
    assert_eq!(seen, [true; 4]);
}

#[test]
fn list_random_of_one_object_is_that_object() {
    let mut list = HittableList::new();
    list.add(77);
    assert_eq!(*list.random(), 77);
}

#[test]
fn flip_face_turns_only_the_side() {
    let rec = HitRecord { t: 12, front_face: true, surface: "s" };
    let flipped = rec.flip_face();
    assert_eq!(flipped, HitRecord { t: 12, front_face: false, surface: "s" });
    assert_eq!(flipped.flip_face(), HitRecord { t: 12, front_face: true, surface: "s" });
}

#[test]
fn flipface_hit_flips_the_hit_of_what_it_wraps() {
    let flip = Flipface::new(30i64);
    assert_eq!(flip.ptr, 30);
    assert_eq!(flip.hit(0, 100, &meet), Some(HitRecord { t: 30, front_face: false, surface: 300 }));
    assert_eq!(flip.hit(0, 20, &meet), None);
}

#[test]
fn list_default_is_empty() {
    let list: HittableList<u32> = Default::default();
    assert!(list.objects.is_empty());
}
