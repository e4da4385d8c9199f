use raytracer::aabb::{Corner, AABB};
use raytracer::sorting::{sort_on_axis, Object};

fn object(id: usize, x: i64, y: i64, z: i64) -> Object {
    Object::new(
        id,
        AABB { minimum: Corner::new(x, y, z), maximum: Corner::new(x + 1, y + 1, z + 1) },
    )
}

fn ids(objects: &[Object]) -> Vec<usize> {
    objects.iter().map(|o| o.id).collect()
}

#[test]
fn sort_key_is_the_least_corner_along_the_axis() {
    let o = object(7, -5, 12, 40);
    assert_eq!(o.sort_key(0), -5);
    assert_eq!(o.sort_key(1), 12);
    assert_eq!(o.sort_key(2), 40);
}

#[test]
fn sort_on_axis_orders_by_each_axis() {
    let input = vec![object(0, 3, 9, 5), object(1, 1, 8, 6), object(2, 2, 7, 4), object(3, 0, 6, 7)];
    assert_eq!(ids(&sort_on_axis(input.clone(), 0)), vec![3, 1, 2, 0]);
    assert_eq!(ids(&sort_on_axis(input.clone(), 1)), vec![3, 2, 1, 0]);
    assert_eq!(ids(&sort_on_axis(input, 2)), vec![2, 0, 1, 3]);
}

#[test]
fn sort_on_axis_keeps_equal_keys_in_their_order() {
    let input = vec![
        object(0, 5, 0, 0),
        object(1, 2, 0, 0),
        object(2, 5, 0, 0),
        object(3, 2, 0, 0),
        object(4, 5, 0, 0),
        object(5, 1, 0, 0),
        object(6, 2, 0, 0),
    ];
    assert_eq!(ids(&sort_on_axis(input.clone(), 0)), vec![5, 1, 3, 6, 0, 2, 4]);
    assert_eq!(ids(&sort_on_axis(input, 1)), vec![0, 1, 2, 3, 4, 5, 6]);
}

#[test]
fn sort_on_axis_leaves_short_inputs_alone() {
    assert_eq!(sort_on_axis(Vec::new(), 0), Vec::new());
    let one = vec![object(4, 1, 2, 3)];
    assert_eq!(sort_on_axis(one.clone(), 2), one);
}

#[test]
fn sort_on_axis_agrees_with_a_stable_sort_on_many_objects() {
    let mut input = Vec::new();
    let mut seed: u64 = 12345;
    for id in 0..500 {
        seed = seed.wrapping_mul(6364136223846793005).wrapping_add(1442695040888963407);
        let x = ((seed >> 33) % 40) as i64 - 20;
        input.push(object(id, x, 0, 0));
    }
    let mut expected = input.clone();
    expected.sort_by_key(|o| o.bbox.minimum.x);
    assert_eq!(sort_on_axis(input, 0), expected);
}

#[test]
fn sort_on_axis_handles_the_extreme_keys() {
    let input = vec![object(0, i64::MAX - 1, 0, 0), object(1, i64::MIN, 0, 0), object(2, 0, 0, 0)];
    assert_eq!(ids(&sort_on_axis(input, 0)), vec![1, 2, 0]);
}
