use raytracer::interval::{clip_segment, hit_slabs, nearest_root, within, Slab};

fn slab(t0: i64, t1: i64) -> Slab {
    Slab { t0, t1, reversed: false }
}

#[test]
fn within_counts_both_ends() {
    assert!(within(5, 5, 9));
    assert!(within(9, 5, 9));
    assert!(within(7, 5, 9));
    assert!(!within(4, 5, 9));
    assert!(!within(10, 5, 9));
    assert!(within(3, 3, 3));
    assert!(!within(3, 4, 2));
    assert!(within(i64::MIN, i64::MIN, i64::MAX));
    assert!(within(i64::MAX, i64::MIN, i64::MAX));
}

#[test]
fn nearest_root_takes_the_first_root_on_the_range() {
    assert_eq!(nearest_root(3, 8, 1, 100), Some(3));
    assert_eq!(nearest_root(1, 8, 1, 100), Some(1));
    assert_eq!(nearest_root(100, 200, 1, 100), Some(100));
}

#[test]
fn nearest_root_takes_the_second_root_where_the_first_is_off_the_range() {
    // The ray starts inside the surface.
    assert_eq!(nearest_root(-4, 8, 1, 100), Some(8));
    assert_eq!(nearest_root(0, 1, 1, 100), Some(1));
}

#[test]
fn nearest_root_is_none_where_both_roots_are_off_the_range() {
    assert_eq!(nearest_root(-9, -2, 1, 100), None);
    assert_eq!(nearest_root(101, 300, 1, 100), None);
    assert_eq!(nearest_root(-5, 200, 1, 100), None);
    assert_eq!(nearest_root(5, 6, 10, 1), None);
}

#[test]
fn hit_slabs_reports_what_all_slabs_and_the_range_share() {
    // Shared stretch from 4 to 6.
    assert!(hit_slabs(slab(0, 10), slab(4, 20), slab(-3, 6), 1, 100));
    // The range ends before the stretch begins.
    assert!(!hit_slabs(slab(0, 10), slab(4, 20), slab(-3, 6), 1, 3));
    // The range begins after the stretch ends.
    assert!(!hit_slabs(slab(0, 10), slab(4, 20), slab(-3, 6), 7, 100));
    // Two slabs have nothing in common.
    assert!(!hit_slabs(slab(0, 3), slab(4, 20), slab(-3, 6), 1, 100));
    assert!(!hit_slabs(slab(0, 10), slab(4, 20), slab(11, 12), 1, 100));
}

#[test]
fn hit_slabs_misses_where_only_one_parameter_is_shared() {
    assert!(!hit_slabs(slab(0, 5), slab(5, 9), slab(0, 9), 0, 100));
    assert!(!hit_slabs(slab(0, 9), slab(0, 9), slab(0, 9), 9, 100));
    assert!(!hit_slabs(slab(0, 9), slab(0, 9), slab(0, 9), 4, 4));
}

#[test]
fn hit_slabs_swaps_the_ends_of_a_reversed_slab() {
    let backwards = Slab { t0: 10, t1: 0, reversed: true };
    assert!(hit_slabs(backwards, slab(4, 20), slab(-3, 6), 1, 100));
    // Without the swap the slab would be empty.
    assert!(!hit_slabs(Slab { t0: 10, t1: 0, reversed: false }, slab(4, 20), slab(-3, 6), 1, 100));
    // A slab given in order but marked as reversed is swapped too.
    assert!(!hit_slabs(Slab { t0: 0, t1: 10, reversed: true }, slab(4, 20), slab(-3, 6), 1, 100));
}

#[test]
fn hit_slabs_hits_from_inside_the_box() {
    // Every slab is entered before the start of the range and left after it.
    assert!(hit_slabs(slab(-5, 5), slab(-1, 2), Slab { t0: 9, t1: -9, reversed: true }, 0, 1000));
    assert!(hit_slabs(slab(i64::MIN, i64::MAX), slab(-1, 2), slab(-7, 1), 0, i64::MAX));
}

#[test]
fn clip_segment_cuts_the_stretch_down_to_the_range() {
    assert_eq!(clip_segment(10, 20, 0, 100, 0), Some((10, 20)));
    assert_eq!(clip_segment(10, 20, 12, 100, 0), Some((12, 20)));
    assert_eq!(clip_segment(10, 20, 0, 15, 0), Some((10, 15)));
    assert_eq!(clip_segment(10, 20, 12, 15, 0), Some((12, 15)));
}

#[test]
fn clip_segment_is_none_where_nothing_is_left() {
    assert_eq!(clip_segment(10, 20, 20, 100, 0), None);
    assert_eq!(clip_segment(10, 20, 0, 10, 0), None);
    assert_eq!(clip_segment(10, 20, 30, 100, 0), None);
    assert_eq!(clip_segment(20, 10, 0, 100, 0), None);
    assert_eq!(clip_segment(10, 10, 0, 100, 0), None);
}

#[test]
fn clip_segment_starts_no_earlier_than_the_origin() {
    assert_eq!(clip_segment(-30, 20, -50, 100, 0), Some((0, 20)));
    assert_eq!(clip_segment(-30, 20, -10, 100, 0), Some((0, 20)));
    assert_eq!(clip_segment(-30, 20, -10, 100, -20), Some((-10, 20)));
    // The start moves even where it then lies behind the end.
    assert_eq!(clip_segment(-30, -5, -50, 100, 0), Some((0, -5)));
}
