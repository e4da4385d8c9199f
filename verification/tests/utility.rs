use raytracer::utility::{index_of_draw, random_axis, random_index, random_int};

#[test]
fn random_int_stays_in_its_range() {
    for _ in 0..2000 {
        let r = random_int(-3, 4);
        assert!(-3 <= r && r <= 4);
    }
}

#[test]
fn random_int_reaches_both_ends() {
    let mut seen = [false; 3];
    for _ in 0..600 {
        seen[random_int(0, 2) as usize] = true;
    }
    assert_eq!(seen, [true; 3]);
}

#[test]
fn random_int_of_one_value_is_that_value() {
    for _ in 0..20 {
        assert_eq!(random_int(5, 5), 5);
        assert_eq!(random_int(i32::MIN, i32::MIN), i32::MIN);
    }
}

#[test]
fn random_int_takes_the_widest_range() {
    let r = random_int(i32::MIN, i32::MAX - 1);
    assert!(r < i32::MAX);
}

#[test]
fn random_axis_is_one_of_three() {
    let mut seen = [false; 3];
    for _ in 0..600 {
        let a = random_axis();
        assert!(a < 3);
        seen[a] = true;
    }
    assert_eq!(seen, [true; 3]);
}

#[test]
fn random_index_stays_below_the_length() {
    for _ in 0..100 {
        assert_eq!(random_index(1), 0);
    }
    let mut seen = [false; 5];
    for _ in 0..1000 {
        let i = random_index(5);
        assert!(i < 5);
        seen[i] = true;
    }
    assert_eq!(seen, [true; 5]);
}

#[test]
fn index_of_draw_is_the_drawn_number() {
    assert_eq!(index_of_draw(0), 0);
    assert_eq!(index_of_draw(2), 2);
    assert_eq!(index_of_draw(i32::MAX), i32::MAX as usize);
}
