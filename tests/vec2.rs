use keyspring::vec2::{clamp_i128, div_toward_zero, isqrt, square, Vec2, BOUND, SCALE};

#[test]
fn isqrt_rounds_down() {
    assert_eq!(isqrt(0), 0);
    assert_eq!(isqrt(1), 1);
    assert_eq!(isqrt(15), 3);
    assert_eq!(isqrt(16), 4);
    assert_eq!(isqrt(8_000_000_000_000_000_000_000_000), 2_828_427_124_746);
}

#[test]
fn size_of_three_four_is_five() {
    let v = Vec2 { x: 3 * SCALE, y: 4 * SCALE };
    assert_eq!(v.size(), 5 * SCALE as u64);
}

#[test]
fn unit_scales_to_one() {
    let v = Vec2 { x: 3 * SCALE, y: -4 * SCALE };
    let u = v.unit();
    assert_eq!(u, Vec2 { x: 600, y: -800 });
}

#[test]
fn unit_of_a_short_vector_keeps_its_length() {
    let u = Vec2 { x: 1, y: 1 }.unit();
    assert_eq!(u, Vec2 { x: 707, y: 707 });
    assert_eq!(Vec2 { x: 0, y: -2 }.unit(), Vec2 { x: 0, y: -SCALE });
}

#[test]
fn plus_minus_neg() {
    let a = Vec2 { x: 5, y: -7 };
    let b = Vec2 { x: 2, y: 3 };
    assert_eq!(a.plus(b), Vec2 { x: 7, y: -4 });
    assert_eq!(a.minus(b), Vec2 { x: 3, y: -10 });
    assert_eq!(a.neg(), Vec2 { x: -5, y: 7 });
    assert_eq!(Vec2::new(), Vec2 { x: 0, y: 0 });
}

#[test]
fn plus_saturates_at_the_bound() {
    let a = Vec2 { x: BOUND, y: -BOUND };
    let r = a.plus(Vec2 { x: 1, y: -1 });
    assert_eq!(r, Vec2 { x: BOUND, y: -BOUND });
    assert_eq!(Vec2::at(i64::MAX, i64::MIN), Vec2 { x: BOUND, y: -BOUND });
    assert_eq!(clamp_i128(-5), -5);
}

#[test]
fn update_copies() {
    let mut a = Vec2 { x: 1, y: 2 };
    a.update(&Vec2 { x: 9, y: -9 });
    assert_eq!(a, Vec2 { x: 9, y: -9 });
}

#[test]
fn division_rounds_toward_zero() {
    assert_eq!(div_toward_zero(7, 2), 3);
    assert_eq!(div_toward_zero(-7, 2), -3);
    assert_eq!(square(-3, 4), 25);
}
