use keyspring::forces::{jitter_from, repulse_force, spring_force, JITTER_RANGE};
use keyspring::vec2::{Vec2, SCALE};

#[test]
fn repulsion_is_inverse_square_and_antisymmetric() {
    let a = Vec2 { x: 0, y: 0 };
    let b = Vec2 { x: 3 * SCALE, y: 4 * SCALE };
    let fa = repulse_force(&a, &b);
    let fb = repulse_force(&b, &a);
    // 1e7 / 25 = 4e5 along (-0.6, -0.8), in thousandths.
    assert_eq!(fa, Vec2 { x: -240_000_000, y: -320_000_000 });
    assert_eq!(fb, fa.neg());
}

#[test]
fn repulsion_antisymmetric_off_axis() {
    let a = Vec2 { x: 1_234_567, y: -7_654_321 };
    let b = Vec2 { x: -42_000_000, y: 13_000_017 };
    assert_eq!(repulse_force(&a, &b), repulse_force(&b, &a).neg());
    assert_eq!(spring_force(&a, &b), spring_force(&b, &a).neg());
}

#[test]
fn coincident_bodies_get_a_bounded_jitter() {
    let a = Vec2 { x: 5, y: 5 };
    for _ in 0..20 {
        let f = repulse_force(&a, &a);
        assert!(0 <= f.x && f.x < JITTER_RANGE as i64);
        assert!(0 <= f.y && f.y < JITTER_RANGE as i64);
        let g = spring_force(&a, &a);
        assert!(0 <= g.x && g.x < JITTER_RANGE as i64);
        assert!(0 <= g.y && g.y < JITTER_RANGE as i64);
    }
}

#[test]
fn jitter_from_takes_remainders() {
    assert_eq!(jitter_from(25_003, 7), Vec2 { x: 5_003, y: 7 });
}

#[test]
fn spring_is_zero_at_rest_length() {
    let a = Vec2 { x: 0, y: 0 };
    let b = Vec2 { x: 50 * SCALE, y: 0 };
    assert_eq!(spring_force(&a, &b), Vec2 { x: 0, y: 0 });
    let c = Vec2 { x: 30 * SCALE, y: 40 * SCALE };
    assert_eq!(spring_force(&a, &c), Vec2 { x: 0, y: 0 });
}

#[test]
fn stretched_spring_pulls_together() {
    let a = Vec2 { x: 0, y: 0 };
    let b = Vec2 { x: 100 * SCALE, y: 0 };
    // (100 - 50)^2 = 2500 toward b.
    assert_eq!(spring_force(&a, &b), Vec2 { x: 2_500_000, y: 0 });
    assert_eq!(spring_force(&b, &a), Vec2 { x: -2_500_000, y: 0 });
}

#[test]
fn compressed_spring_pushes_apart() {
    let a = Vec2 { x: 0, y: 0 };
    let b = Vec2 { x: 25 * SCALE, y: 0 };
    // (25 - 50)^2 = 625 away from b.
    assert_eq!(spring_force(&a, &b), Vec2 { x: -625_000, y: 0 });
}

#[test]
fn spring_is_nonzero_just_off_rest_length() {
    let a = Vec2 { x: 0, y: 0 };
    assert_eq!(spring_force(&a, &Vec2 { x: 50 * SCALE + 1, y: 0 }), Vec2 { x: 1, y: 0 });
    assert_eq!(spring_force(&a, &Vec2 { x: 50 * SCALE - 1, y: 0 }), Vec2 { x: -1, y: 0 });
    let far = repulse_force(&a, &Vec2 { x: 900_000_000, y: 900_000_000 });
    assert_eq!(far, Vec2 { x: -1, y: -1 });
}

#[test]
fn spring_grows_with_displacement() {
    let a = Vec2 { x: 0, y: 0 };
    let mut last = 0;
    for d in [51, 60, 80, 120, 200] {
        let f = spring_force(&a, &Vec2 { x: d * SCALE, y: 0 });
        assert!(f.x > last);
        last = f.x;
    }
    let mut last = 0;
    for d in [49, 40, 20, 5, 1] {
        let f = spring_force(&a, &Vec2 { x: d * SCALE, y: 0 });
        assert!(f.x < last);
        last = f.x;
    }
}
