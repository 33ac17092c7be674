use keyspring::forces::{repulse_force, spring_force};
use keyspring::layout::{spawn_from, Layout, SPAWN_RANGE};
use keyspring::vec2::{Vec2, SCALE};
use keyspring::KeyPress;

fn presses(list: &[(&str, u32)]) -> Vec<KeyPress> {
    list.iter().map(|(k, t)| KeyPress::new(k.to_string(), *t)).collect()
}

fn names(layout: &Layout) -> Vec<String> {
    layout.bodies().iter().map(|b| b.name.clone()).collect()
}

fn at(x: i64, y: i64) -> Vec2 {
    Vec2 { x: x * SCALE, y: y * SCALE }
}

#[test]
fn new_layout_is_empty() {
    assert!(Layout::new().bodies().is_empty());
}

#[test]
fn duplicate_keys_register_once() {
    let mut layout = Layout::new();
    let keys = presses(&[("a", 0), ("b", 10), ("a", 20), ("a", 30)]);
    layout.update(&keys);
    assert_eq!(names(&layout), vec!["a".to_string(), "b".to_string()]);
    layout.update(&keys);
    assert_eq!(layout.bodies().len(), 2);
}

#[test]
fn try_insert_places_fresh_body_once() {
    let mut layout = Layout::new();
    assert_eq!(layout.try_insert("k".to_string()), Some(0));
    assert_eq!(layout.try_insert("k".to_string()), None);
    let b = &layout.bodies()[0];
    assert!(0 <= b.position.x && b.position.x < SPAWN_RANGE as i64);
    assert!(0 <= b.position.y && b.position.y < SPAWN_RANGE as i64);
    assert_eq!(b.speed, Vec2::new());
    assert_eq!(layout.index_of(&"k".to_string()), Some(0));
    assert_eq!(layout.index_of(&"q".to_string()), None);
}

#[test]
fn try_insert_at_keeps_position() {
    let mut layout = Layout::new();
    assert_eq!(layout.try_insert_at("a".to_string(), at(1, 2)), Some(0));
    assert_eq!(layout.try_insert_at("b".to_string(), at(3, 4)), Some(1));
    assert_eq!(layout.try_insert_at("a".to_string(), at(9, 9)), None);
    assert_eq!(layout.bodies()[0].position, at(1, 2));
    assert_eq!(spawn_from(50_001, 3), Vec2 { x: 1, y: 3 });
}

#[test]
fn body_at_rest_without_force_stays_put() {
    let mut layout = Layout::new();
    layout.try_insert_at("solo".to_string(), at(7, 9));
    for _ in 0..10 {
        layout.update(&presses(&[("solo", 0)]));
        assert_eq!(layout.bodies()[0].position, at(7, 9));
        assert_eq!(layout.bodies()[0].speed, Vec2::new());
    }
}

fn pair_layout() -> Layout {
    let mut layout = Layout::new();
    layout.try_insert_at("a".to_string(), at(0, 0));
    layout.try_insert_at("b".to_string(), at(100, 0));
    layout
}

#[test]
fn close_pair_is_linked_by_a_spring() {
    let mut layout = pair_layout();
    layout.update(&presses(&[("a", 0), ("b", 100_000)]));
    // Repulsion -1e3 and spring +2.5e3, in thousandths.
    assert_eq!(layout.bodies()[0].force, Vec2 { x: 1_500_000, y: 0 });
    assert_eq!(layout.bodies()[1].force, Vec2 { x: -1_500_000, y: 0 });
    // v = (0 + f * 0.01) * 0.9, p = p + v * 0.01.
    assert_eq!(layout.bodies()[0].speed, Vec2 { x: 13_500, y: 0 });
    assert_eq!(layout.bodies()[0].position, Vec2 { x: 135, y: 0 });
}

#[test]
fn distant_pair_is_not_linked() {
    let mut layout = pair_layout();
    layout.update(&presses(&[("a", 0), ("b", 250_000)]));
    assert_eq!(layout.bodies()[0].force, Vec2 { x: -1_000_000, y: 0 });
    assert_eq!(layout.bodies()[1].force, Vec2 { x: 1_000_000, y: 0 });
}

#[test]
fn three_keys_end_to_end() {
    let keys = presses(&[("x", 0), ("y", 50_000), ("z", 5_000_000)]);
    let mut fresh = Layout::new();
    fresh.update(&keys);
    assert_eq!(names(&fresh), vec!["x".to_string(), "y".to_string(), "z".to_string()]);

    let (px, py, pz) = (at(0, 0), at(100, 0), at(0, 100));
    let mut layout = Layout::new();
    layout.try_insert_at("x".to_string(), px);
    layout.try_insert_at("y".to_string(), py);
    layout.try_insert_at("z".to_string(), pz);
    layout.update(&keys);
    let rxy = repulse_force(&px, &py);
    let rxz = repulse_force(&px, &pz);
    let ryz = repulse_force(&py, &pz);
    let sxy = spring_force(&px, &py);
    let fx = Vec2::new().plus(rxy).plus(rxz).plus(sxy);
    let fy = Vec2::new().minus(rxy).plus(ryz).minus(sxy);
    let fz = Vec2::new().minus(rxz).minus(ryz);
    assert_eq!(layout.bodies()[0].force, fx);
    assert_eq!(layout.bodies()[1].force, fy);
    assert_eq!(layout.bodies()[2].force, fz);
    assert_eq!(layout.bodies().len(), 3);
}

#[test]
fn same_start_same_trajectory() {
    let keys = presses(&[("p", 0), ("q", 1_000), ("r", 150_000), ("p", 900_000)]);
    let build = || {
        let mut l = Layout::new();
        l.try_insert_at("p".to_string(), at(3, 1));
        l.try_insert_at("q".to_string(), at(40, 7));
        l.try_insert_at("r".to_string(), at(12, 30));
        l
    };
    let mut l1 = build();
    let mut l2 = build();
    for _ in 0..25 {
        l1.update(&keys);
        l2.update(&keys);
        for (b1, b2) in l1.bodies().iter().zip(l2.bodies().iter()) {
            assert_eq!(b1.position, b2.position);
            assert_eq!(b1.speed, b2.speed);
        }
    }
}

#[test]
fn step_on_registered_bodies() {
    let mut layout = pair_layout();
    layout.step(&presses(&[("b", 0), ("a", 10)]));
    assert_eq!(layout.bodies()[0].force, Vec2 { x: 1_500_000, y: 0 });
}

#[test]
fn out_of_order_presses_are_not_linked() {
    let mut layout = pair_layout();
    layout.update(&presses(&[("a", 100_000), ("b", 50_000)]));
    assert_eq!(layout.bodies()[0].force, Vec2 { x: -1_000_000, y: 0 });
}

#[test]
fn repeated_key_gets_no_spring_to_itself() {
    let mut layout = pair_layout();
    layout.update(&presses(&[("a", 0), ("a", 10), ("b", 500_000)]));
    assert_eq!(layout.bodies()[0].force, Vec2 { x: -1_000_000, y: 0 });
}

#[test]
fn coincident_bodies_are_pushed_by_a_bounded_jitter() {
    let mut layout = Layout::new();
    layout.try_insert_at("a".to_string(), at(5, 5));
    layout.try_insert_at("b".to_string(), at(5, 5));
    layout.try_insert_at("c".to_string(), at(60, 5));
    layout.update(&presses(&[("a", 0), ("c", 10)]));
    let fa = layout.bodies()[0].force;
    let fb = layout.bodies()[1].force;
    let fc = layout.bodies()[2].force;
    // Whatever was drawn, the pair's share cancels: the three forces sum to zero.
    assert_eq!(fa.plus(fb).plus(fc), Vec2::new());
    // a differs from b by twice the jitter (each below 10 units) plus the spring to c.
    assert!(fa.x - fb.x >= 25_000 && fa.x - fb.x < 25_000 + 20_000);
    assert!(fa.y - fb.y >= 0 && fa.y - fb.y < 20_000);
}

#[test]
fn single_unregistered_press_needs_no_lookup() {
    let mut layout = pair_layout();
    layout.step(&presses(&[("zz", 0)]));
    assert_eq!(layout.bodies()[0].force, Vec2 { x: -1_000_000, y: 0 });
}
