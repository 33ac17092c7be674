use vstd::prelude::*;

use crate::chance::random_u64;
use crate::vec2::{
    BOUND, MAX_SQUARE, ROOT_LIMIT, SCALE, Vec2, clamp, in_bound, is_root, lemma_root_exists, root, square, zero,
};

verus! {

/// Repulsion constant times `SCALE^3`, so that forces come out in fixed point.
pub const REPULSION: u128 = 10_000_000_000_000_000;

/// Rest length of a spring, in fixed-point units.
pub const REST_LENGTH: i64 = 50_000;

/// Exclusive upper bound of each component of a jitter force.
pub const JITTER_RANGE: u64 = 10_000;

pub open spec fn abs(v: int) -> int {
    if v < 0 {
        -v
    } else {
        v
    }
}

/// `a / b` rounded up, for `a >= 0` and `b > 0`.
pub open spec fn ceil_div(a: int, b: int) -> int {
    (a + b - 1) / b
}

/// The magnitude `m >= 0`, saturated, with a sign.
pub open spec fn signed_clamp(neg: bool, m: int) -> int {
    if neg {
        -clamp(m)
    } else {
        clamp(m)
    }
}

/// Distance between two points, rounded down.
pub open spec fn dist(a: Vec2, b: Vec2) -> int {
    root((a.x - b.x) * (a.x - b.x) + (a.y - b.y) * (a.y - b.y))
}

/// One component of the inverse-square push `REPULSION * d / r^3`, its
/// magnitude rounded up.
pub open spec fn repulse_component(d: int, r: int) -> int {
    signed_clamp(d < 0, ceil_div(REPULSION * abs(d), r * r * r))
}

/// Force on a body at `a` pushed away from a body at `b`.
pub open spec fn repulse_spec(a: Vec2, b: Vec2) -> Vec2 {
    let r = dist(a, b);
    Vec2 {
        x: repulse_component(a.x - b.x, r) as i64,
        y: repulse_component(a.y - b.y, r) as i64,
    }
}

/// Squared displacement of a spring of length `r` from its rest length.
pub open spec fn spring_strength(r: int) -> int {
    (r - REST_LENGTH) * (r - REST_LENGTH)
}

/// One component of `strength(r) * d / r`, pointing along `d` when the spring is
/// stretched and against it when compressed; its magnitude rounded up.
pub open spec fn spring_component(d: int, r: int) -> int {
    signed_clamp((d < 0) == (r >= REST_LENGTH), ceil_div(spring_strength(r) * abs(d), SCALE * r))
}

/// Force on a body at `a` from a spring to a body at `b`.
pub open spec fn spring_spec(a: Vec2, b: Vec2) -> Vec2 {
    let r = dist(a, b);
    Vec2 {
        x: spring_component(b.x - a.x, r) as i64,
        y: spring_component(b.y - a.y, r) as i64,
    }
}

/// A force drawn to break the tie between two coincident bodies.
pub open spec fn is_jitter(f: Vec2) -> bool {
    0 <= f.x < JITTER_RANGE && 0 <= f.y < JITTER_RANGE
}

/// Saturates the magnitude `m` and gives it a sign.
fn signed_clamp_exec(neg: bool, m: u128) -> (r: i64)
    ensures
        r == signed_clamp(neg, m as int),
        in_bound(r as int),
{
    let c: i64 = if m > BOUND as u128 {
        BOUND
    } else {
        m as i64
    };
    if neg {
        -c
    } else {
        c
    }
}

fn abs_exec(d: i128) -> (r: u128)
    requires
        -2 * BOUND <= d <= 2 * BOUND,
    ensures
        r == abs(d as int),
        r <= 2 * BOUND,
{
    if d < 0 {
        (-d) as u128
    } else {
        d as u128
    }
}

fn repulse_component_exec(d: i128, r: u128) -> (c: i64)
    requires
        -2 * BOUND <= d <= 2 * BOUND,
        1 <= r < ROOT_LIMIT,
    ensures
        c == repulse_component(d as int, r as int),
        in_bound(c as int),
{
    let m = abs_exec(d);
    assert(REPULSION * m <= REPULSION * 2_000_000_000_000) by (nonlinear_arith)
        requires
            m <= 2_000_000_000_000,
    ;
    assert(r * r <= ROOT_LIMIT * ROOT_LIMIT) by (nonlinear_arith)
        requires
            1 <= r < ROOT_LIMIT,
    ;
    assert(1 <= r * r * r <= ROOT_LIMIT * ROOT_LIMIT * ROOT_LIMIT) by (nonlinear_arith)
        requires
            1 <= r < ROOT_LIMIT,
    ;
    let den = r * r * r;
    signed_clamp_exec(d < 0, (REPULSION * m + den - 1) / den)
}

fn spring_component_exec(d: i128, r: u128) -> (c: i64)
    requires
        -2 * BOUND <= d <= 2 * BOUND,
        1 <= r < ROOT_LIMIT,
    ensures
        c == spring_component(d as int, r as int),
        in_bound(c as int),
{
    let m = abs_exec(d);
    let off: i128 = r as i128 - REST_LENGTH as i128;
    let off_abs: u128 = if off < 0 {
        (-off) as u128
    } else {
        off as u128
    };
    assert(off_abs * off_abs == spring_strength(r as int)) by (nonlinear_arith)
        requires
            off == r - REST_LENGTH,
            off_abs == abs(off as int),
    ;
    assert(off_abs * off_abs <= ROOT_LIMIT * ROOT_LIMIT) by (nonlinear_arith)
        requires
            off_abs < ROOT_LIMIT,
    ;
    assert(off_abs * off_abs * m <= ROOT_LIMIT * ROOT_LIMIT * 2_000_000_000_000) by (nonlinear_arith)
        requires
            off_abs < ROOT_LIMIT,
            m <= 2_000_000_000_000,
    ;
    assert(1 <= SCALE * r <= SCALE * ROOT_LIMIT) by (nonlinear_arith)
        requires
            1 <= r < ROOT_LIMIT,
    ;
    let den = SCALE as u128 * r;
    signed_clamp_exec((d < 0) == (r >= REST_LENGTH as u128), (off_abs * off_abs * m + den - 1) / den)
}

/// Distance between two bounded points and its root facts.
fn distance(a: &Vec2, b: &Vec2) -> (r: u128)
    requires
        a.wf(),
        b.wf(),
    ensures
        r == dist(*a, *b),
        r < ROOT_LIMIT,
        *a != *b ==> r >= 1,
{
    let dx: i128 = a.x as i128 - b.x as i128;
    let dy: i128 = a.y as i128 - b.y as i128;
    let n = square(dx, dy);
    let r = crate::vec2::isqrt(n);
    proof {
        if *a != *b {
            assert(n >= 1) by (nonlinear_arith)
                requires
                    n == dx * dx + dy * dy,
                    dx != 0 || dy != 0,
            ;
            assert(r >= 1) by (nonlinear_arith)
                requires
                    n >= 1,
                    n < (r + 1) * (r + 1),
                    r >= 0,
            ;
        }
    }
    r
}

/// The jitter force made of two raw draws.
pub fn jitter_from(u: u64, v: u64) -> (f: Vec2)
    ensures
        f.x == u % JITTER_RANGE,
        f.y == v % JITTER_RANGE,
        is_jitter(f),
        f.wf(),
{
    Vec2 { x: (u % JITTER_RANGE) as i64, y: (v % JITTER_RANGE) as i64 }
}

/// A freshly drawn jitter force.
fn jitter() -> (f: Vec2)
    ensures
        is_jitter(f),
        f.wf(),
{
    jitter_from(random_u64(), random_u64())
}

/// Force on the body at `a` from the body at `b`: inverse-square repulsion,
/// or a random jitter when the two coincide.
pub fn repulse_force(a: &Vec2, b: &Vec2) -> (f: Vec2)
    requires
        a.wf(),
        b.wf(),
    ensures
        *a != *b ==> f == repulse_spec(*a, *b),
        *a == *b ==> is_jitter(f),
        f.wf(),
{
    if *a == *b {
        jitter()
    } else {
        let r = distance(a, b);
        Vec2 {
            x: repulse_component_exec(a.x as i128 - b.x as i128, r),
            y: repulse_component_exec(a.y as i128 - b.y as i128, r),
        }
    }
}

/// Force on the body at `a` from a spring to the body at `b`, or a random
/// jitter when the two coincide.
pub fn spring_force(a: &Vec2, b: &Vec2) -> (f: Vec2)
    requires
        a.wf(),
        b.wf(),
    ensures
        *a != *b ==> f == spring_spec(*a, *b),
        *a != *b ==> (f == zero() <==> dist(*a, *b) == REST_LENGTH),
        *a != *b && dist(*a, *b) > REST_LENGTH ==> f.x * (b.x - a.x) + f.y * (b.y - a.y) > 0,
        *a != *b && dist(*a, *b) < REST_LENGTH ==> f.x * (b.x - a.x) + f.y * (b.y - a.y) < 0,
        *a == *b ==> is_jitter(f),
        f.wf(),
{
    if *a == *b {
        jitter()
    } else {
        proof {
            lemma_spring_direction(*a, *b);
        }
        let r = distance(a, b);
        Vec2 {
            x: spring_component_exec(b.x as i128 - a.x as i128, r),
            y: spring_component_exec(b.y as i128 - a.y as i128, r),
        }
    }
}

proof fn lemma_dist_symmetric(a: Vec2, b: Vec2)
    ensures
        dist(a, b) == dist(b, a),
{
    assert((a.x - b.x) * (a.x - b.x) == (b.x - a.x) * (b.x - a.x)) by (nonlinear_arith);
    assert((a.y - b.y) * (a.y - b.y) == (b.y - a.y) * (b.y - a.y)) by (nonlinear_arith);
}

/// Two distinct bounded points are at distance at least one.
proof fn lemma_dist_positive(a: Vec2, b: Vec2)
    requires
        a != b,
    ensures
        dist(a, b) >= 1,
{
    let dx = a.x - b.x;
    let dy = a.y - b.y;
    let n = dx * dx + dy * dy;
    assert(n >= 1) by (nonlinear_arith)
        requires
            n == dx * dx + dy * dy,
            dx != 0 || dy != 0,
    ;
    lemma_root_exists(n);
    let r = root(n);
    assert(r >= 1) by (nonlinear_arith)
        requires
            n >= 1,
            n < (r + 1) * (r + 1),
            r >= 0,
    ;
}

/// Repulsion is antisymmetric: for two distinct points the force on the first
/// is exactly the opposite of the force on the second.
pub proof fn lemma_repulse_antisymmetric(a: Vec2, b: Vec2)
    requires
        a != b,
    ensures
        repulse_spec(a, b).x == -repulse_spec(b, a).x,
        repulse_spec(a, b).y == -repulse_spec(b, a).y,
{
    lemma_dist_symmetric(a, b);
    lemma_dist_positive(a, b);
    let r = dist(a, b);
    assert(r * r * r >= 1) by (nonlinear_arith)
        requires
            r >= 1,
    ;
    assert(ceil_div(REPULSION * 0, r * r * r) == 0) by (nonlinear_arith)
        requires
            r * r * r >= 1,
    ;
}

/// The spring is antisymmetric too: the pull on the first body is the
/// opposite of the pull on the second.
pub proof fn lemma_spring_antisymmetric(a: Vec2, b: Vec2)
    requires
        a != b,
    ensures
        spring_spec(a, b).x == -spring_spec(b, a).x,
        spring_spec(a, b).y == -spring_spec(b, a).y,
{
    lemma_dist_symmetric(a, b);
    lemma_dist_positive(a, b);
    let r = dist(a, b);
    assert(SCALE * r >= 1);
    assert(ceil_div(spring_strength(r) * 0, SCALE * r) == 0) by (nonlinear_arith)
        requires
            SCALE * r >= 1,
    ;
}

/// Spring strength vanishes exactly at the rest length and grows strictly with
/// the displacement from it.
pub proof fn lemma_spring_strength(r1: int, r2: int)
    ensures
        spring_strength(r1) == 0 <==> r1 == REST_LENGTH,
        spring_strength(r1) >= 0,
        abs(r1 - REST_LENGTH) < abs(r2 - REST_LENGTH) ==> spring_strength(r1) < spring_strength(
            r2,
        ),
{
    let d1 = r1 - REST_LENGTH;
    let d2 = r2 - REST_LENGTH;
    assert(d1 * d1 == abs(d1) * abs(d1)) by (nonlinear_arith);
    assert(d2 * d2 == abs(d2) * abs(d2)) by (nonlinear_arith);
    assert(d1 * d1 >= 0) by (nonlinear_arith);
    assert(d1 != 0 ==> d1 * d1 > 0) by (nonlinear_arith);
    if abs(d1) < abs(d2) {
        assert(abs(d1) * abs(d1) < abs(d2) * abs(d2)) by (nonlinear_arith)
            requires
                0 <= abs(d1) < abs(d2),
        ;
    }
}

/// A component whose numerator is positive is at least one, saturated or not.
proof fn lemma_component_nonzero(num: int, den: int)
    requires
        num >= 0,
        den >= 1,
    ensures
        0 <= clamp(ceil_div(num, den)),
        num > 0 <==> clamp(ceil_div(num, den)) >= 1,
{
    assert(num > 0 ==> ceil_div(num, den) >= 1) by (nonlinear_arith)
        requires
            num >= 0,
            den >= 1,
    ;
    assert(num == 0 ==> ceil_div(num, den) == 0) by (nonlinear_arith)
        requires
            num >= 0,
            den >= 1,
    ;
    assert(ceil_div(num, den) >= 0) by (nonlinear_arith)
        requires
            num >= 0,
            den >= 1,
    ;
}

/// The spring force on `a` vanishes exactly at the rest length; stretched, it
/// points toward `b` (positive projection on `b - a`), compressed, away from it.
pub proof fn lemma_spring_direction(a: Vec2, b: Vec2)
    requires
        a != b,
    ensures
        spring_spec(a, b) == zero() <==> dist(a, b) == REST_LENGTH,
        dist(a, b) > REST_LENGTH ==> spring_spec(a, b).x * (b.x - a.x) + spring_spec(a, b).y * (
        b.y - a.y) > 0,
        dist(a, b) < REST_LENGTH ==> spring_spec(a, b).x * (b.x - a.x) + spring_spec(a, b).y * (
        b.y - a.y) < 0,
{
    lemma_dist_positive(a, b);
    let r = dist(a, b);
    lemma_spring_strength(r, r);
    let s = spring_strength(r);
    let dx = b.x - a.x;
    let dy = b.y - a.y;
    let den = SCALE * r;
    assert(den >= 1);
    assert(s * abs(dx) >= 0 && s * abs(dy) >= 0) by (nonlinear_arith)
        requires
            s >= 0,
    ;
    assert(s > 0 ==> (s * abs(dx) > 0 <==> dx != 0) && (s * abs(dy) > 0 <==> dy != 0)) by (
    nonlinear_arith)
        requires
            s >= 0,
    ;
    assert(s == 0 ==> s * abs(dx) == 0 && s * abs(dy) == 0) by (nonlinear_arith);
    lemma_component_nonzero(s * abs(dx), den);
    lemma_component_nonzero(s * abs(dy), den);
    let f = spring_spec(a, b);
    let mx = clamp(ceil_div(s * abs(dx), den));
    let my = clamp(ceil_div(s * abs(dy), den));
    assert(f.x == spring_component(dx, r));
    assert(f.y == spring_component(dy, r));
    if r > REST_LENGTH {
        assert(f.x * dx >= 0 && (dx != 0 ==> f.x * dx > 0)) by (nonlinear_arith)
            requires
                f.x == (if dx < 0 { -mx } else { mx }),
                mx >= 0,
                dx != 0 ==> mx >= 1,
        ;
        assert(f.y * dy >= 0 && (dy != 0 ==> f.y * dy > 0)) by (nonlinear_arith)
            requires
                f.y == (if dy < 0 { -my } else { my }),
                my >= 0,
                dy != 0 ==> my >= 1,
        ;
    } else if r < REST_LENGTH {
        assert(f.x * dx <= 0 && (dx != 0 ==> f.x * dx < 0)) by (nonlinear_arith)
            requires
                f.x == (if dx < 0 { mx } else { -mx }),
                mx >= 0,
                dx != 0 ==> mx >= 1,
        ;
        assert(f.y * dy <= 0 && (dy != 0 ==> f.y * dy < 0)) by (nonlinear_arith)
            requires
                f.y == (if dy < 0 { my } else { -my }),
                my >= 0,
                dy != 0 ==> my >= 1,
        ;
    }
}

/// Rounding a quotient up is monotone: a larger denominator never gives more.
proof fn lemma_ceil_div_antitone(a: int, b1: int, b2: int)
    requires
        a >= 0,
        1 <= b1 <= b2,
    ensures
        0 <= ceil_div(a, b2) <= ceil_div(a, b1),
{
    let c1 = ceil_div(a, b1);
    let c2 = ceil_div(a, b2);
    vstd::arithmetic::div_mod::lemma_fundamental_div_mod(a + b1 - 1, b1);
    vstd::arithmetic::div_mod::lemma_fundamental_div_mod(a + b2 - 1, b2);
    vstd::arithmetic::div_mod::lemma_mod_bound(a + b1 - 1, b1);
    vstd::arithmetic::div_mod::lemma_mod_bound(a + b2 - 1, b2);
    // c1 * b1 >= a, so c1 * b2 >= a, while (c2 - 1) * b2 < a.
    assert(c1 * b1 >= a);
    assert(c1 >= 0) by (nonlinear_arith)
        requires
            c1 * b1 >= a,
            a >= 0,
            b1 >= 1,
            c1 * b1 > a - b1,
    ;
    assert(c1 * b2 >= c1 * b1) by (nonlinear_arith)
        requires
            c1 >= 0,
            b2 >= b1,
    ;
    assert(c2 * b2 < a + b2);
    assert(c2 <= c1) by (nonlinear_arith)
        requires
            c2 * b2 < a + b2,
            c1 * b2 >= a,
            b2 >= 1,
    ;
    assert(c2 >= 0) by (nonlinear_arith)
        requires
            c2 * b2 > a - 1,
            a >= 0,
            b2 >= 1,
    ;
}

/// Repulsion weakens with distance: for the same offset along an axis, each
/// component of the push is no larger in magnitude at a larger distance.
pub proof fn lemma_repulse_decreasing(d: int, r1: int, r2: int)
    requires
        1 <= r1 <= r2,
    ensures
        abs(repulse_component(d, r2)) <= abs(repulse_component(d, r1)),
{
    assert(1 <= r1 * r1 * r1 <= r2 * r2 * r2) by (nonlinear_arith)
        requires
            1 <= r1 <= r2,
    ;
    assert(REPULSION * abs(d) >= 0);
    lemma_ceil_div_antitone(REPULSION * abs(d), r1 * r1 * r1, r2 * r2 * r2);
}

} // verus!
