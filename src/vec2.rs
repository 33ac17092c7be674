use vstd::prelude::*;

verus! {

/// Fixed-point units in one unit of length: coordinates are thousandths.
pub const SCALE: i64 = 1_000;

/// Largest magnitude a vector component may take.
pub const BOUND: i64 = 1_000_000_000_000;

/// Upper bound on the squared length of a difference of two bounded vectors.
pub const MAX_SQUARE: u128 = 8_000_000_000_000_000_000_000_000;

/// A strict upper bound on the square root of `MAX_SQUARE`.
pub const ROOT_LIMIT: u128 = 3_000_000_000_000;

/// Largest argument of `isqrt`: `MAX_SQUARE * SCALE^2`.
pub const MAX_FINE_SQUARE: u128 = 8_000_000_000_000_000_000_000_000_000_000;

/// A strict upper bound on the square root of `MAX_FINE_SQUARE`.
pub const FINE_ROOT_LIMIT: u128 = 3_000_000_000_000_000;

pub open spec fn in_bound(v: int) -> bool {
    -BOUND <= v <= BOUND
}

/// Saturates `v` into `[-BOUND, BOUND]`.
pub open spec fn clamp(v: int) -> int {
    if v > BOUND {
        BOUND as int
    } else if v < -BOUND {
        -BOUND
    } else {
        v
    }
}

/// `n / d` rounded toward zero.
pub open spec fn tdiv(n: int, d: int) -> int
    recommends
        d > 0,
{
    if n >= 0 {
        n / d
    } else {
        -((-n) / d)
    }
}

/// `r` is the integer square root of `n`.
pub open spec fn is_root(n: int, r: int) -> bool {
    0 <= r && r * r <= n && n < (r + 1) * (r + 1)
}

pub open spec fn root(n: int) -> int {
    choose|r: int| is_root(n, r)
}

pub proof fn lemma_root_unique(n: int, r1: int, r2: int)
    requires
        is_root(n, r1),
        is_root(n, r2),
    ensures
        r1 == r2,
{
    if r1 < r2 {
        assert((r1 + 1) * (r1 + 1) <= r2 * r2) by (nonlinear_arith)
            requires
                0 <= r1,
                r1 + 1 <= r2,
        ;
    } else if r2 < r1 {
        assert((r2 + 1) * (r2 + 1) <= r1 * r1) by (nonlinear_arith)
            requires
                0 <= r2,
                r2 + 1 <= r1,
        ;
    }
}

/// Every non-negative integer has an integer square root.
pub proof fn lemma_root_exists(n: int)
    requires
        n >= 0,
    ensures
        is_root(n, root(n)),
    decreases n,
{
    if n == 0 {
        assert(is_root(0, 0));
    } else {
        lemma_root_exists(n - 1);
        let r = root(n - 1);
        if (r + 1) * (r + 1) <= n {
            assert(n < (r + 2) * (r + 2)) by (nonlinear_arith)
                requires
                    n - 1 < (r + 1) * (r + 1),
                    r >= 0,
            ;
            assert(is_root(n, r + 1));
        } else {
            assert(is_root(n, r));
        }
    }
}

pub proof fn lemma_root_is(n: int, r: int)
    requires
        is_root(n, r),
    ensures
        root(n) == r,
{
    lemma_root_unique(n, root(n), r);
}

/// Integer square root, by bisection.
pub fn isqrt(n: u128) -> (r: u128)
    requires
        n <= MAX_FINE_SQUARE,
    ensures
        r == root(n as int),
        is_root(n as int, r as int),
        r < FINE_ROOT_LIMIT,
        n <= MAX_SQUARE ==> r < ROOT_LIMIT,
{
    let mut lo: u128 = 0;
    let mut hi: u128 = FINE_ROOT_LIMIT;
    assert(n < hi * hi);
    while hi - lo > 1
        invariant
            lo < hi <= FINE_ROOT_LIMIT,
            lo * lo <= n,
            n < hi * hi,
        decreases hi - lo,
    {
        let mid: u128 = lo + (hi - lo) / 2;
        assert(mid * mid <= FINE_ROOT_LIMIT * FINE_ROOT_LIMIT) by (nonlinear_arith)
            requires
                mid < FINE_ROOT_LIMIT,
        ;
        if mid * mid <= n {
            lo = mid;
        } else {
            hi = mid;
        }
    }
    proof {
        lemma_root_is(n as int, lo as int);
        if n <= MAX_SQUARE && lo >= ROOT_LIMIT {
            assert(lo * lo >= ROOT_LIMIT * ROOT_LIMIT) by (nonlinear_arith)
                requires
                    lo >= ROOT_LIMIT,
            ;
        }
    }
    lo
}

/// A 2D vector in fixed-point units.
#[derive(Debug, Clone, Copy, PartialEq, Eq, Structural)]
pub struct Vec2 {
    pub x: i64,
    pub y: i64,
}

/// Componentwise sum, saturated.
pub open spec fn plus_spec(a: Vec2, b: Vec2) -> Vec2 {
    Vec2 { x: clamp(a.x + b.x) as i64, y: clamp(a.y + b.y) as i64 }
}

/// Componentwise difference, saturated.
pub open spec fn minus_spec(a: Vec2, b: Vec2) -> Vec2 {
    Vec2 { x: clamp(a.x - b.x) as i64, y: clamp(a.y - b.y) as i64 }
}

pub open spec fn zero() -> Vec2 {
    Vec2 { x: 0, y: 0 }
}

impl Vec2 {
    pub open spec fn wf(self) -> bool {
        in_bound(self.x as int) && in_bound(self.y as int)
    }

    pub open spec fn square_spec(self) -> int {
        self.x * self.x + self.y * self.y
    }

    /// The zero vector.
    pub fn new() -> (r: Vec2)
        ensures
            r == zero(),
            r.wf(),
    {
        Vec2 { x: 0, y: 0 }
    }

    /// The vector `(x, y)`, each component saturated into the bound.
    pub fn at(x: i64, y: i64) -> (r: Vec2)
        ensures
            r.x == clamp(x as int),
            r.y == clamp(y as int),
            r.wf(),
    {
        Vec2 { x: clamp_i128(x as i128), y: clamp_i128(y as i128) }
    }

    /// Length, rounded down.
    pub fn size(&self) -> (r: u64)
        requires
            self.wf(),
        ensures
            r == root(self.square_spec()),
            is_root(self.square_spec(), r as int),
    {
        let sq: u128 = square(self.x as i128, self.y as i128);
        isqrt(sq) as u64
    }

    /// The vector scaled to length `SCALE` (one unit): each component times
    /// `SCALE^2`, over the length measured at `SCALE` times the resolution, so
    /// that short vectors keep their direction; rounded toward zero.
    pub fn unit(&self) -> (r: Vec2)
        requires
            self.wf(),
            self.x != 0 || self.y != 0,
        ensures
            r.x == tdiv(self.x * SCALE * SCALE, root(self.square_spec() * SCALE * SCALE)),
            r.y == tdiv(self.y * SCALE * SCALE, root(self.square_spec() * SCALE * SCALE)),
    {
        let sq: u128 = square(self.x as i128, self.y as i128);
        proof {
            assert(sq * SCALE * SCALE <= MAX_FINE_SQUARE) by (nonlinear_arith)
                requires
                    sq <= MAX_SQUARE,
            ;
            assert(sq >= 1) by (nonlinear_arith)
                requires
                    sq == self.x * self.x + self.y * self.y,
                    self.x != 0 || self.y != 0,
            ;
        }
        let fine = sq * (SCALE as u128) * (SCALE as u128);
        let len = isqrt(fine);
        proof {
            assert(len >= 1) by (nonlinear_arith)
                requires
                    fine >= 1,
                    fine < (len + 1) * (len + 1),
                    len >= 0,
            ;
            assert(fine == self.square_spec() * SCALE * SCALE);
        }
        let sx: i128 = self.x as i128 * SCALE as i128 * SCALE as i128;
        let sy: i128 = self.y as i128 * SCALE as i128 * SCALE as i128;
        let ux = div_toward_zero(sx, len);
        let uy = div_toward_zero(sy, len);
        proof {
            assert(-1_000_000_000_000_000_000 <= ux <= 1_000_000_000_000_000_000) by (nonlinear_arith)
                requires
                    ux == tdiv(sx as int, len as int),
                    len >= 1,
                    -1_000_000_000_000_000_000 <= sx <= 1_000_000_000_000_000_000,
            ;
            assert(-1_000_000_000_000_000_000 <= uy <= 1_000_000_000_000_000_000) by (nonlinear_arith)
                requires
                    uy == tdiv(sy as int, len as int),
                    len >= 1,
                    -1_000_000_000_000_000_000 <= sy <= 1_000_000_000_000_000_000,
            ;
        }
        Vec2 { x: ux as i64, y: uy as i64 }
    }

    /// Componentwise sum, saturated.
    pub fn plus(self, o: Vec2) -> (r: Vec2)
        ensures
            r == plus_spec(self, o),
            r.wf(),
    {
        Vec2 {
            x: clamp_i128(self.x as i128 + o.x as i128),
            y: clamp_i128(self.y as i128 + o.y as i128),
        }
    }

    /// Componentwise difference, saturated.
    pub fn minus(self, o: Vec2) -> (r: Vec2)
        ensures
            r == minus_spec(self, o),
            r.wf(),
    {
        Vec2 {
            x: clamp_i128(self.x as i128 - o.x as i128),
            y: clamp_i128(self.y as i128 - o.y as i128),
        }
    }

    /// The opposite vector.
    pub fn neg(self) -> (r: Vec2)
        requires
            self.wf(),
        ensures
            r.x == -self.x,
            r.y == -self.y,
            r.wf(),
    {
        Vec2 { x: -self.x, y: -self.y }
    }

    /// Overwrites this vector with `from`.
    pub fn update(&mut self, from: &Vec2)
        ensures
            *final(self) == *from,
    {
        self.x = from.x;
        self.y = from.y;
    }
}

/// Saturates `v` into the component bound.
pub fn clamp_i128(v: i128) -> (r: i64)
    ensures
        r == clamp(v as int),
{
    if v > BOUND as i128 {
        BOUND
    } else if v < -(BOUND as i128) {
        -BOUND
    } else {
        v as i64
    }
}

/// `n / d` rounded toward zero.
pub fn div_toward_zero(n: i128, d: u128) -> (r: i128)
    requires
        d > 0,
        n > i128::MIN,
    ensures
        r == tdiv(n as int, d as int),
{
    if n >= 0 {
        ((n as u128) / d) as i128
    } else {
        -(((-n) as u128 / d) as i128)
    }
}

/// `x^2 + y^2` for components of a difference of two bounded vectors.
pub fn square(x: i128, y: i128) -> (r: u128)
    requires
        -2 * BOUND <= x <= 2 * BOUND,
        -2 * BOUND <= y <= 2 * BOUND,
    ensures
        r == x * x + y * y,
        r <= MAX_SQUARE,
{
    assert(0 <= x * x <= 4_000_000_000_000_000_000_000_000) by (nonlinear_arith)
        requires
            -2_000_000_000_000 <= x <= 2_000_000_000_000,
    ;
    assert(0 <= y * y <= 4_000_000_000_000_000_000_000_000) by (nonlinear_arith)
        requires
            -2_000_000_000_000 <= y <= 2_000_000_000_000,
    ;
    (x * x) as u128 + (y * y) as u128
}

} // verus!
