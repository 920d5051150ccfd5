//! Integer vector algebra on the plane and on the torus that a rectangle
//! with identified edges forms.

use vstd::prelude::*;

verus! {

/// Largest magnitude of a coordinate or of a bound: every square and sum of
/// squares that the algebra forms then fits a machine integer.
pub const COORD_LIMIT: i64 = 1073741824;

/// A point or a displacement, in integer length units.
#[derive(Clone, Copy, Debug, PartialEq, Eq, Structural)]
pub struct Vec2 {
    pub x: i64,
    pub y: i64,
}

pub open spec fn abs(v: int) -> int {
    if v < 0 {
        -v
    } else {
        v
    }
}

pub open spec fn in_limits(c: int) -> bool {
    -COORD_LIMIT <= c <= COORD_LIMIT
}

/// A rectangle `[0, b.x) x [0, b.y)` that the algebra can work in.
pub open spec fn valid_bounds(b: Vec2) -> bool {
    0 < b.x <= COORD_LIMIT && 0 < b.y <= COORD_LIMIT
}

/// The point lies inside the rectangle `[0, b.x) x [0, b.y)`.
pub open spec fn in_rect(p: Vec2, b: Vec2) -> bool {
    0 <= p.x < b.x && 0 <= p.y < b.y
}

/// One coordinate reduced by its period `b` once, upward or downward.
pub open spec fn wrap_coord(c: int, b: int) -> int {
    if c >= b {
        c - b
    } else if c < 0 {
        c + b
    } else {
        c
    }
}

/// Of the differences `d`, `d - b`, `d + b`, the one of least absolute value;
/// a tie goes to the one listed first.
pub open spec fn wrapped_delta(d: int, b: int) -> int {
    if abs(d) <= abs(d - b) && abs(d) <= abs(d + b) {
        d
    } else if abs(d - b) <= abs(d + b) {
        d - b
    } else {
        d + b
    }
}

/// `r` is the integer square root of `n`, rounded down.
pub open spec fn is_isqrt(r: int, n: int) -> bool {
    0 <= r && r * r <= n < (r + 1) * (r + 1)
}

/// The integer square root of `n`, rounded down.
pub open spec fn isqrt(n: int) -> int
    decreases n,
{
    if n <= 0 {
        0
    } else {
        let r = isqrt(n - 1);
        if (r + 1) * (r + 1) <= n {
            r + 1
        } else {
            r
        }
    }
}

/// `c * len / m`, rounded toward zero.
pub open spec fn scale_component(c: int, len: int, m: int) -> int {
    if c >= 0 {
        (c * len) / m
    } else {
        -(((-c) * len) / m)
    }
}

impl Vec2 {
    pub open spec fn within_limits(self) -> bool {
        in_limits(self.x as int) && in_limits(self.y as int)
    }

    /// The squared Euclidean length.
    pub open spec fn norm_sq(self) -> int {
        self.x * self.x + self.y * self.y
    }

    /// The point with each coordinate reduced once into its period.
    pub open spec fn wrap_spec(self, b: Vec2) -> Vec2 {
        Vec2 {
            x: wrap_coord(self.x as int, b.x as int) as i64,
            y: wrap_coord(self.y as int, b.y as int) as i64,
        }
    }

    /// The vector pointing as `self` does, with length `len` up to rounding.
    pub open spec fn normalised_spec(self, len: int) -> Vec2 {
        Vec2 {
            x: scale_component(self.x as int, len, isqrt(self.norm_sq())) as i64,
            y: scale_component(self.y as int, len, isqrt(self.norm_sq())) as i64,
        }
    }

    pub fn add(self, other: Vec2) -> (r: Vec2)
        requires
            i64::MIN <= self.x + other.x <= i64::MAX,
            i64::MIN <= self.y + other.y <= i64::MAX,
        ensures
            r.x == self.x + other.x,
            r.y == self.y + other.y,
    {
        Vec2 { x: self.x + other.x, y: self.y + other.y }
    }

    pub fn sub(self, other: Vec2) -> (r: Vec2)
        requires
            i64::MIN <= self.x - other.x <= i64::MAX,
            i64::MIN <= self.y - other.y <= i64::MAX,
        ensures
            r.x == self.x - other.x,
            r.y == self.y - other.y,
    {
        Vec2 { x: self.x - other.x, y: self.y - other.y }
    }

    pub fn scale(self, s: i64) -> (r: Vec2)
        requires
            i64::MIN <= self.x * s <= i64::MAX,
            i64::MIN <= self.y * s <= i64::MAX,
        ensures
            r.x == self.x * s,
            r.y == self.y * s,
    {
        Vec2 { x: self.x * s, y: self.y * s }
    }

    /// The squared Euclidean length, exactly.
    pub fn magnitude_squared(&self) -> (r: i64)
        requires
            self.within_limits(),
        ensures
            r == self.norm_sq(),
    {
        proof {
            lemma_square_bound(self.x as int);
            lemma_square_bound(self.y as int);
        }
        self.x * self.x + self.y * self.y
    }

    /// The Euclidean length, rounded down.
    pub fn magnitude(&self) -> (r: i64)
        requires
            self.within_limits(),
        ensures
            r == isqrt(self.norm_sq()),
            is_isqrt(r as int, self.norm_sq()),
    {
        let n = self.magnitude_squared();
        proof {
            lemma_square_bound(self.x as int);
            lemma_square_bound(self.y as int);
        }
        let mut lo: i64 = 0;
        let mut hi: i64 = 2147483648;
        assert(hi * hi > n) by (nonlinear_arith)
            requires
                hi == 2147483648,
                n <= 2 * COORD_LIMIT * COORD_LIMIT,
        ;
        while hi - lo > 1
            invariant
                0 <= lo < hi <= 2147483648,
                lo * lo <= n < hi * hi,
            decreases hi - lo,
        {
            let mid: i64 = lo + (hi - lo) / 2;
            assert(mid * mid <= 2147483648 * 2147483648) by (nonlinear_arith)
                requires
                    0 <= mid <= 2147483648,
            ;
            if mid * mid <= n {
                lo = mid;
            } else {
                hi = mid;
            }
        }
        proof {
            lemma_isqrt(n as int);
            lemma_isqrt_unique(lo as int, isqrt(n as int), n as int);
        }
        lo
    }

    /// The vector pointing as `self` does, scaled to length `length`; each
    /// component is rounded toward zero, so none exceeds `length` in size.
    pub fn normalised(&self, length: i64) -> (r: Vec2)
        requires
            self.within_limits(),
            self.norm_sq() > 0,
            0 <= length <= COORD_LIMIT,
        ensures
            r == self.normalised_spec(length as int),
            abs(r.x as int) <= length,
            abs(r.y as int) <= length,
    {
        let m = self.magnitude();
        proof {
            lemma_isqrt_positive(self.norm_sq());
            lemma_component_le_isqrt(self.x as int, self.y as int);
            lemma_component_le_isqrt(self.y as int, self.x as int);
        }
        let x = scale_toward_zero(self.x, length, m);
        let y = scale_toward_zero(self.y, length, m);
        Vec2 { x, y }
    }

    /// Each coordinate reduced once into `[0, bounds)`: a coordinate at or past
    /// its bound loses one bound, a negative one gains one.
    pub fn wrap(&self, bounds: Vec2) -> (r: Vec2)
        requires
            bounds.x > 0,
            bounds.y > 0,
        ensures
            r == self.wrap_spec(bounds),
            r.x == wrap_coord(self.x as int, bounds.x as int),
            r.y == wrap_coord(self.y as int, bounds.y as int),
    {
        let x: i64 = if self.x >= bounds.x {
            self.x - bounds.x
        } else if self.x < 0 {
            self.x + bounds.x
        } else {
            self.x
        };
        let y: i64 = if self.y >= bounds.y {
            self.y - bounds.y
        } else if self.y < 0 {
            self.y + bounds.y
        } else {
            self.y
        };
        Vec2 { x, y }
    }
}

/// `c * len / m` rounded toward zero, for `|c| <= m`.
fn scale_toward_zero(c: i64, len: i64, m: i64) -> (r: i64)
    requires
        in_limits(c as int),
        0 <= len <= COORD_LIMIT,
        m > 0,
        abs(c as int) <= m,
    ensures
        r == scale_component(c as int, len as int, m as int),
        abs(r as int) <= len,
{
    let a: i64 = if c >= 0 {
        c
    } else {
        -c
    };
    assert(0 <= a * len <= COORD_LIMIT * COORD_LIMIT) by (nonlinear_arith)
        requires
            0 <= a <= COORD_LIMIT,
            0 <= len <= COORD_LIMIT,
    ;
    let q: i64 = a * len / m;
    assert(q <= len) by (nonlinear_arith)
        requires
            q == (a as int * len as int) / (m as int),
            0 <= a <= m,
            0 <= len,
            m > 0,
    ;
    if c >= 0 {
        q
    } else {
        -q
    }
}

fn abs_i64(v: i64) -> (r: i64)
    requires
        v > i64::MIN,
    ensures
        r == abs(v as int),
{
    if v < 0 {
        -v
    } else {
        v
    }
}

/// Of `d`, `d - b`, `d + b`, the one of least absolute value, first on a tie.
fn select_wrapped(d: i64, b: i64) -> (r: i64)
    requires
        -2 * COORD_LIMIT <= d <= 2 * COORD_LIMIT,
        0 < b <= COORD_LIMIT,
    ensures
        r == wrapped_delta(d as int, b as int),
{
    let d1 = abs_i64(d);
    let d2 = abs_i64(d - b);
    let d3 = abs_i64(d + b);
    if d1 <= d2 && d1 <= d3 {
        d
    } else if d2 <= d3 {
        d - b
    } else {
        d + b
    }
}

/// The shortest displacement from `b` to `a` on the torus of period
/// `bounds`: on each axis, of the direct difference and the differences across
/// either edge, the one of least size (the first listed on a tie).
pub fn get_shortest_wrapped_path(a: Vec2, b: Vec2, bounds: Vec2) -> (r: Vec2)
    requires
        a.within_limits(),
        b.within_limits(),
        valid_bounds(bounds),
    ensures
        r == shortest_path_spec(a, b, bounds),
        r.x == wrapped_delta(a.x - b.x, bounds.x as int),
        r.y == wrapped_delta(a.y - b.y, bounds.y as int),
{
    let dx = select_wrapped(a.x - b.x, bounds.x);
    let dy = select_wrapped(a.y - b.y, bounds.y);
    Vec2 { x: dx, y: dy }
}

/// The shortest displacement from `b` to `a` on the torus of period `bounds`.
pub open spec fn shortest_path_spec(a: Vec2, b: Vec2, bounds: Vec2) -> Vec2 {
    Vec2 {
        x: wrapped_delta(a.x - b.x, bounds.x as int) as i64,
        y: wrapped_delta(a.y - b.y, bounds.y as int) as i64,
    }
}

/// The squared toroidal distance between `a` and `b`.
pub open spec fn torus_dist_sq(a: Vec2, b: Vec2, bounds: Vec2) -> int {
    let dx = wrapped_delta(a.x - b.x, bounds.x as int);
    let dy = wrapped_delta(a.y - b.y, bounds.y as int);
    dx * dx + dy * dy
}

proof fn lemma_square_bound(v: int)
    requires
        in_limits(v),
    ensures
        0 <= v * v <= COORD_LIMIT * COORD_LIMIT,
{
    assert(0 <= v * v <= COORD_LIMIT * COORD_LIMIT) by (nonlinear_arith)
        requires
            -COORD_LIMIT <= v <= COORD_LIMIT,
    ;
}

proof fn lemma_isqrt(n: int)
    requires
        n >= 0,
    ensures
        is_isqrt(isqrt(n), n),
    decreases n,
{
    if n > 0 {
        lemma_isqrt(n - 1);
        let r = isqrt(n - 1);
        assert(r * r <= n - 1 < (r + 1) * (r + 1));
        if (r + 1) * (r + 1) <= n {
            assert(n < (r + 2) * (r + 2)) by (nonlinear_arith)
                requires
                    n - 1 < (r + 1) * (r + 1),
                    r >= 0,
            ;
        }
    }
}

proof fn lemma_isqrt_unique(r: int, s: int, n: int)
    requires
        is_isqrt(r, n),
        is_isqrt(s, n),
    ensures
        r == s,
{
    if r < s {
        assert((r + 1) * (r + 1) <= s * s) by (nonlinear_arith)
            requires
                0 <= r + 1 <= s,
        ;
    } else if s < r {
        assert((s + 1) * (s + 1) <= r * r) by (nonlinear_arith)
            requires
                0 <= s + 1 <= r,
        ;
    }
}

proof fn lemma_isqrt_positive(n: int)
    requires
        n > 0,
    ensures
        isqrt(n) > 0,
{
    lemma_isqrt(n);
    let r = isqrt(n);
    if r == 0 {
        assert((r + 1) * (r + 1) == 1) by (nonlinear_arith)
            requires
                r == 0,
        ;
    }
}

/// No component of a vector is longer than the rounded-down length.
proof fn lemma_component_le_isqrt(c: int, o: int)
    ensures
        abs(c) <= isqrt(c * c + o * o),
{
    let n = c * c + o * o;
    let a = abs(c);
    assert(a * a == c * c) by (nonlinear_arith)
        requires
            a == c || a == -c,
    ;
    assert(o * o >= 0 && c * c >= 0) by (nonlinear_arith);
    lemma_isqrt(n);
    let m = isqrt(n);
    if abs(c) > m {
        assert((m + 1) * (m + 1) <= a * a) by (nonlinear_arith)
            requires
                0 <= m + 1 <= a,
        ;
    }
}

/// The squared distance from `b` to the copy of `a` moved by `-kx` periods
/// along x and `-ky` periods along y.
pub open spec fn image_dist_sq(a: Vec2, b: Vec2, bounds: Vec2, kx: int, ky: int) -> int {
    let dx = a.x - b.x - kx * bounds.x;
    let dy = a.y - b.y - ky * bounds.y;
    dx * dx + dy * dy
}

proof fn lemma_abs_square(u: int, v: int)
    requires
        abs(u) <= abs(v),
    ensures
        u * u <= v * v,
{
    let au = abs(u);
    let av = abs(v);
    assert(au * au == u * u && av * av == v * v) by (nonlinear_arith)
        requires
            au == u || au == -u,
            av == v || av == -v,
    ;
    assert(au * au <= av * av) by (nonlinear_arith)
        requires
            0 <= au <= av,
    ;
}

proof fn lemma_wrapped_delta_least(d: int, b: int, k: int)
    requires
        b > 0,
        -1 <= k <= 1,
    ensures
        abs(wrapped_delta(d, b)) <= abs(d - k * b),
        wrapped_delta(d, b) * wrapped_delta(d, b) <= (d - k * b) * (d - k * b),
{
    assert(k == -1 || k == 0 || k == 1);
    assert(-1 * b == -b && 0 * b == 0 && 1 * b == b);
    lemma_abs_square(wrapped_delta(d, b), d - k * b);
}

/// On the torus the shortest displacement is never longer than the direct
/// one, nor than one that crosses an edge on either axis or on both; between
/// two points of the rectangle it is at most half the rectangle's diagonal.
pub proof fn lemma_shortest_path_minimal(a: Vec2, b: Vec2, bounds: Vec2)
    requires
        bounds.x > 0,
        bounds.y > 0,
    ensures
        forall|kx: int, ky: int|
            -1 <= kx <= 1 && -1 <= ky <= 1 ==> torus_dist_sq(a, b, bounds) <= #[trigger] image_dist_sq(
                a,
                b,
                bounds,
                kx,
                ky,
            ),
        torus_dist_sq(a, b, bounds) <= (a.x - b.x) * (a.x - b.x) + (a.y - b.y) * (a.y - b.y),
        in_rect(a, bounds) && in_rect(b, bounds) ==> 4 * torus_dist_sq(a, b, bounds) <= bounds.x
            * bounds.x + bounds.y * bounds.y,
{
    let w = bounds.x as int;
    let h = bounds.y as int;
    let dx = a.x - b.x;
    let dy = a.y - b.y;
    assert forall|kx: int, ky: int|
        -1 <= kx <= 1 && -1 <= ky <= 1 implies torus_dist_sq(a, b, bounds)
        <= #[trigger] image_dist_sq(a, b, bounds, kx, ky) by {
        lemma_wrapped_delta_least(dx, w, kx);
        lemma_wrapped_delta_least(dy, h, ky);
    }
    lemma_wrapped_delta_least(dx, w, 0);
    lemma_wrapped_delta_least(dy, h, 0);
    assert(0 * w == 0 && 0 * h == 0);
    if in_rect(a, bounds) && in_rect(b, bounds) {
        lemma_half_period(dx, w);
        lemma_half_period(dy, h);
        let ex = wrapped_delta(dx, w);
        let ey = wrapped_delta(dy, h);
        lemma_abs_square(2 * ex, w);
        lemma_abs_square(2 * ey, h);
        assert(4 * (ex * ex + ey * ey) == (2 * ex) * (2 * ex) + (2 * ey) * (2 * ey)) by (nonlinear_arith);
    }
}

proof fn lemma_half_period(d: int, b: int)
    requires
        b > 0,
        -b < d < b,
    ensures
        2 * abs(wrapped_delta(d, b)) <= b,
{
    if d >= 0 {
        lemma_wrapped_delta_least(d, b, 0);
        lemma_wrapped_delta_least(d, b, 1);
    } else {
        lemma_wrapped_delta_least(d, b, 0);
        lemma_wrapped_delta_least(d, b, -1);
    }
}

/// Wrapping a point that lies less than one period outside the rectangle puts
/// it inside, and wrapping it again changes nothing.
pub proof fn lemma_wrap_idempotent(p: Vec2, bounds: Vec2)
    requires
        bounds.x > 0,
        bounds.y > 0,
        -bounds.x <= p.x < 2 * bounds.x,
        -bounds.y <= p.y < 2 * bounds.y,
    ensures
        in_rect(p.wrap_spec(bounds), bounds),
        p.wrap_spec(bounds).wrap_spec(bounds) == p.wrap_spec(bounds),
{
}

/// Between two points of the rectangle the shortest displacement is at most
/// half a period on each axis, and its squared length is the toroidal distance.
pub proof fn lemma_shortest_path_in_rect(a: Vec2, b: Vec2, bounds: Vec2)
    requires
        valid_bounds(bounds),
        in_rect(a, bounds),
        in_rect(b, bounds),
    ensures
        shortest_path_spec(a, b, bounds).within_limits(),
        2 * abs(shortest_path_spec(a, b, bounds).x as int) <= bounds.x,
        2 * abs(shortest_path_spec(a, b, bounds).y as int) <= bounds.y,
        shortest_path_spec(a, b, bounds).norm_sq() == torus_dist_sq(a, b, bounds),
{
    lemma_half_period(a.x - b.x, bounds.x as int);
    lemma_half_period(a.y - b.y, bounds.y as int);
}

} // verus!
