use vstd::prelude::*;

verus! {

/// Largest absolute value of a planar coordinate, in millimetres.
///
/// With both coordinates inside this bound the squared distance between any
/// two points fits in an `i64`.
pub const COORD_LIMIT: i64 = 1_000_000_000;

/// Largest distance between two points in range, in millimetres, rounded up.
pub const MAX_DISTANCE: u64 = 2_828_427_125;

/// Upper end of the search interval of the integer square root: its square
/// exceeds every `i64`.
pub const SQRT_CEILING: u64 = 3_037_000_500;

/// A point of the projected plane, in millimetres.
#[derive(Clone, Copy, Debug, PartialEq, Eq, Hash, Structural)]
pub struct Point {
    pub x: i64,
    pub y: i64,
}

/// Squared Euclidean distance between two points.
pub open spec fn dist2(a: Point, b: Point) -> int {
    (a.x - b.x) * (a.x - b.x) + (a.y - b.y) * (a.y - b.y)
}

/// `r` is the least natural number whose square is at least `n`.
pub open spec fn is_ceil_sqrt(n: nat, r: nat) -> bool {
    r * r >= n && (r == 0 || (r - 1) * (r - 1) < n)
}

/// The least number not below `r` whose square reaches `n`.
pub open spec fn sqrt_up_from(n: nat, r: nat) -> nat
    decreases n - r,
{
    if r >= n || r * r >= n {
        r
    } else {
        sqrt_up_from(n, r + 1)
    }
}

/// Square root of `n`, rounded up.
pub open spec fn ceil_sqrt(n: nat) -> nat {
    sqrt_up_from(n, 0)
}

/// Euclidean distance between two points, rounded up to whole millimetres.
pub open spec fn distance(a: Point, b: Point) -> nat {
    ceil_sqrt(dist2(a, b) as nat)
}

/// Microseconds needed to cover `dist` millimetres at `speed` millimetres per
/// second, rounded up.
pub open spec fn travel_micros(dist: nat, speed: nat) -> nat {
    ((dist * 1_000_000 + speed - 1) / (speed as int)) as nat
}

/// The greater of two numbers has the greater square.
pub proof fn lemma_square_monotone(a: nat, b: nat)
    requires
        a <= b,
    ensures
        a * a <= b * b,
{
    assert(a * a <= b * b) by (nonlinear_arith)
        requires
            a <= b,
    ;
}

/// The search for the root, started below it, ends at it.
proof fn lemma_sqrt_up_from(n: nat, r: nat)
    requires
        r == 0 || (r - 1) * (r - 1) < n,
    ensures
        is_ceil_sqrt(n, sqrt_up_from(n, r)),
    decreases n - r,
{
    if r >= n || r * r >= n {
        if r * r < n {
            assert(r * r >= r) by (nonlinear_arith);
        }
    } else {
        lemma_sqrt_up_from(n, r + 1);
    }
}

/// The rounded-up square root exists and is the only number with its
/// defining property.
pub proof fn lemma_ceil_sqrt(n: nat, r: nat)
    ensures
        is_ceil_sqrt(n, ceil_sqrt(n)),
        is_ceil_sqrt(n, r) ==> r == ceil_sqrt(n),
{
    lemma_sqrt_up_from(n, 0);
    let s = ceil_sqrt(n);
    if is_ceil_sqrt(n, r) && r != s {
        if r < s {
            lemma_square_monotone(r, (s - 1) as nat);
        } else {
            lemma_square_monotone(s, (r - 1) as nat);
        }
    }
}

/// A number whose square reaches `n` is at least the rounded-up root of `n`.
pub proof fn lemma_ceil_sqrt_least(n: nat, r: nat)
    requires
        r * r >= n,
    ensures
        ceil_sqrt(n) <= r,
{
    lemma_ceil_sqrt(n, 0);
    let s = ceil_sqrt(n);
    if s > r {
        lemma_square_monotone(r, (s - 1) as nat);
    }
}

/// The travel time is the least number of microseconds in which the speed
/// covers the distance.
pub proof fn lemma_travel_micros_least(dist: nat, speed: nat, t: nat)
    requires
        speed > 0,
    ensures
        travel_micros(dist, speed) * speed >= dist * 1_000_000,
        t * speed >= dist * 1_000_000 ==> travel_micros(dist, speed) <= t,
{
    let n = dist * 1_000_000;
    let q = travel_micros(dist, speed);
    vstd::arithmetic::div_mod::lemma_fundamental_div_mod(n + speed - 1, speed as int);
    vstd::arithmetic::div_mod::lemma_mod_bound(n + speed - 1, speed as int);
    vstd::arithmetic::div_mod::lemma_div_pos_is_pos(n + speed - 1, speed as int);
    assert(q == (n + speed - 1) / (speed as int));
    assert(speed * q + (n + speed - 1) % (speed as int) == n + speed - 1);
    assert(q * speed == speed * q) by (nonlinear_arith);
    if t * speed >= n && q > t {
        assert(q * speed >= (t + 1) * speed) by (nonlinear_arith)
            requires
                q >= t + 1,
                speed > 0,
        ;
        assert((t + 1) * speed == t * speed + speed) by (nonlinear_arith);
    }
}

/// A longer way takes no less time.
pub proof fn lemma_travel_micros_monotone(d1: nat, d2: nat, speed: nat)
    requires
        d1 <= d2,
        speed > 0,
    ensures
        travel_micros(d1, speed) <= travel_micros(d2, speed),
{
    lemma_travel_micros_least(d2, speed, 0);
    lemma_travel_micros_least(d1, speed, travel_micros(d2, speed));
}

/// A slower walker needs no less time for the same way.
pub proof fn lemma_travel_micros_slower(d: nat, fast: nat, slow: nat)
    requires
        0 < slow <= fast,
    ensures
        travel_micros(d, fast) <= travel_micros(d, slow),
{
    let t = travel_micros(d, slow);
    lemma_travel_micros_least(d, slow, 0);
    assert(t * fast >= t * slow) by (nonlinear_arith)
        requires
            slow <= fast,
            t >= 0,
    ;
    lemma_travel_micros_least(d, fast, t);
}

/// Two ways walked one after the other take no less time than their sum
/// walked at once.
pub proof fn lemma_travel_micros_sum(d1: nat, d2: nat, speed: nat)
    requires
        speed > 0,
    ensures
        travel_micros(d1 + d2, speed) <= travel_micros(d1, speed) + travel_micros(d2, speed),
{
    let t1 = travel_micros(d1, speed);
    let t2 = travel_micros(d2, speed);
    lemma_travel_micros_least(d1, speed, 0);
    lemma_travel_micros_least(d2, speed, 0);
    assert((t1 + t2) * speed == t1 * speed + t2 * speed) by (nonlinear_arith);
    assert((d1 + d2) * 1_000_000 == d1 * 1_000_000 + d2 * 1_000_000);
    lemma_travel_micros_least(d1 + d2, speed, t1 + t2);
}

/// The way from `a` to `c` is no longer than the way over `b`.
pub proof fn lemma_triangle(a: Point, b: Point, c: Point)
    ensures
        distance(a, c) <= distance(a, b) + distance(b, c),
{
    let u1 = b.x - a.x;
    let u2 = b.y - a.y;
    let v1 = c.x - b.x;
    let v2 = c.y - b.y;
    let uu = u1 * u1 + u2 * u2;
    let vv = v1 * v1 + v2 * v2;
    let dot = u1 * v1 + u2 * v2;
    let cross = u1 * v2 - u2 * v1;
    let p = distance(a, b) as int;
    let q = distance(b, c) as int;
    assert(dist2(a, b) == uu) by (nonlinear_arith)
        requires
            u1 == b.x - a.x,
            u2 == b.y - a.y,
            uu == u1 * u1 + u2 * u2,
            dist2(a, b) == (a.x - b.x) * (a.x - b.x) + (a.y - b.y) * (a.y - b.y),
    ;
    assert(dist2(b, c) == vv) by (nonlinear_arith)
        requires
            v1 == c.x - b.x,
            v2 == c.y - b.y,
            vv == v1 * v1 + v2 * v2,
            dist2(b, c) == (b.x - c.x) * (b.x - c.x) + (b.y - c.y) * (b.y - c.y),
    ;
    assert(dist2(a, c) == uu + 2 * dot + vv) by (nonlinear_arith)
        requires
            u1 == b.x - a.x,
            u2 == b.y - a.y,
            v1 == c.x - b.x,
            v2 == c.y - b.y,
            uu == u1 * u1 + u2 * u2,
            vv == v1 * v1 + v2 * v2,
            dot == u1 * v1 + u2 * v2,
            dist2(a, c) == (a.x - c.x) * (a.x - c.x) + (a.y - c.y) * (a.y - c.y),
    ;
    assert(uu >= 0 && vv >= 0) by (nonlinear_arith)
        requires
            uu == u1 * u1 + u2 * u2,
            vv == v1 * v1 + v2 * v2,
    ;
    lemma_ceil_sqrt(uu as nat, 0);
    lemma_ceil_sqrt(vv as nat, 0);
    assert(p * p >= uu && q * q >= vv);
    // Lagrange's identity gives the inequality of Cauchy and Schwarz.
    let m11 = u1 * v1;
    let m22 = u2 * v2;
    let m12 = u1 * v2;
    let m21 = u2 * v1;
    assert(m11 * m11 == (u1 * u1) * (v1 * v1)) by (nonlinear_arith)
        requires
            m11 == u1 * v1,
    ;
    assert(m22 * m22 == (u2 * u2) * (v2 * v2)) by (nonlinear_arith)
        requires
            m22 == u2 * v2,
    ;
    assert(m12 * m12 == (u1 * u1) * (v2 * v2)) by (nonlinear_arith)
        requires
            m12 == u1 * v2,
    ;
    assert(m21 * m21 == (u2 * u2) * (v1 * v1)) by (nonlinear_arith)
        requires
            m21 == u2 * v1,
    ;
    assert(m11 * m22 == m12 * m21) by (nonlinear_arith)
        requires
            m11 == u1 * v1,
            m22 == u2 * v2,
            m12 == u1 * v2,
            m21 == u2 * v1,
    ;
    assert((m11 + m22) * (m11 + m22) == m11 * m11 + 2 * (m11 * m22) + m22 * m22)
        by (nonlinear_arith);
    assert((m12 - m21) * (m12 - m21) == m12 * m12 - 2 * (m12 * m21) + m21 * m21)
        by (nonlinear_arith);
    assert(uu * vv == (u1 * u1) * (v1 * v1) + (u1 * u1) * (v2 * v2) + (u2 * u2) * (v1 * v1) + (u2
        * u2) * (v2 * v2)) by (nonlinear_arith)
        requires
            uu == u1 * u1 + u2 * u2,
            vv == v1 * v1 + v2 * v2,
    ;
    assert(dot * dot + cross * cross == uu * vv);
    assert(cross * cross >= 0) by (nonlinear_arith);
    assert(uu * vv <= (p * p) * (q * q)) by (nonlinear_arith)
        requires
            0 <= uu <= p * p,
            0 <= vv <= q * q,
    ;
    assert((p * p) * (q * q) == (p * q) * (p * q)) by (nonlinear_arith);
    assert(dot <= p * q) by (nonlinear_arith)
        requires
            dot * dot <= (p * q) * (p * q),
            p >= 0,
            q >= 0,
    ;
    assert((p + q) * (p + q) == p * p + 2 * (p * q) + q * q) by (nonlinear_arith);
    assert((p + q) * (p + q) >= dist2(a, c));
    assert(dist2(a, c) >= 0) by (nonlinear_arith)
        requires
            dist2(a, c) == (a.x - c.x) * (a.x - c.x) + (a.y - c.y) * (a.y - c.y),
    ;
    lemma_ceil_sqrt_least(dist2(a, c) as nat, (p + q) as nat);
}

/// Two points in range are at most the diagonal of the range apart.
pub proof fn lemma_dist2_bound(a: Point, b: Point)
    requires
        a.in_range(),
        b.in_range(),
    ensures
        0 <= dist2(a, b) <= 8_000_000_000_000_000_000,
{
    let dx = a.x - b.x;
    let dy = a.y - b.y;
    assert(0 <= dx * dx <= 4_000_000_000_000_000_000) by (nonlinear_arith)
        requires
            -2_000_000_000 <= dx <= 2_000_000_000,
    ;
    assert(0 <= dy * dy <= 4_000_000_000_000_000_000) by (nonlinear_arith)
        requires
            -2_000_000_000 <= dy <= 2_000_000_000,
    ;
}

impl Point {
    /// Both coordinates lie within `COORD_LIMIT` of the projection's origin.
    pub open spec fn in_range(self) -> bool {
        -COORD_LIMIT <= self.x <= COORD_LIMIT && -COORD_LIMIT <= self.y <= COORD_LIMIT
    }

    /// Tells whether the point lies within the supported part of the plane.
    pub fn is_in_range(&self) -> (ok: bool)
        ensures
            ok == self.in_range(),
    {
        -COORD_LIMIT <= self.x && self.x <= COORD_LIMIT && -COORD_LIMIT <= self.y && self.y
            <= COORD_LIMIT
    }

    /// Squared Euclidean distance to `other`.
    pub fn squared_distance(&self, other: &Point) -> (d: i64)
        requires
            self.in_range(),
            other.in_range(),
        ensures
            d == dist2(*self, *other),
            0 <= d <= 8_000_000_000_000_000_000,
    {
        let dx: i64 = self.x - other.x;
        let dy: i64 = self.y - other.y;
        assert(0 <= dx * dx <= 4_000_000_000_000_000_000) by (nonlinear_arith)
            requires
                -2_000_000_000 <= dx <= 2_000_000_000,
        ;
        assert(0 <= dy * dy <= 4_000_000_000_000_000_000) by (nonlinear_arith)
            requires
                -2_000_000_000 <= dy <= 2_000_000_000,
        ;
        dx * dx + dy * dy
    }

    /// Euclidean distance to `other`, rounded up to whole millimetres.
    pub fn distance_to(&self, other: &Point) -> (d: u64)
        requires
            self.in_range(),
            other.in_range(),
        ensures
            d == distance(*self, *other),
            d <= MAX_DISTANCE,
    {
        let d2 = self.squared_distance(other);
        let d = int_sqrt(d2 as u64);
        proof {
            assert(MAX_DISTANCE * MAX_DISTANCE >= 8_000_000_000_000_000_000) by (nonlinear_arith);
            lemma_ceil_sqrt_least(d2 as nat, MAX_DISTANCE as nat);
        }
        d
    }
}

/// Square root of `n`, rounded up.
pub fn int_sqrt(n: u64) -> (r: u64)
    requires
        n <= i64::MAX,
    ensures
        r == ceil_sqrt(n as nat),
        r <= SQRT_CEILING,
{
    let mut lo: u64 = 0;
    let mut hi: u64 = SQRT_CEILING;
    assert(SQRT_CEILING * SQRT_CEILING >= i64::MAX) by (nonlinear_arith);
    while lo < hi
        invariant
            lo <= hi <= SQRT_CEILING,
            hi * hi >= n,
            lo == 0 || (lo - 1) * (lo - 1) < n,
        decreases hi - lo,
    {
        let mid: u64 = lo + (hi - lo) / 2;
        assert(mid * mid <= SQRT_CEILING * SQRT_CEILING) by (nonlinear_arith)
            requires
                mid <= SQRT_CEILING,
        ;
        assert(SQRT_CEILING * SQRT_CEILING <= u64::MAX) by (nonlinear_arith);
        if mid * mid >= n {
            hi = mid;
        } else {
            lo = mid + 1;
        }
    }
    proof {
        lemma_ceil_sqrt(n as nat, lo as nat);
    }
    lo
}

/// Microseconds needed to cover `dist` millimetres at `speed` millimetres per
/// second, rounded up.
pub fn travel_time(dist: u64, speed: u32) -> (t: u64)
    requires
        dist <= SQRT_CEILING,
        speed > 0,
    ensures
        t == travel_micros(dist as nat, speed as nat),
        t <= dist * 1_000_000,
{
    let scaled: u64 = dist * 1_000_000;
    let t = (scaled + (speed as u64 - 1)) / (speed as u64);
    proof {
        let s = speed as int;
        vstd::arithmetic::div_mod::lemma_fundamental_div_mod(scaled + s - 1, s);
        vstd::arithmetic::div_mod::lemma_mod_bound(scaled + s - 1, s);
        if t > scaled {
            assert(s * t >= s * (scaled + 1)) by (nonlinear_arith)
                requires
                    t >= scaled + 1,
                    s > 0,
            ;
            assert(s * (scaled + 1) >= scaled + s) by (nonlinear_arith)
                requires
                    s >= 1,
                    scaled >= 0,
            ;
        }
    }
    t
}

} // verus!
