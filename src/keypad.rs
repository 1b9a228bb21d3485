//! Keypad geometry: where each digit key sits, and how far apart two keys are.
//!
//! The grid, with the y axis pointing up:
//!
//! ```text
//!   1 2 3      y = 4
//!   4 5 6      y = 3
//!   7 8 9      y = 2
//!     0        y = 1
//! ```
use vstd::prelude::*;

verus! {

/// Lengths are reported in millionths of one key pitch.
pub const NORM_SCALE: u64 = 1_000_000;

/// An integer coordinate on the keypad grid.
#[derive(Clone, Copy, Debug, PartialEq, Eq, Structural)]
pub struct Location {
    pub x: i8,
    pub y: i8,
}

/// `r` is the integer square root of `n`, rounded down.
pub open spec fn is_floor_sqrt(n: nat, r: nat) -> bool {
    r * r <= n && n < (r + 1) * (r + 1)
}

/// The integer square root of `n`, rounded down.
pub open spec fn floor_sqrt(n: nat) -> nat {
    choose|r: nat| is_floor_sqrt(n, r)
}

/// Squared Euclidean length of a vector on the grid.
pub open spec fn sq_norm(l: Location) -> nat {
    (l.x * l.x + l.y * l.y) as nat
}

/// Euclidean length of a vector, in millionths of a key pitch, rounded down.
pub open spec fn scaled_norm(l: Location) -> nat {
    floor_sqrt((sq_norm(l) * (NORM_SCALE * NORM_SCALE)) as nat)
}

/// Whether `a - b` is representable coordinate by coordinate.
pub open spec fn sub_in_range(a: Location, b: Location) -> bool {
    i8::MIN <= a.x - b.x <= i8::MAX && i8::MIN <= a.y - b.y <= i8::MAX
}

/// The vector from `b` to `a`.
pub open spec fn sub_spec(a: Location, b: Location) -> Location {
    Location { x: (a.x - b.x) as i8, y: (a.y - b.y) as i8 }
}

/// Euclidean distance between two points, in millionths of a key pitch, rounded down.
pub open spec fn scaled_distance(a: Location, b: Location) -> nat {
    scaled_norm(sub_spec(a, b))
}

/// Where the key for digit `d` sits.
pub open spec fn digit_location(d: u8) -> Location {
    if d == 0 {
        Location { x: 2, y: 1 }
    } else if d <= 9 {
        // keys 1..9 fill three rows of three, top row first
        Location { x: (((d - 1) % 3) + 1) as i8, y: (4 - (d - 1) / 3) as i8 }
    } else {
        Location { x: 0, y: 0 }
    }
}

/// Euclidean distance between the keys of two digits, in millionths of a key pitch.
pub open spec fn key_distance(a: u8, b: u8) -> nat {
    scaled_distance(digit_location(a), digit_location(b))
}

/// Only one integer is the rounded-down square root of `n`.
pub proof fn lemma_floor_sqrt_unique(n: nat, a: nat, b: nat)
    requires
        is_floor_sqrt(n, a),
        is_floor_sqrt(n, b),
    ensures
        a == b,
{
    if a < b {
        assert((a + 1) * (a + 1) <= b * b) by (nonlinear_arith)
            requires
                a + 1 <= b,
        ;
    } else if b < a {
        assert((b + 1) * (b + 1) <= a * a) by (nonlinear_arith)
            requires
                b + 1 <= a,
        ;
    }
}

/// Every natural number has a rounded-down square root.
pub proof fn lemma_floor_sqrt_exists(n: nat)
    ensures
        is_floor_sqrt(n, floor_sqrt(n)),
    decreases n,
{
    if n == 0 {
        assert(is_floor_sqrt(0, 0)) by (nonlinear_arith);
    } else {
        lemma_floor_sqrt_exists((n - 1) as nat);
        let r = floor_sqrt((n - 1) as nat);
        if (r + 1) * (r + 1) <= n {
            assert(is_floor_sqrt(n, r + 1)) by (nonlinear_arith)
                requires
                    (r + 1) * (r + 1) <= n,
                    n - 1 < (r + 1) * (r + 1),
            ;
        } else {
            assert(is_floor_sqrt(n, r));
        }
    }
}

/// A witness of the rounded-down square root is the one `floor_sqrt` names.
pub proof fn lemma_floor_sqrt_is(n: nat, r: nat)
    requires
        is_floor_sqrt(n, r),
    ensures
        floor_sqrt(n) == r,
{
    let c = floor_sqrt(n);
    assert(is_floor_sqrt(n, c));
    lemma_floor_sqrt_unique(n, c, r);
}

/// The integer square root of `n`, rounded down, by bisection.
fn isqrt(n: u64) -> (r: u64)
    requires
        n < 0x100_0000_0000_0000,
    ensures
        is_floor_sqrt(n as nat, r as nat),
        r as nat == floor_sqrt(n as nat),
{
    let mut lo: u64 = 0;
    let mut hi: u64 = 0x1000_0000;
    assert(0x1000_0000 * 0x1000_0000 == 0x100_0000_0000_0000) by (nonlinear_arith);
    while lo + 1 < hi
        invariant
            lo < hi <= 0x1000_0000,
            lo * lo <= n,
            n < hi * hi,
        decreases hi - lo,
    {
        let mid: u64 = lo + (hi - lo) / 2;
        assert(mid * mid <= 0x1000_0000 * 0x1000_0000) by (nonlinear_arith)
            requires
                mid <= 0x1000_0000,
        ;
        if mid * mid <= n {
            lo = mid;
        } else {
            hi = mid;
        }
    }
    proof {
        lemma_floor_sqrt_is(n as nat, lo as nat);
    }
    lo
}

impl Location {
    pub fn new(x: i8, y: i8) -> (r: Location)
        ensures
            r == (Location { x, y }),
    {
        Location { x: x, y: y }
    }

    /// The vector from `other` to `self`.
    pub fn sub(self, other: Location) -> (r: Location)
        requires
            sub_in_range(self, other),
        ensures
            r == sub_spec(self, other),
    {
        Location { x: self.x - other.x, y: self.y - other.y }
    }

    /// Euclidean length, in millionths of a key pitch, rounded down.
    pub fn norm(&self) -> (r: u64)
        ensures
            r as nat == scaled_norm(*self),
    {
        let x: i64 = self.x as i64;
        let y: i64 = self.y as i64;
        assert(x * x <= 128 * 128 && y * y <= 128 * 128) by (nonlinear_arith)
            requires
                -128 <= x <= 127,
                -128 <= y <= 127,
        ;
        assert(x * x >= 0 && y * y >= 0) by (nonlinear_arith);
        let square_sum: u64 = (x * x + y * y) as u64;
        assert(square_sum * (NORM_SCALE * NORM_SCALE) < 0x100_0000_0000_0000) by (nonlinear_arith)
            requires
                square_sum <= 2 * 128 * 128,
        ;
        isqrt(square_sum * (NORM_SCALE * NORM_SCALE))
    }

    /// Euclidean distance between two points, in millionths of a key pitch, rounded down.
    pub fn distance(self, other: Location) -> (r: u64)
        requires
            sub_in_range(self, other),
        ensures
            r as nat == scaled_distance(self, other),
    {
        self.sub(other).norm()
    }
}

/// Where the key for digit `d` sits on the grid.
pub fn location(d: u8) -> (r: Location)
    requires
        d <= 9,
    ensures
        r == digit_location(d),
{
    match d {
        0 => Location::new(2, 1),
        1 => Location::new(1, 4),
        2 => Location::new(2, 4),
        3 => Location::new(3, 4),
        4 => Location::new(1, 3),
        5 => Location::new(2, 3),
        6 => Location::new(3, 3),
        7 => Location::new(1, 2),
        8 => Location::new(2, 2),
        _ => Location::new(3, 2),
    }
}

/// Every key lies inside the four-by-three grid, so differences of keys never overflow.
pub proof fn lemma_location_bounds(d: u8)
    requires
        d <= 9,
    ensures
        1 <= digit_location(d).x <= 3,
        1 <= digit_location(d).y <= 4,
{
}

/// Distance between the keys of two digits, in millionths of a key pitch, rounded down.
pub fn digit_distance(a: u8, b: u8) -> (r: u64)
    requires
        a <= 9,
        b <= 9,
    ensures
        r as nat == key_distance(a, b),
{
    proof {
        lemma_location_bounds(a);
        lemma_location_bounds(b);
    }
    location(a).distance(location(b))
}

/// Two keys are less than four key pitches apart.
pub proof fn lemma_key_distance_bound(a: u8, b: u8)
    requires
        a <= 9,
        b <= 9,
    ensures
        key_distance(a, b) < 4 * NORM_SCALE,
{
    lemma_location_bounds(a);
    lemma_location_bounds(b);
    let v = sub_spec(digit_location(a), digit_location(b));
    assert(0 <= v.x * v.x + v.y * v.y <= 13) by (nonlinear_arith)
        requires
            -2 <= v.x <= 2,
            -3 <= v.y <= 3,
    ;
    let n = (sq_norm(v) * (NORM_SCALE * NORM_SCALE)) as nat;
    assert(sq_norm(v) <= 13);
    assert(n <= 13_000_000_000_000) by (nonlinear_arith)
        requires
            n == sq_norm(v) * 1_000_000_000_000,
            sq_norm(v) <= 13,
    ;
    lemma_floor_sqrt_exists(n);
    let r = floor_sqrt(n);
    assert(r < 4_000_000) by (nonlinear_arith)
        requires
            r * r <= n,
            n <= 13_000_000_000_000,
    ;
}

/// A key is at distance zero from itself.
pub proof fn lemma_distance_to_self(d: u8)
    requires
        d <= 9,
    ensures
        key_distance(d, d) == 0,
{
    lemma_location_bounds(d);
    let v = sub_spec(digit_location(d), digit_location(d));
    assert(v.x == 0 && v.y == 0);
    assert(v.x * v.x + v.y * v.y == 0) by (nonlinear_arith)
        requires
            v.x == 0,
            v.y == 0,
    ;
    assert(sq_norm(v) == 0);
    assert(sq_norm(v) * (NORM_SCALE * NORM_SCALE) == 0);
    assert(is_floor_sqrt(0, 0)) by (nonlinear_arith);
    lemma_floor_sqrt_is(0, 0);
}

} // verus!
