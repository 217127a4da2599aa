//! Fixed-point plane geometry: positions, the two distance measures that the
//! simulation uses, and one step of straight-line movement.
//!
//! A coordinate counts ticks; `UNIT` ticks make one world unit.

use vstd::prelude::*;

verus! {

/// Ticks in one world unit.
pub const UNIT: i64 = 1000;

/// Largest coordinate magnitude of anything that stays where it was put:
/// island footprints, houses and resource nodes.
pub const WORLD_LIMIT: i64 = 0x100_0000_0000;

/// Largest offset, along each axis, between a wanderer's anchor and the
/// place it sets out for: one hundred world units.
pub const WANDER_RANGE: i64 = 100_000;

/// Largest coordinate magnitude of a target position.
pub const TARGET_LIMIT: i64 = WORLD_LIMIT + WANDER_RANGE;

/// Walking speed in ticks per millisecond: two hundred world units a second.
pub const PERSON_SPEED: u64 = 200;

/// Distance covered in the longest step that a `u32` of milliseconds can
/// describe.
pub const MAX_TRAVEL: u64 = 858_993_459_000;

/// Largest coordinate magnitude of a person: a person may pass its target by
/// less than one step's travel.
pub const AGENT_LIMIT: i64 = TARGET_LIMIT + 858_993_459_000;

/// A person closer to its target than this, in squared ticks, has arrived:
/// four squared world units.
pub const ARRIVAL_THRESHOLD_SQ: u128 = 4_000_000;

/// A point of the plane, in ticks.
#[derive(Clone, Copy, Debug, PartialEq, Eq, Structural)]
pub struct Position {
    pub x: i64,
    pub y: i64,
}

/// The distance between two coordinates.
pub open spec fn span(a: int, b: int) -> int {
    if a >= b {
        a - b
    } else {
        b - a
    }
}

/// `r` is the integer square root of `n`, rounded down.
pub open spec fn is_floor_sqrt(n: int, r: int) -> bool {
    0 <= r && r * r <= n < (r + 1) * (r + 1)
}

/// The integer square root of `n`, rounded down.
pub open spec fn floor_sqrt(n: int) -> int {
    choose|r: int| is_floor_sqrt(n, r)
}

/// The share `d / len` of a step of length `travel`, rounded toward zero.
/// A direction of length zero has no share.
pub open spec fn scaled(d: int, travel: int, len: int) -> int {
    if len <= 0 {
        0
    } else if d >= 0 {
        (d * travel) / len
    } else {
        -(((-d) * travel) / len)
    }
}

/// The distance walked in `elapsed_ms` milliseconds.
pub open spec fn travel_in(elapsed_ms: int) -> int {
    PERSON_SPEED as int * elapsed_ms
}

impl Position {
    /// Both coordinates lie in `-limit ..= limit`.
    pub open spec fn within(self, limit: int) -> bool {
        -limit <= self.x <= limit && -limit <= self.y <= limit
    }

    /// Manhattan distance to `other`.
    pub open spec fn manhattan(self, other: Position) -> int {
        span(self.x as int, other.x as int) + span(self.y as int, other.y as int)
    }

    /// Squared straight-line distance to `other`.
    pub open spec fn dist_sq(self, other: Position) -> int {
        (other.x - self.x) * (other.x - self.x) + (other.y - self.y) * (other.y - self.y)
    }

    /// `other` is close enough to count as reached.
    pub open spec fn reached(self, other: Position) -> bool {
        self.dist_sq(other) < ARRIVAL_THRESHOLD_SQ as int
    }

    /// Where one step of length `travel` along the straight line to `target`
    /// leads: each coordinate moves by its share of the direction vector,
    /// the vector's length taken as its rounded-down integer square root.
    pub open spec fn stepped(self, target: Position, travel: int) -> (int, int) {
        let dx = target.x - self.x;
        let dy = target.y - self.y;
        let len = floor_sqrt(dx * dx + dy * dy);
        (self.x + scaled(dx, travel, len), self.y + scaled(dy, travel, len))
    }

    /// The point `(x, y)`.
    pub fn new(x: i64, y: i64) -> (p: Position)
        ensures
            p.x == x,
            p.y == y,
    {
        Position { x, y }
    }

    /// Whether both coordinates lie in `-limit ..= limit`.
    pub fn is_within(&self, limit: i64) -> (inside: bool)
        ensures
            inside == self.within(limit as int),
    {
        0 <= limit && -limit <= self.x && self.x <= limit && -limit <= self.y && self.y <= limit
    }

    /// Manhattan distance to `other`.
    pub fn manhattan_distance(&self, other: &Position) -> (d: u128)
        ensures
            d == self.manhattan(*other),
    {
        gap(self.x, other.x) + gap(self.y, other.y)
    }

    /// Whether `target` is close enough to count as reached.
    pub fn has_reached(&self, target: &Position) -> (arrived: bool)
        ensures
            arrived == self.reached(*target),
    {
        let dx: u128 = gap(target.x, self.x);
        let dy: u128 = gap(target.y, self.y);
        proof {
            lemma_square_of_gap(target.x as int, self.x as int);
            lemma_square_of_gap(target.y as int, self.y as int);
        }
        if dx >= 2000 || dy >= 2000 {
            proof {
                lemma_square_bounds(dx as int, dy as int);
            }
            false
        } else {
            assert(dx * dx <= 4_000_000 && dy * dy <= 4_000_000) by (nonlinear_arith)
                requires
                    dx < 2000,
                    dy < 2000,
            ;
            dx * dx + dy * dy < ARRIVAL_THRESHOLD_SQ
        }
    }

    /// One step of length `travel` along the straight line to `target`.
    pub fn advance(&self, target: &Position, travel: u64) -> (next: Position)
        requires
            self.within(AGENT_LIMIT as int),
            target.within(TARGET_LIMIT as int),
            travel <= MAX_TRAVEL,
        ensures
            (next.x as int, next.y as int) == self.stepped(*target, travel as int),
            next.within(AGENT_LIMIT as int),
    {
        let dx: u128 = gap(target.x, self.x);
        let dy: u128 = gap(target.y, self.y);
        proof {
            lemma_square_of_gap(target.x as int, self.x as int);
            lemma_square_of_gap(target.y as int, self.y as int);
            lemma_square_limit(dx as int);
            lemma_square_limit(dy as int);
        }
        let len: u64 = integer_sqrt(dx * dx + dy * dy);
        proof {
            lemma_leg_at_most_root(dx as int, dy as int, len as int);
            lemma_leg_at_most_root(dy as int, dx as int, len as int);
        }
        let sx: u64 = share(dx, travel, len);
        let sy: u64 = share(dy, travel, len);
        let x: i64 = if target.x >= self.x {
            self.x + sx as i64
        } else {
            self.x - sx as i64
        };
        let y: i64 = if target.y >= self.y {
            self.y + sy as i64
        } else {
            self.y - sy as i64
        };
        Position { x, y }
    }
}

/// The distance between two coordinates.
pub fn gap(a: i64, b: i64) -> (d: u128)
    ensures
        d == span(a as int, b as int),
        d <= 0xffff_ffff_ffff_ffff,
{
    if a >= b {
        (a as i128 - b as i128) as u128
    } else {
        (b as i128 - a as i128) as u128
    }
}

/// The integer square root of `n`, rounded down, by bisection.
pub fn integer_sqrt(n: u128) -> (r: u64)
    ensures
        is_floor_sqrt(n as int, r as int),
        r == floor_sqrt(n as int),
{
    let mut lo: u128 = 0;
    let mut hi: u128 = 0x1_0000_0000_0000_0000;
    assert(n < hi * hi) by (nonlinear_arith)
        requires
            hi == 0x1_0000_0000_0000_0000,
            n <= 0xffff_ffff_ffff_ffff_ffff_ffff_ffff_ffff,
    ;
    while hi - lo > 1
        invariant
            lo < hi <= 0x1_0000_0000_0000_0000,
            lo * lo <= n < hi * hi,
        decreases hi - lo,
    {
        let mid: u128 = lo + (hi - lo) / 2;
        assert(mid * mid <= 0xffff_ffff_ffff_ffff_ffff_ffff_ffff_ffff) by (nonlinear_arith)
            requires
                mid <= 0xffff_ffff_ffff_ffff,
        ;
        if mid * mid <= n {
            lo = mid;
        } else {
            hi = mid;
        }
    }
    proof {
        assert(hi == lo + 1);
        lemma_floor_sqrt_unique(n as int, lo as int);
    }
    lo as u64
}

/// The magnitude of one coordinate's share of a step.
fn share(d: u128, travel: u64, len: u64) -> (s: u64)
    requires
        d <= len,
        d <= 0xffff_ffff_ffff_ffff,
    ensures
        s == scaled(d as int, travel as int, len as int),
        s == -scaled(-(d as int), travel as int, len as int),
        s <= travel,
{
    if len == 0 {
        0
    } else {
        assert(d * travel <= len * travel <= 0xffff_ffff_ffff_ffff * 0xffff_ffff_ffff_ffff)
            by (nonlinear_arith)
            requires
                d <= len,
                len <= 0xffff_ffff_ffff_ffff,
                travel <= 0xffff_ffff_ffff_ffff,
        ;
        let product: u128 = d * (travel as u128);
        let quotient: u128 = product / (len as u128);
        proof {
            lemma_quotient_at_most(product as int, len as int, travel as int);
        }
        quotient as u64
    }
}

/// Half the length, rounded down, of the chord that a disc of radius
/// `radius` has at `offset` from its centre.
pub open spec fn chord_reach(radius: int, offset: int) -> int {
    floor_sqrt(radius * radius - offset * offset)
}

/// Half the length, rounded down, of the chord that a disc of radius
/// `radius` has at `offset` from its centre. A point at `offset` along one
/// axis and no further than this along the other lies on the disc.
pub fn half_chord(radius: i64, offset: i64) -> (reach: i64)
    requires
        0 <= radius <= WORLD_LIMIT,
        -radius <= offset <= radius,
    ensures
        reach == chord_reach(radius as int, offset as int),
        is_floor_sqrt(radius * radius - offset * offset, reach as int),
        0 <= reach <= radius,
{
    let r: u128 = radius as u128;
    let d: u128 = gap(offset, 0);
    proof {
        lemma_square_of_gap(offset as int, 0);
        lemma_square_limit(r as int);
        assert(d * d <= r * r) by (nonlinear_arith)
            requires
                0 <= d <= r,
        ;
    }
    let root: u64 = integer_sqrt(r * r - d * d);
    proof {
        assert(root <= r) by (nonlinear_arith)
            requires
                0 <= root,
                0 <= r,
                root * root <= r * r - d * d,
        ;
    }
    root as i64
}

/// A point of a chord lies on the disc: at `offset` from the centre along
/// one axis, and no further than the chord reaches along the other, the
/// squared distance from the centre is no more than the squared radius.
pub proof fn lemma_chord_on_disc(radius: int, offset: int, reach: int, along: int)
    requires
        is_floor_sqrt(radius * radius - offset * offset, reach),
        -reach <= along <= reach,
    ensures
        offset * offset + along * along <= radius * radius,
{
    assert(along * along <= reach * reach) by (nonlinear_arith)
        requires
            -reach <= along <= reach,
    ;
}

/// A number has one rounded-down square root only: whatever passes for it
/// is it.
pub proof fn lemma_floor_sqrt_unique(n: int, r: int)
    requires
        is_floor_sqrt(n, r),
    ensures
        floor_sqrt(n) == r,
{
    let s = floor_sqrt(n);
    assert(is_floor_sqrt(n, s));
    if r != s {
        assert(false) by (nonlinear_arith)
            requires
                0 <= r,
                0 <= s,
                r != s,
                r * r <= n < (r + 1) * (r + 1),
                s * s <= n < (s + 1) * (s + 1),
        ;
    }
}

/// Every number from zero on has a rounded-down square root.
pub proof fn lemma_floor_sqrt_exists(n: int)
    requires
        0 <= n,
    ensures
        is_floor_sqrt(n, floor_sqrt(n)),
    decreases n,
{
    if n == 0 {
        assert(is_floor_sqrt(0, 0));
    } else {
        lemma_floor_sqrt_exists(n - 1);
        let r = floor_sqrt(n - 1);
        if (r + 1) * (r + 1) <= n {
            assert(n < (r + 2) * (r + 2)) by (nonlinear_arith)
                requires
                    0 <= r,
                    n - 1 < (r + 1) * (r + 1),
            ;
            assert(is_floor_sqrt(n, r + 1));
        } else {
            assert(is_floor_sqrt(n, r));
        }
    }
}

/// The length of the straight line between two positions, rounded down.
pub open spec fn line_length(from: Position, to: Position) -> int {
    floor_sqrt(from.dist_sq(to))
}

/// A target that is not yet reached is at least as far as the reach.
pub proof fn lemma_unreached_is_far(from: Position, to: Position)
    requires
        !from.reached(to),
    ensures
        line_length(from, to) >= 2000,
        is_floor_sqrt(from.dist_sq(to), line_length(from, to)),
{
    let n = from.dist_sq(to);
    lemma_floor_sqrt_exists(n);
    let len = floor_sqrt(n);
    assert(len >= 2000) by (nonlinear_arith)
        requires
            0 <= len,
            n < (len + 1) * (len + 1),
            n >= 4_000_000,
    ;
}

/// A step that is no longer than the line brings the walker nearer. Where
/// the target is not yet reached and the step is at least two ticks and no
/// longer than the line to the target, neither coordinate passes the
/// target, and the Manhattan distance to the target goes down by at least
/// one tick less than the step's length: the two shares of the step are
/// each rounded down, and together they are longer than the step less two
/// ticks.
pub proof fn law_short_step_approaches(from: Position, to: Position, travel: int)
    requires
        !from.reached(to),
        2 <= travel <= line_length(from, to),
    ensures
        ({
            let (x, y) = from.stepped(to, travel);
            &&& span(x, to.x as int) <= span(from.x as int, to.x as int)
            &&& span(y, to.y as int) <= span(from.y as int, to.y as int)
            &&& span(x, to.x as int) + span(y, to.y as int) < from.manhattan(to)
            &&& span(x, to.x as int) + span(y, to.y as int) <= from.manhattan(to) - (travel - 1)
            &&& (from.x <= to.x ==> from.x <= x <= to.x)
            &&& (from.x >= to.x ==> from.x >= x >= to.x)
            &&& (from.y <= to.y ==> from.y <= y <= to.y)
            &&& (from.y >= to.y ==> from.y >= y >= to.y)
        }),
{
    let dx = to.x - from.x;
    let dy = to.y - from.y;
    let a = span(to.x as int, from.x as int);
    let b = span(to.y as int, from.y as int);
    let n = dx * dx + dy * dy;
    lemma_square_of_gap(to.x as int, from.x as int);
    lemma_square_of_gap(to.y as int, from.y as int);
    assert(n == a * a + b * b);
    lemma_unreached_is_far(from, to);
    let len = floor_sqrt(n);
    lemma_leg_at_most_root(a, b, len);
    assert(b * b + a * a == n);
    lemma_leg_at_most_root(b, a, len);
    let sa = (a * travel) / len;
    let sb = (b * travel) / len;
    lemma_share_bounds(a, travel, len);
    lemma_share_bounds(b, travel, len);
    assert(scaled(dx, travel, len) == if dx >= 0 {
        sa
    } else {
        -sa
    });
    assert(scaled(dy, travel, len) == if dy >= 0 {
        sb
    } else {
        -sb
    });
    assert(a + b >= len) by (nonlinear_arith)
        requires
            0 <= a,
            0 <= b,
            0 <= len,
            len * len <= a * a + b * b,
    ;
    assert(sa + sb >= travel - 1) by (nonlinear_arith)
        requires
            0 < len,
            0 <= travel,
            a + b >= len,
            len * sa > a * travel - len,
            len * sb > b * travel - len,
    ;
}

/// A step that is longer than the line, and shorter than twice the reach,
/// lands within reach. Where the target is not yet reached, the walker
/// passes it, and by less than the reach: at the next pass it has arrived.
pub proof fn law_long_step_lands_in_reach(from: Position, to: Position, travel: int)
    requires
        !from.reached(to),
        line_length(from, to) < travel < 4000,
    ensures
        ({
            let (x, y) = from.stepped(to, travel);
            &&& (x - to.x) * (x - to.x) + (y - to.y) * (y - to.y) < ARRIVAL_THRESHOLD_SQ
            &&& span(x, to.x as int) < 2000
            &&& span(y, to.y as int) < 2000
        }),
{
    let dx = to.x - from.x;
    let dy = to.y - from.y;
    let a = span(to.x as int, from.x as int);
    let b = span(to.y as int, from.y as int);
    let n = dx * dx + dy * dy;
    lemma_square_of_gap(to.x as int, from.x as int);
    lemma_square_of_gap(to.y as int, from.y as int);
    assert(n == a * a + b * b);
    lemma_unreached_is_far(from, to);
    let len = floor_sqrt(n);
    let g = travel - len;
    let sa = (a * travel) / len;
    let sb = (b * travel) / len;
    lemma_overshoot(a, travel, len);
    lemma_overshoot(b, travel, len);
    let u = sa - a;
    let v = sb - b;
    assert(scaled(dx, travel, len) == if dx >= 0 {
        sa
    } else {
        -sa
    });
    assert(scaled(dy, travel, len) == if dy >= 0 {
        sb
    } else {
        -sb
    });
    let (x, y) = from.stepped(to, travel);
    assert((x - to.x) * (x - to.x) == u * u) by (nonlinear_arith)
        requires
            x - to.x == u || x - to.x == -u,
    ;
    assert((y - to.y) * (y - to.y) == v * v) by (nonlinear_arith)
        requires
            y - to.y == v || y - to.y == -v,
    ;
    // Both legs of the overshoot, scaled by the line, are no longer than the
    // legs of the line scaled by what the step has over the line.
    assert((u * len) * (u * len) <= (a * g) * (a * g)) by (nonlinear_arith)
        requires
            0 <= u * len <= a * g,
    ;
    assert((v * len) * (v * len) <= (b * g) * (b * g)) by (nonlinear_arith)
        requires
            0 <= v * len <= b * g,
    ;
    assert((a * g) * (a * g) + (b * g) * (b * g) == n * (g * g)) by (nonlinear_arith)
        requires
            n == a * a + b * b,
    ;
    assert(n * (g * g) < ((len + 1) * g) * ((len + 1) * g)) by (nonlinear_arith)
        requires
            n < (len + 1) * (len + 1),
            1 <= g,
    ;
    assert((len + 1) * g <= 2000 * len - 1) by (nonlinear_arith)
        requires
            2000 <= len,
            1 <= g <= 3999 - len,
    ;
    assert(((len + 1) * g) * ((len + 1) * g) < (2000 * len) * (2000 * len)) by (nonlinear_arith)
        requires
            0 <= (len + 1) * g <= 2000 * len - 1,
    ;
    assert((u * len) * (u * len) + (v * len) * (v * len) == (u * u + v * v) * (len * len))
        by (nonlinear_arith);
    assert((2000 * len) * (2000 * len) == 4_000_000 * (len * len)) by (nonlinear_arith);
    assert(u * u + v * v < 4_000_000) by (nonlinear_arith)
        requires
            (u * u + v * v) * (len * len) < 4_000_000 * (len * len),
            0 < len,
    ;
    assert(u < 2000 && v < 2000) by (nonlinear_arith)
        requires
            0 <= u,
            0 <= v,
            u * u + v * v < 4_000_000,
    ;
}

/// The share of a leg, of a step that is longer than the direction, is no
/// shorter than the leg; and what it has over the leg, scaled by the
/// direction, is no more than the leg scaled by what the step has over the
/// direction.
proof fn lemma_overshoot(leg: int, travel: int, len: int)
    requires
        0 <= leg,
        0 < len <= travel,
    ensures
        (leg * travel) / len >= leg,
        0 <= ((leg * travel) / len - leg) * len <= leg * (travel - len),
{
    let q = (leg * travel) / len;
    assert(leg * len <= leg * travel) by (nonlinear_arith)
        requires
            0 <= leg,
            len <= travel,
    ;
    vstd::arithmetic::div_mod::lemma_div_is_ordered(leg * len, leg * travel, len);
    vstd::arithmetic::div_mod::lemma_div_multiples_vanish(leg, len);
    vstd::arithmetic::div_mod::lemma_fundamental_div_mod(leg * travel, len);
    vstd::arithmetic::div_mod::lemma_mod_bound(leg * travel, len);
    assert((q - leg) * len == len * q - leg * len) by (nonlinear_arith);
    assert(leg * (travel - len) == leg * travel - leg * len) by (nonlinear_arith);
    assert(0 <= (q - leg) * len) by (nonlinear_arith)
        requires
            q >= leg,
            0 < len,
    ;
}

/// The share of a leg that is no longer than the direction, of a step that
/// is no longer than the direction, is no longer than the leg; and rounding
/// it down takes less than one tick off it.
proof fn lemma_share_bounds(leg: int, travel: int, len: int)
    requires
        0 <= leg <= len,
        0 <= travel <= len,
        0 < len,
    ensures
        0 <= (leg * travel) / len <= leg,
        len * ((leg * travel) / len) > leg * travel - len,
{
    assert(0 <= leg * travel <= leg * len) by (nonlinear_arith)
        requires
            0 <= leg,
            0 <= travel <= len,
    ;
    assert(leg * len == len * leg) by (nonlinear_arith);
    lemma_quotient_at_most(leg * travel, len, leg);
    vstd::arithmetic::div_mod::lemma_fundamental_div_mod(leg * travel, len);
    vstd::arithmetic::div_mod::lemma_mod_bound(leg * travel, len);
}

proof fn lemma_square_of_gap(a: int, b: int)
    ensures
        span(a, b) * span(a, b) == (a - b) * (a - b),
{
    assert((b - a) * (b - a) == (a - b) * (a - b)) by (nonlinear_arith);
}

proof fn lemma_square_bounds(dx: int, dy: int)
    requires
        0 <= dx,
        0 <= dy,
        dx >= 2000 || dy >= 2000,
    ensures
        dx * dx + dy * dy >= 4_000_000,
{
    assert(dx * dx + dy * dy >= 4_000_000) by (nonlinear_arith)
        requires
            0 <= dx,
            0 <= dy,
            dx >= 2000 || dy >= 2000,
    ;
}

proof fn lemma_square_limit(d: int)
    requires
        0 <= d <= 0x400_0000_0000,
    ensures
        0 <= d * d <= 0x10_0000_0000_0000_0000_0000,
{
    assert(0 <= d * d <= 0x400_0000_0000 * 0x400_0000_0000) by (nonlinear_arith)
        requires
            0 <= d <= 0x400_0000_0000,
    ;
}

proof fn lemma_leg_at_most_root(d: int, e: int, len: int)
    requires
        0 <= d,
        is_floor_sqrt(d * d + e * e, len),
    ensures
        d <= len,
{
    assert(d <= len) by (nonlinear_arith)
        requires
            0 <= d,
            0 <= len,
            d * d + e * e < (len + 1) * (len + 1),
    ;
}

proof fn lemma_quotient_at_most(product: int, len: int, travel: int)
    requires
        0 < len,
        0 <= product <= len * travel,
    ensures
        0 <= product / len <= travel,
{
    vstd::arithmetic::div_mod::lemma_div_is_ordered(product, len * travel, len);
    vstd::arithmetic::div_mod::lemma_div_multiples_vanish(travel, len);
    vstd::arithmetic::div_mod::lemma_div_pos_is_pos(product, len);
    assert(len * travel == travel * len) by (nonlinear_arith);
}

} // verus!
