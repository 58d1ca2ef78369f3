use vstd::prelude::*;

verus! {

/// A waypoint's position in building-local units.
#[derive(Debug, Clone, Copy, PartialEq, Eq, Structural)]
pub struct Coords {
    pub x: i32,
    pub y: i32,
    pub z: i32,
}

/// `r` is the integer square root of `n`: the largest value whose square
/// does not exceed `n`.
pub open spec fn is_floor_sqrt(n: nat, r: nat) -> bool {
    r * r <= n && n < (r + 1) * (r + 1)
}

pub open spec fn abs_diff(a: int, b: int) -> nat {
    if a >= b { (a - b) as nat } else { (b - a) as nat }
}

/// Squared distance between two points in the X-Y plane.
pub open spec fn planar_sq(a: Coords, b: Coords) -> nat {
    abs_diff(a.x as int, b.x as int) * abs_diff(a.x as int, b.x as int)
        + abs_diff(a.y as int, b.y as int) * abs_diff(a.y as int, b.y as int)
}

/// Largest square root of the planar squared distance.
pub open spec fn planar_dist(a: Coords, b: Coords) -> nat {
    choose|r: nat| is_floor_sqrt(planar_sq(a, b), r)
}

/// The search heuristic: planar distance (rounded down) plus the vertical
/// separation.
pub open spec fn heuristic(a: Coords, b: Coords) -> nat {
    planar_dist(a, b) + abs_diff(a.z as int, b.z as int)
}

pub proof fn lemma_floor_sqrt_exists(n: nat)
    ensures
        exists|r: nat| #[trigger] is_floor_sqrt(n, r),
    decreases n,
{
    if n == 0 {
        assert(is_floor_sqrt(0, 0)) by (nonlinear_arith);
    } else {
        lemma_floor_sqrt_exists((n - 1) as nat);
        let r = choose|r: nat| #[trigger] is_floor_sqrt((n - 1) as nat, r);
        if n == (r + 1) * (r + 1) {
            assert(is_floor_sqrt(n, r + 1)) by (nonlinear_arith)
                requires
                    n == (r + 1) * (r + 1),
            ;
        } else {
            assert(is_floor_sqrt(n, r));
        }
    }
}

proof fn lemma_floor_sqrt_unique(n: nat, r1: nat, r2: nat)
    requires
        is_floor_sqrt(n, r1),
        is_floor_sqrt(n, r2),
    ensures
        r1 == r2,
{
    if r1 < r2 {
        assert((r1 + 1) * (r1 + 1) <= r2 * r2) by (nonlinear_arith)
            requires r1 + 1 <= r2;
    } else if r2 < r1 {
        assert((r2 + 1) * (r2 + 1) <= r1 * r1) by (nonlinear_arith)
            requires r2 + 1 <= r1;
    }
}

/// Integer square root by bisection.
fn floor_sqrt(n: u128) -> (r: u64)
    requires
        n < 0x4_0000_0000_0000_0000u128,
    ensures
        is_floor_sqrt(n as nat, r as nat),
        r < 0x2_0000_0000u64,
{
    let mut lo: u128 = 0;
    let mut hi: u128 = 0x2_0000_0000u128;
    assert(hi * hi == 0x4_0000_0000_0000_0000u128) by (nonlinear_arith)
        requires hi == 0x2_0000_0000u128;
    while hi - lo > 1
        invariant
            lo < hi <= 0x2_0000_0000u128,
            lo * lo <= n,
            n < hi * hi,
        decreases hi - lo,
    {
        let mid: u128 = lo + (hi - lo) / 2;
        assert(mid * mid <= 0x4_0000_0000_0000_0000u128) by (nonlinear_arith)
            requires mid <= 0x2_0000_0000u128;
        if mid * mid <= n {
            lo = mid;
        } else {
            hi = mid;
        }
    }
    assert(hi == lo + 1);
    lo as u64
}

fn abs_diff_i32(a: i32, b: i32) -> (r: u64)
    ensures
        r as nat == abs_diff(a as int, b as int),
        r < 0x1_0000_0000u64,
{
    if a >= b {
        (a as i64 - b as i64) as u64
    } else {
        (b as i64 - a as i64) as u64
    }
}

impl Coords {
    /// Distance estimate between two positions: the straight-line distance
    /// in the X-Y plane, rounded down, plus the absolute Z difference.
    /// Floors are not crossed diagonally, so the vertical part is added.
    pub fn euc_dist(&self, other: &Coords) -> (r: u64)
        ensures
            r as nat == heuristic(*self, *other),
            r < 0x3_0000_0000u64,
    {
        let dx = abs_diff_i32(self.x, other.x);
        let dy = abs_diff_i32(self.y, other.y);
        let dz = abs_diff_i32(self.z, other.z);
        assert((dx as u128) * (dx as u128) < 0x1_0000_0000_0000_0000u128) by (nonlinear_arith)
            requires dx < 0x1_0000_0000u64;
        assert((dy as u128) * (dy as u128) < 0x1_0000_0000_0000_0000u128) by (nonlinear_arith)
            requires dy < 0x1_0000_0000u64;
        let dx2: u128 = dx as u128 * dx as u128;
        let dy2: u128 = dy as u128 * dy as u128;
        let s = floor_sqrt(dx2 + dy2);
        proof {
            assert(planar_sq(*self, *other) == (dx2 + dy2) as nat);
            let c = planar_dist(*self, *other);
            assert(is_floor_sqrt(planar_sq(*self, *other), s as nat));
            lemma_floor_sqrt_unique(planar_sq(*self, *other), c, s as nat);
        }
        s + dz
    }
}

} // verus!
