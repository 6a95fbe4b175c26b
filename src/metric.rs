//! Euclidean distance between descriptor vectors, rounded down to an integer.
use vstd::prelude::*;

use crate::NoveltyError;

verus! {

/// The largest number of components a descriptor vector may have: it keeps
/// every sum of squared differences below 2^96.
pub const MAX_DIMENSION: u64 = 4294967296;

/// Sum of the squared component differences over the first `n` components.
pub open spec fn squared_distance(a: Seq<i32>, b: Seq<i32>, n: nat) -> int
    decreases n,
{
    if n == 0 {
        0
    } else {
        let m = (n - 1) as nat;
        squared_distance(a, b, m) + (a[m as int] - b[m as int]) * (a[m as int] - b[m as int])
    }
}

/// `r` is the integer square root of `x`, rounded down.
pub open spec fn is_floor_sqrt(r: int, x: int) -> bool {
    0 <= r && r * r <= x && x < (r + 1) * (r + 1)
}

/// The integer square root of `x`, rounded down.
pub open spec fn floor_sqrt(x: nat) -> nat
    decreases x,
{
    if x == 0 {
        0
    } else {
        let r = floor_sqrt((x - 1) as nat);
        if (r + 1) * (r + 1) <= x {
            r + 1
        } else {
            r
        }
    }
}

/// The Euclidean distance between two vectors of equal length, rounded down.
pub open spec fn spec_distance(a: Seq<i32>, b: Seq<i32>) -> nat {
    floor_sqrt(squared_distance(a, b, a.len()) as nat)
}

/// Every vector of the sequence has at most `MAX_DIMENSION` components.
pub open spec fn within_dimension_limit(vs: Seq<Seq<i32>>) -> bool {
    forall|i: int| 0 <= i < vs.len() ==> #[trigger] vs[i].len() <= MAX_DIMENSION
}

/// The values of a sequence of vectors.
pub open spec fn views(vs: Seq<Vec<i32>>) -> Seq<Seq<i32>> {
    vs.map_values(|v: Vec<i32>| v@)
}

pub proof fn lemma_floor_sqrt(x: nat)
    ensures
        is_floor_sqrt(floor_sqrt(x) as int, x as int),
    decreases x,
{
    if x > 0 {
        let r = floor_sqrt((x - 1) as nat);
        lemma_floor_sqrt((x - 1) as nat);
        assert(r * r <= x - 1 && x - 1 < (r + 1) * (r + 1));
        if (r + 1) * (r + 1) <= x {
            assert(x < (r + 2) * (r + 2)) by (nonlinear_arith)
                requires
                    x - 1 < (r + 1) * (r + 1),
                    r >= 0,
            ;
        }
    }
}

/// The rounded-down square root is the only integer with its defining bounds.
pub proof fn lemma_floor_sqrt_unique(r: int, x: nat)
    requires
        is_floor_sqrt(r, x as int),
    ensures
        r == floor_sqrt(x),
{
    let s = floor_sqrt(x) as int;
    lemma_floor_sqrt(x);
    if r < s {
        assert((r + 1) * (r + 1) <= s * s) by (nonlinear_arith)
            requires
                0 <= r,
                r + 1 <= s,
        ;
    } else if s < r {
        assert((s + 1) * (s + 1) <= r * r) by (nonlinear_arith)
            requires
                0 <= s,
                s + 1 <= r,
        ;
    }
}

pub proof fn lemma_squared_distance_symmetric(a: Seq<i32>, b: Seq<i32>, n: nat)
    ensures
        squared_distance(a, b, n) == squared_distance(b, a, n),
    decreases n,
{
    if n > 0 {
        let m = (n - 1) as nat;
        lemma_squared_distance_symmetric(a, b, m);
        let x = a[m as int] as int;
        let y = b[m as int] as int;
        assert((x - y) * (x - y) == (y - x) * (y - x)) by (nonlinear_arith);
    }
}

pub proof fn lemma_squared_distance_self(a: Seq<i32>, n: nat)
    ensures
        squared_distance(a, a, n) == 0,
    decreases n,
{
    if n > 0 {
        lemma_squared_distance_self(a, (n - 1) as nat);
    }
}

/// Distance is symmetric, and a vector lies at distance zero from itself.
pub proof fn lemma_distance_symmetric(a: Seq<i32>, b: Seq<i32>)
    requires
        a.len() == b.len(),
    ensures
        spec_distance(a, b) == spec_distance(b, a),
        spec_distance(a, a) == 0,
{
    lemma_squared_distance_symmetric(a, b, a.len());
    lemma_squared_distance_self(a, a.len());
}

/// The integer square root of `x`, rounded down.
fn floor_sqrt_u128(x: u128) -> (r: u64)
    requires
        x < 0x1_0000_0000_0000_0000_0000_0000,
    ensures
        is_floor_sqrt(r as int, x as int),
        r == floor_sqrt(x as nat),
{
    let mut lo: u128 = 0;
    let mut hi: u128 = 0x1_0000_0000_0000;
    assert(hi * hi == 0x1_0000_0000_0000_0000_0000_0000) by (nonlinear_arith)
        requires
            hi == 0x1_0000_0000_0000,
    ;
    while hi - lo > 1
        invariant
            lo < hi <= 0x1_0000_0000_0000,
            lo * lo <= x,
            x < hi * hi,
        decreases hi - lo,
    {
        let mid: u128 = lo + (hi - lo) / 2;
        assert(mid * mid < 0x1_0000_0000_0000_0000_0000_0000) by (nonlinear_arith)
            requires
                mid < 0x1_0000_0000_0000,
        ;
        if mid * mid <= x {
            lo = mid;
        } else {
            hi = mid;
        }
    }
    proof {
        lemma_floor_sqrt_unique(lo as int, x as nat);
    }
    lo as u64
}

/// Euclidean distance between `a` and `b`, rounded down to an integer.
///
/// Vectors of different lengths are refused with `DimensionMismatch`.
pub fn distance(a: &Vec<i32>, b: &Vec<i32>) -> (r: Result<u64, NoveltyError>)
    requires
        a@.len() <= MAX_DIMENSION,
    ensures
        match r {
            Ok(d) => a@.len() == b@.len() && d == spec_distance(a@, b@),
            Err(e) => a@.len() != b@.len() && e == NoveltyError::DimensionMismatch,
        },
{
    if a.len() != b.len() {
        return Err(NoveltyError::DimensionMismatch);
    }
    let mut sum: u128 = 0;
    let mut i: usize = 0;
    while i < a.len()
        invariant
            i <= a@.len(),
            a@.len() == b@.len(),
            a@.len() <= MAX_DIMENSION,
            sum == squared_distance(a@, b@, i as nat),
            sum <= i * 0xFFFF_FFFF_FFFF_FFFF,
        decreases a@.len() - i,
    {
        let x: i64 = a[i] as i64;
        let y: i64 = b[i] as i64;
        let gap: u64 = if x >= y {
            (x - y) as u64
        } else {
            (y - x) as u64
        };
        assert((gap as u128) * (gap as u128) <= 0xFFFF_FFFF_FFFF_FFFF) by (nonlinear_arith)
            requires
                gap < 0x1_0000_0000,
        ;
        let sq: u128 = (gap as u128) * (gap as u128);
        assert(sq == (a@[i as int] - b@[i as int]) * (a@[i as int] - b@[i as int])) by (nonlinear_arith)
            requires
                sq == gap * gap,
                gap == x - y || gap == y - x,
                x == a@[i as int],
                y == b@[i as int],
        ;
        assert(i * 0xFFFF_FFFF_FFFF_FFFF + 0xFFFF_FFFF_FFFF_FFFF <= 0x1_0000_0000 * 0xFFFF_FFFF_FFFF_FFFF) by (nonlinear_arith)
            requires
                i < 0x1_0000_0000,
        ;
        sum = sum + sq;
        i = i + 1;
    }
    assert(sum < 0x1_0000_0000_0000_0000_0000_0000) by (nonlinear_arith)
        requires
            sum <= i * 0xFFFF_FFFF_FFFF_FFFF,
            i <= 0x1_0000_0000,
    ;
    let r = floor_sqrt_u128(sum);
    Ok(r)
}

} // verus!
