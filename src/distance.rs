use vstd::prelude::*;

verus! {

/// Squared Euclidean distance over the first `n` coordinates.
pub open spec fn sq_dist_upto(a: Seq<i32>, b: Seq<i32>, n: nat) -> int
    decreases n,
{
    if n == 0 {
        0
    } else {
        let d = a[n - 1] - b[n - 1];
        sq_dist_upto(a, b, (n - 1) as nat) + d * d
    }
}

/// Squared Euclidean distance between two vectors of one dimension.
pub open spec fn sq_dist(a: Seq<i32>, b: Seq<i32>) -> int {
    sq_dist_upto(a, b, a.len())
}

/// The integer square root: the largest `r` with `r * r <= x`.
pub open spec fn is_floor_sqrt(x: int, r: int) -> bool {
    0 <= r && r * r <= x && x < (r + 1) * (r + 1)
}

/// A vector is at distance zero from itself.
pub proof fn lemma_sq_dist_self(a: Seq<i32>, n: nat)
    ensures
        sq_dist_upto(a, a, n) == 0,
    decreases n,
{
    if n > 0 {
        lemma_sq_dist_self(a, (n - 1) as nat);
    }
}

/// Squared Euclidean distance, computed exactly.
pub fn squared_distance(a: &[i32], b: &[i32]) -> (r: u128)
    requires
        a.len() == b.len(),
    ensures
        r == sq_dist(a@, b@),
{
    let mut sum: u128 = 0;
    let mut i: usize = 0;
    while i < a.len()
        invariant
            i <= a.len(),
            a.len() == b.len(),
            sum == sq_dist_upto(a@, b@, i as nat),
            sum <= i * 0x1_0000_0000_0000_0000int,
        decreases a.len() - i,
    {
        let d: i128 = a[i] as i128 - b[i] as i128;
        assert(d * d <= 0x1_0000_0000_0000_0000int) by (nonlinear_arith)
            requires
                -0x1_0000_0000int < d < 0x1_0000_0000int,
        ;
        assert(d * d >= 0) by (nonlinear_arith);
        assert(i < 0x1_0000_0000_0000_0000int);
        let sq: u128 = (d * d) as u128;
        sum = sum + sq;
        i = i + 1;
    }
    sum
}

/// Euclidean distance rounded down to an integer.
pub fn euclidean_distance(a: &[i32], b: &[i32]) -> (r: u64)
    requires
        a.len() == b.len(),
    ensures
        is_floor_sqrt(sq_dist(a@, b@), r as int),
{
    let s = squared_distance(a, b);
    floor_sqrt(s)
}

/// Integer square root by bisection.
pub fn floor_sqrt(x: u128) -> (r: u64)
    ensures
        is_floor_sqrt(x as int, r as int),
{
    // lo * lo <= x < hi * hi throughout
    let mut lo: u128 = 0;
    let mut hi: u128 = 0x1_0000_0000_0000_0000;
    assert(x < hi * hi) by (nonlinear_arith)
        requires
            hi == 0x1_0000_0000_0000_0000int,
            x <= u128::MAX,
    ;
    while hi - lo > 1
        invariant
            lo < hi <= 0x1_0000_0000_0000_0000int,
            lo * lo <= x,
            x < hi * hi,
        decreases hi - lo,
    {
        let mid: u128 = lo + (hi - lo) / 2;
        assert(mid * mid < 0x1_0000_0000_0000_0000_0000_0000_0000_0000int) by (nonlinear_arith)
            requires
                mid < 0x1_0000_0000_0000_0000int,
        ;
        if mid * mid <= x {
            lo = mid;
        } else {
            hi = mid;
        }
    }
    assert(hi == lo + 1);
    lo as u64
}

} // verus!
