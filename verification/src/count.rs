//! Counters that stay at their maximum once they get there.

use vstd::prelude::*;

verus! {

/// `a + b`, or the largest count there is where that is smaller.
pub open spec fn capped_count(a: u64, b: u64) -> u64 {
    if a + b > u64::MAX {
        u64::MAX
    } else {
        (a + b) as u64
    }
}

/// Add to a count.
pub(crate) fn add_count(a: u64, b: u64) -> (r: u64)
    ensures
        r == capped_count(a, b),
{
    if b > u64::MAX - a {
        u64::MAX
    } else {
        a + b
    }
}

/// `a + b`, or the largest machine word where that is smaller.
pub open spec fn capped_sum(a: int, b: int) -> int {
    if a + b > usize::MAX {
        usize::MAX as int
    } else {
        a + b
    }
}

/// Add to a byte count.
pub(crate) fn add_bytes(total: usize, n: usize) -> (r: usize)
    ensures
        r == capped_sum(total as int, n as int),
{
    if n > usize::MAX - total {
        usize::MAX
    } else {
        total + n
    }
}

/// A count is the sum as long as that fits, and never more than the sum, less than either part or
/// beyond the largest count there is.
pub proof fn law_counts_are_sums(a: u64, b: u64, m: int, n: int)
    requires
        0 <= m <= usize::MAX,
        0 <= n <= usize::MAX,
    ensures
        a + b <= u64::MAX ==> capped_count(a, b) == a + b,
        a + b > u64::MAX ==> capped_count(a, b) == u64::MAX,
        m + n <= usize::MAX ==> capped_sum(m, n) == m + n,
        m + n > usize::MAX ==> capped_sum(m, n) == usize::MAX,
{
}

} // verus!
