//! How many shards the station table is split into.
use vstd::prelude::*;

verus! {

/// The number of shards of the station table.
pub const SHARD_AMOUNT: usize = 2048;

pub open spec fn is_power_of_two(x: int) -> bool
    decreases x,
{
    if x <= 0 {
        false
    } else if x == 1 {
        true
    } else {
        x % 2 == 0 && is_power_of_two(x / 2)
    }
}

pub proof fn lemma_shard_amount()
    ensures
        SHARD_AMOUNT > 1,
        is_power_of_two(SHARD_AMOUNT as int),
{
    reveal_with_fuel(is_power_of_two, 12);
}

/// The shard count that a concurrent map picks by itself on a machine that
/// runs `parallelism` threads at once: the least power of two that is at
/// least `4 * parallelism` (1 when that is 0).
pub fn default_shard_count(parallelism: usize) -> (r: usize)
    requires
        parallelism * 4 <= usize::MAX / 2 + 1,
    ensures
        is_power_of_two(r as int),
        r >= parallelism * 4,
        r == 1 || r / 2 < parallelism * 4,
{
    let target = parallelism * 4;
    let mut r: usize = 1;
    while r < target
        invariant
            target == parallelism * 4,
            target <= usize::MAX / 2 + 1,
            is_power_of_two(r as int),
            r == 1 || r / 2 < target,
        decreases usize::MAX - r,
    {
        assert(is_power_of_two((r * 2) as int)) by {
            assert((r * 2) as int / 2 == r);
        }
        r = r * 2;
    }
    r
}

} // verus!
