use brc::shards::{default_shard_count, SHARD_AMOUNT};

#[test]
fn next_power_of_two_of_four_times_parallelism() {
    assert_eq!(default_shard_count(0), 1);
    assert_eq!(default_shard_count(1), 4);
    assert_eq!(default_shard_count(3), 16);
    assert_eq!(default_shard_count(8), 32);
    assert_eq!(default_shard_count(12), 64);
    for p in 0usize..1000 {
        assert_eq!(default_shard_count(p), (p * 4).next_power_of_two());
    }
    assert!(SHARD_AMOUNT.is_power_of_two());
}
