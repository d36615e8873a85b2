use wordlist_filter::bloom::BloomDeduplicator;
use wordlist_filter::dedup::{
    estimate_set_memory, DedupStats, Deduplicator, MemoryDeduplicator, NoOpDeduplicator,
    ShardedDeduplicator,
};

#[test]
fn test_memory_deduplicator() {
    let mut dedup = MemoryDeduplicator::new();

    assert!(dedup.insert("test1"));
    assert!(dedup.insert("test2"));
    assert!(!dedup.insert("test1")); // Duplicate

    assert_eq!(dedup.len(), 2);
    assert!(dedup.contains("test1"));
    assert!(!dedup.contains("test3"));
}

/// The size estimates for an expected item count and a target rate:
/// `m = ceil(-n ln p / ln(2)^2)` and `k = round((m / n) ln 2)`.
fn bloom_for(expected_items: usize, false_positive_rate: f64) -> BloomDeduplicator {
    let ln2 = std::f64::consts::LN_2;
    let bits = (-(expected_items as f64) * false_positive_rate.ln() / (ln2 * ln2)).ceil() as usize;
    let hashes = ((bits.max(64) as f64 / expected_items as f64) * ln2).round() as usize;
    BloomDeduplicator::with_estimates(bits, hashes)
}

#[test]
fn test_bloom_deduplicator() {
    let mut dedup = bloom_for(1000, 0.01);

    assert!(dedup.insert("test1"));
    assert!(dedup.insert("test2"));
    assert!(!dedup.insert("test1")); // Should detect duplicate

    assert!(dedup.contains("test1"));
    assert!(dedup.contains("test2"));
}

#[test]
fn test_sharded_deduplicator() {
    let mut dedup = ShardedDeduplicator::new(4);

    assert!(dedup.insert("test1"));
    assert!(dedup.insert("test2"));
    assert!(dedup.insert("test3"));
    assert!(!dedup.insert("test1"));

    assert_eq!(dedup.len(), 3);
}

#[test]
fn test_noop_deduplicator() {
    let mut dedup = NoOpDeduplicator::new();

    assert!(dedup.insert("test1"));
    assert!(dedup.insert("test1")); // Always unique

    assert_eq!(dedup.len(), 2);
    assert!(!dedup.contains("test1")); // Never contains
}

#[test]
fn dedup_stats_count_and_balance() {
    let mut stats = DedupStats::new();
    assert_eq!(stats.get_total(), 0);
    stats.record_unique();
    stats.record_unique();
    stats.record_duplicate();
    assert_eq!(stats.get_total(), 3);
    assert_eq!(stats.get_unique(), 2);
    assert_eq!(stats.get_duplicates(), 1);
}

#[test]
fn dedup_stats_wrap_around() {
    let mut stats = DedupStats::new();
    stats.total_processed = u64::MAX;
    stats.unique_count = u64::MAX;
    stats.record_unique();
    assert_eq!(stats.get_total(), 0);
    assert_eq!(stats.get_unique(), 0);
}

#[test]
fn exact_engines_count_distinct_values() {
    let values = ["a", "b", "a", "c", "b", "a", "", ""];
    let mut memory = MemoryDeduplicator::with_capacity(16);
    let mut sharded = ShardedDeduplicator::with_capacity(3, 4);
    let mut fresh_memory = 0;
    let mut fresh_sharded = 0;
    for value in values {
        if memory.insert(value) {
            fresh_memory += 1;
        }
        if sharded.insert(value) {
            fresh_sharded += 1;
        }
    }
    assert_eq!(fresh_memory, 4);
    assert_eq!(fresh_sharded, 4);
    assert_eq!(memory.len(), 4);
    assert_eq!(sharded.len(), 4);
    assert!(!memory.is_empty());
    for value in values {
        assert!(memory.contains(value));
        assert!(sharded.contains(value));
    }
    assert!(!sharded.contains("d"));
}

#[test]
fn clear_forgets_everything() {
    let mut memory = MemoryDeduplicator::new();
    let mut sharded = ShardedDeduplicator::new(2);
    let mut bloom = BloomDeduplicator::with_params(1024, 3);
    let mut noop = NoOpDeduplicator::new();
    let engines: [&mut dyn Deduplicator; 4] = [&mut memory, &mut sharded, &mut bloom, &mut noop];
    for engine in engines {
        assert!(engine.insert("word"));
        engine.clear();
        assert_eq!(engine.len(), 0);
        assert!(engine.is_empty());
        assert!(!engine.contains("word"));
        assert!(engine.insert("word"));
    }
}

#[test]
fn bloom_has_no_false_negatives() {
    let mut dedup = BloomDeduplicator::with_params(1 << 16, 5);
    let words: Vec<String> = (0..2000).map(|i| format!("word{}", i)).collect();
    for word in &words {
        dedup.insert(word);
    }
    for word in &words {
        assert!(dedup.contains(word));
        assert!(!dedup.insert(word));
    }
}

#[test]
fn bloom_false_positive_rate_is_near_target() {
    let mut dedup = bloom_for(1000, 0.01);
    assert_eq!(dedup.memory_usage(), 150 * 8);
    for i in 0..1000 {
        dedup.insert(&format!("member-{}", i));
    }
    let mut false_positives = 0;
    for i in 0..20000 {
        if dedup.contains(&format!("stranger-{}", i)) {
            false_positives += 1;
        }
    }
    // Within a factor of five of the 200 that the target rate predicts.
    assert!(false_positives < 1000, "false positives: {}", false_positives);
}

#[test]
fn bloom_sizes_round_up_to_words() {
    assert_eq!(BloomDeduplicator::with_params(1, 1).memory_usage(), 8);
    assert_eq!(BloomDeduplicator::with_params(64, 1).memory_usage(), 8);
    assert_eq!(BloomDeduplicator::with_params(65, 1).memory_usage(), 16);
    assert_eq!(BloomDeduplicator::with_params(9586, 7).memory_usage(), 150 * 8);
    assert_eq!(BloomDeduplicator::with_estimates(0, 0).memory_usage(), 8);
    assert_eq!(BloomDeduplicator::with_estimates(200, 40).memory_usage(), 32);
}

#[test]
fn bloom_counts_fresh_insertions() {
    let mut dedup = BloomDeduplicator::with_params(4096, 4);
    assert_eq!(dedup.len(), 0);
    dedup.insert("one");
    dedup.insert("two");
    dedup.insert("one");
    assert_eq!(dedup.len(), 2);
}

#[test]
fn noop_memory_is_its_counter() {
    assert_eq!(NoOpDeduplicator::new().memory_usage(), 8);
}

#[test]
fn set_memory_estimate_formula() {
    assert_eq!(estimate_set_memory(0, 0), 0);
    assert_eq!(estimate_set_memory(3, 4), 3 * 64 + 4 * 8);
    assert_eq!(estimate_set_memory(usize::MAX, 1), usize::MAX);
    assert_eq!(estimate_set_memory(1, usize::MAX / 8 + 1), usize::MAX);
}

#[test]
fn probe_positions_follow_the_double_hashing_formula() {
    use_probe(10, 3, 0, 7, 3);
    use_probe(10, 3, 2, 7, 2);
    use_probe(5, 0, 9, 64, 5);
    use_probe(0, 1, 15, 4, 3);
    // The sum is taken in full before the remainder, beyond the machine word.
    let expected = ((usize::MAX as u128 + 15 * usize::MAX as u128) % 1000) as usize;
    use_probe(usize::MAX, usize::MAX, 15, 1000, expected);
}

fn use_probe(h1: usize, h2: usize, probe: usize, num_bits: usize, expected: usize) {
    assert_eq!(wordlist_filter::bloom::probe_position(h1, h2, probe, num_bits), expected);
}

#[test]
fn shard_counts() {
    assert_eq!(wordlist_filter::dedup::shard_count_for(4, 4), 16);
    assert_eq!(wordlist_filter::dedup::shard_count_for(1, 2), 2);
    assert_eq!(wordlist_filter::dedup::shard_count_for(usize::MAX, 4), usize::MAX);
    let mut dedup = wordlist_filter::dedup::sharded_for(100, 3, 2);
    assert!(dedup.insert("x"));
    assert!(!dedup.insert("x"));
    assert_eq!(dedup.len(), 1);
}

#[test]
fn exact_engines_estimate_at_least_their_items() {
    let mut memory = MemoryDeduplicator::new();
    let mut sharded = ShardedDeduplicator::new(3);
    assert_eq!(sharded.memory_usage() % 8, 0);
    for word in ["one", "two", "three"] {
        memory.insert(word);
        sharded.insert(word);
    }
    assert!(memory.memory_usage() >= 3 * 64);
    assert!(sharded.memory_usage() >= 3 * 64);
    assert_eq!(memory.memory_usage() % 8, 0);
}

#[test]
fn capacity_beyond_the_limit_is_no_obstacle() {
    let mut memory = MemoryDeduplicator::with_capacity(usize::MAX);
    assert!(memory.is_empty());
    assert!(memory.insert("one"));
    assert!(!memory.insert("one"));
    assert_eq!(memory.len(), 1);
    let mut sharded = ShardedDeduplicator::with_capacity(2, usize::MAX / 2);
    assert!(sharded.is_empty());
    assert!(sharded.insert("one"));
    assert!(sharded.contains("one"));
    assert_eq!(sharded.len(), 1);
}
