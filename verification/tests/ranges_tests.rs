//! The requirements collector and range merging.

use candlerunner::instruments::Figi;
use candlerunner::ranges::{merge_ranges, RequirementsCollector};

#[test]
fn test_merge_ranges() {
    let base_time: i64 = 1_600_000_000;
    let second: i64 = 1;

    let range = vec![
        (base_time + second * 32, base_time + second * 33),
        (base_time + second * 40, base_time + second * 45),
        (base_time, base_time + second * 20),
        (base_time + second * 10, base_time + second * 30),
        (base_time + second * 21, base_time + second * 31),
        (base_time + second * 43, base_time + second * 50),
    ];

    let expected = vec![
        (base_time, base_time + second * 31),
        (base_time + second * 32, base_time + second * 33),
        (base_time + second * 40, base_time + second * 50),
    ];

    let merged = merge_ranges(range);

    assert_eq!(merged, expected);
}

#[test]
fn merge_ranges_empty() {
    let merged = merge_ranges(Vec::new());
    assert!(merged.is_empty());
}

#[test]
fn merge_ranges_does_not_glue_touching_neighbours() {
    // Ranges one second apart stay separate: only an overlap (next start at
    // or before the tail's end) merges.
    let merged = merge_ranges(vec![(0, 5), (6, 10)]);
    assert_eq!(merged, vec![(0, 5), (6, 10)]);
    let merged = merge_ranges(vec![(0, 6), (6, 10)]);
    assert_eq!(merged, vec![(0, 10)]);
}

#[test]
fn merge_ranges_contained_range_keeps_wide_end() {
    // A range fully inside another must not shrink the tail.
    let merged = merge_ranges(vec![(0, 100), (10, 20)]);
    assert_eq!(merged, vec![(0, 100)]);
}

#[test]
fn collector_merges_per_instrument() {
    let mut collector = RequirementsCollector::new();
    let f1 = Figi("BBG000B9XRY4".to_string());
    let f2 = Figi("BBG000BVPV84".to_string());
    let now: i64 = 1_000;
    collector.push(&f1, 0, Some(10), now);
    collector.push(&f2, 5, Some(7), now);
    collector.push(&f1, 8, Some(20), now);
    // An open end means "now".
    collector.push(&f2, 900, None, now);

    let finalized = collector.finalize();
    assert_eq!(finalized.len(), 2);
    assert_eq!(finalized[0].0 .0, "BBG000B9XRY4");
    assert_eq!(finalized[0].1, vec![(0, 20)]);
    assert_eq!(finalized[1].0 .0, "BBG000BVPV84");
    assert_eq!(finalized[1].1, vec![(5, 7), (900, 1000)]);
}
