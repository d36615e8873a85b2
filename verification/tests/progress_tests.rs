use wordlist_filter::progress::{format_long_duration, format_number, ProcessingStats};

#[test]
fn test_format_number() {
    assert_eq!(format_number(0), "0");
    assert_eq!(format_number(123), "123");
    assert_eq!(format_number(1234), "1,234");
    assert_eq!(format_number(1234567), "1,234,567");
}

#[test]
fn test_stats() {
    let mut stats = ProcessingStats::new();

    stats.add_lines(100);
    stats.add_matches(50);
    stats.add_duplicates(10);

    assert_eq!(stats.get_total_lines(), 100);
    assert_eq!(stats.get_matched_lines(), 50);
    assert_eq!(stats.get_duplicate_lines(), 10);
}

#[test]
fn format_number_edges() {
    assert_eq!(format_number(999), "999");
    assert_eq!(format_number(1000), "1,000");
    assert_eq!(format_number(100000), "100,000");
    assert_eq!(format_number(1000000), "1,000,000");
    assert_eq!(format_number(u64::MAX), "18,446,744,073,709,551,615");
}

#[test]
fn long_durations() {
    assert_eq!(format_long_duration(30), None);
    assert_eq!(format_long_duration(59), None);
    assert_eq!(format_long_duration(60), Some("1m 0s".to_string()));
    assert_eq!(format_long_duration(90), Some("1m 30s".to_string()));
    assert_eq!(format_long_duration(3599), Some("59m 59s".to_string()));
    assert_eq!(format_long_duration(3600), Some("1h 0m".to_string()));
    assert_eq!(format_long_duration(3661), Some("1h 1m".to_string()));
}

#[test]
fn single_steps_and_files() {
    let mut stats = ProcessingStats::default();
    stats.add_file(10);
    stats.add_file(5);
    stats.complete_file(10);
    stats.add_line();
    stats.add_match();
    stats.add_duplicate();
    stats.add_error();
    assert_eq!(stats.get_total_files(), 2);
    assert_eq!(stats.get_total_bytes(), 15);
    assert_eq!(stats.get_processed_files(), 1);
    assert_eq!(stats.get_processed_bytes(), 10);
    assert_eq!(stats.get_total_lines(), 1);
    assert_eq!(stats.get_matched_lines(), 1);
    assert_eq!(stats.get_duplicate_lines(), 1);
    assert_eq!(stats.get_error_lines(), 1);
    assert_eq!(stats.unique_output(), 0);
}

#[test]
fn counters_wrap_and_unique_output_saturates() {
    let mut stats = ProcessingStats::new();
    stats.total_lines = u64::MAX;
    stats.add_lines(2);
    assert_eq!(stats.get_total_lines(), 1);
    stats.matched_lines = 3;
    stats.duplicate_lines = 5;
    assert_eq!(stats.unique_output(), 0);
    stats.matched_lines = 9;
    assert_eq!(stats.unique_output(), 4);
}
