use wordlist_filter::cli::{parse_size, Args, DedupStrategy, LengthError};

fn args_with_length(length: &str) -> Args {
    Args {
        input: "test.txt".to_string(),
        output: None,
        length: Some(length.to_string()),
        pattern: None,
        single_file: false,
        output_name: "filtered_wordlist.txt".to_string(),
        recursive: false,
        threads: None,
        dedup_strategy: DedupStrategy::Memory,
        memory_limit: "8GB".to_string(),
        no_dedup: false,
        stats: false,
        quiet: false,
        verbose: false,
        dry_run: false,
        buffer_size: "64MB".to_string(),
        extensions: "txt".to_string(),
        preserve_order: false,
        sort: false,
    }
}

#[test]
fn test_parse_single_length() {
    let args = Args {
        input: "test.txt".to_string(),
        output: None,
        length: Some("8".to_string()),
        pattern: None,
        single_file: false,
        output_name: "filtered_wordlist.txt".to_string(),
        recursive: false,
        threads: None,
        dedup_strategy: DedupStrategy::Memory,
        memory_limit: "8GB".to_string(),
        no_dedup: false,
        stats: false,
        quiet: false,
        verbose: false,
        dry_run: false,
        buffer_size: "64MB".to_string(),
        extensions: "txt".to_string(),
        preserve_order: false,
        sort: false,
    };

    let lengths = args.parse_lengths().unwrap().unwrap();
    assert_eq!(lengths, vec![8]);
}

#[test]
fn test_parse_multiple_lengths() {
    let args = Args {
        input: "test.txt".to_string(),
        output: None,
        length: Some("8,9,10".to_string()),
        pattern: None,
        single_file: false,
        output_name: "filtered_wordlist.txt".to_string(),
        recursive: false,
        threads: None,
        dedup_strategy: DedupStrategy::Memory,
        memory_limit: "8GB".to_string(),
        no_dedup: false,
        stats: false,
        quiet: false,
        verbose: false,
        dry_run: false,
        buffer_size: "64MB".to_string(),
        extensions: "txt".to_string(),
        preserve_order: false,
        sort: false,
    };

    let lengths = args.parse_lengths().unwrap().unwrap();
    assert_eq!(lengths, vec![8, 9, 10]);
}

#[test]
fn test_parse_length_range() {
    let args = Args {
        input: "test.txt".to_string(),
        output: None,
        length: Some("8-12".to_string()),
        pattern: None,
        single_file: false,
        output_name: "filtered_wordlist.txt".to_string(),
        recursive: false,
        threads: None,
        dedup_strategy: DedupStrategy::Memory,
        memory_limit: "8GB".to_string(),
        no_dedup: false,
        stats: false,
        quiet: false,
        verbose: false,
        dry_run: false,
        buffer_size: "64MB".to_string(),
        extensions: "txt".to_string(),
        preserve_order: false,
        sort: false,
    };

    let lengths = args.parse_lengths().unwrap().unwrap();
    assert_eq!(lengths, vec![8, 9, 10, 11, 12]);
}

#[test]
fn test_parse_size() {
    assert_eq!(parse_size("64MB").unwrap(), 64 * 1024 * 1024);
    assert_eq!(parse_size("8GB").unwrap(), 8 * 1024 * 1024 * 1024);
    assert_eq!(parse_size("1024KB").unwrap(), 1024 * 1024);
}

#[test]
fn parse_size_units_and_case() {
    assert_eq!(parse_size("512").unwrap(), 512);
    assert_eq!(parse_size("512B").unwrap(), 512);
    assert_eq!(parse_size(" 2 kb ").unwrap(), 2048);
    assert_eq!(parse_size("3mb").unwrap(), 3 * 1024 * 1024);
    assert_eq!(parse_size("+7KB").unwrap(), 7 * 1024);
}

#[test]
fn parse_size_rejects_bad_numbers() {
    let err = parse_size("abcMB").unwrap_err();
    assert_eq!(err.message(), "Invalid size format: 'ABCMB'");
    assert!(parse_size("").is_err());
    assert!(parse_size("GB").is_err());
    assert!(parse_size("1.5GB").is_err());
    assert!(parse_size("-1KB").is_err());
}

#[test]
fn parse_size_rejects_overflow() {
    let err = parse_size("18446744073709551615GB").unwrap_err();
    assert_eq!(err.message(), "Size out of range: '18446744073709551615GB'");
    assert!(parse_size("99999999999999999999999").is_err());
}

#[test]
fn parse_lengths_without_length_is_none() {
    let mut args = args_with_length("8");
    args.length = None;
    assert_eq!(args.parse_lengths().unwrap(), None);
}

#[test]
fn parse_lengths_sorts_and_removes_repeats() {
    let args = args_with_length("10, 8 ,9-11,8");
    assert_eq!(args.parse_lengths().unwrap().unwrap(), vec![8, 9, 10, 11]);
}

#[test]
fn parse_lengths_trims_inside_ranges() {
    let args = args_with_length(" 3 - 5 ");
    assert_eq!(args.parse_lengths().unwrap().unwrap(), vec![3, 4, 5]);
}

#[test]
fn parse_lengths_range_of_one() {
    let args = args_with_length("7-7");
    assert_eq!(args.parse_lengths().unwrap().unwrap(), vec![7]);
}

#[test]
fn parse_lengths_rejects_two_dashes() {
    let err = args_with_length("1-2-3").parse_lengths().unwrap_err();
    assert!(matches!(err, LengthError::RangeFormat { .. }));
    assert_eq!(
        err.message(),
        "Invalid length range format: '1-2-3'. Use format: START-END (e.g., 8-12)"
    );
}

#[test]
fn parse_lengths_rejects_bad_start() {
    let err = args_with_length("a-5").parse_lengths().unwrap_err();
    assert!(matches!(err, LengthError::RangeStart { .. }));
    assert_eq!(err.message(), "Invalid start value in range: 'a'");
}

#[test]
fn parse_lengths_rejects_bad_end() {
    let err = args_with_length("5-").parse_lengths().unwrap_err();
    assert!(matches!(err, LengthError::RangeEnd { .. }));
    assert_eq!(err.message(), "Invalid end value in range: ''");
}

#[test]
fn parse_lengths_rejects_reversed_range() {
    let err = args_with_length("12-8").parse_lengths().unwrap_err();
    assert!(matches!(err, LengthError::RangeOrder { start: 12, end: 8 }));
    assert_eq!(err.message(), "Invalid range: start (12) must be <= end (8)");
}

#[test]
fn parse_lengths_rejects_bad_value() {
    let err = args_with_length("8,x").parse_lengths().unwrap_err();
    assert!(matches!(err, LengthError::Value { .. }));
    assert_eq!(err.message(), "Invalid length value: 'x'");
    assert!(args_with_length("").parse_lengths().is_err());
    assert!(args_with_length("8,").parse_lengths().is_err());
}

#[test]
fn parse_lengths_reports_first_fault() {
    let err = args_with_length("x,9-8").parse_lengths().unwrap_err();
    assert!(matches!(err, LengthError::Value { .. }));
}

#[test]
fn buffer_size_and_memory_limit_use_their_fields() {
    let args = args_with_length("8");
    assert_eq!(args.parse_buffer_size().unwrap(), 64 * 1024 * 1024);
    assert_eq!(args.parse_memory_limit().unwrap(), 8 * 1024 * 1024 * 1024);
}

#[test]
fn output_dir_defaults_to_current_directory() {
    let mut args = args_with_length("8");
    assert_eq!(args.get_output_dir(), ".");
    args.output = Some("/tmp/out".to_string());
    assert_eq!(args.get_output_dir(), "/tmp/out");
}

#[test]
fn extensions_are_trimmed_lowercased_and_non_empty() {
    let mut args = args_with_length("8");
    assert_eq!(args.get_extensions(), vec!["txt".to_string()]);
    args.extensions = " TXT, lst ,,Dic ".to_string();
    assert_eq!(
        args.get_extensions(),
        vec!["txt".to_string(), "lst".to_string(), "dic".to_string()]
    );
    args.extensions = "".to_string();
    assert!(args.get_extensions().is_empty());
}
