use wordlist_filter::cli::{Args, DedupStrategy};
use wordlist_filter::dedup::{create_deduplicator, DedupEngine, Deduplicator, MemoryDeduplicator};
use wordlist_filter::bloom::BloomDeduplicator;
use wordlist_filter::encoding::MmapLineIterator;
use wordlist_filter::filter::{FilterConfig, MultiLengthRouter, SingleLengthFilter};
use wordlist_filter::output::{MultiOutputManager, SingleOutputManager};
use wordlist_filter::processor::{
    estimate_words, total_size, ConfigError, ProcessingMode, Processor, ProcessorConfig,
};
use wordlist_filter::scan::{scan_lines, LineOutcome};

fn config(lengths: Option<Vec<usize>>, pattern: Option<&str>) -> ProcessorConfig {
    ProcessorConfig {
        lengths,
        pattern: pattern.map(|p| p.to_string()),
        single_file: false,
        output_dir: "out".to_string(),
        output_name: "filtered_wordlist.txt".to_string(),
        recursive: false,
        no_dedup: false,
        buffer_size: 1024,
        extensions: vec!["txt".to_string()],
        dry_run: false,
        quiet: true,
        verbose: false,
        sort_output: false,
    }
}

fn data_of(lines: &[&str]) -> Vec<u8> {
    let mut data = Vec::new();
    for line in lines {
        data.extend_from_slice(line.as_bytes());
        data.push(b'\n');
    }
    data
}

/// Runs the general filter over `data` and returns what was written.
fn run_single_output(processor: &mut Processor, data: &[u8]) -> Vec<u8> {
    let files = vec![("input.txt".to_string(), data.len() as u64)];
    let mut run = processor.configure_single_output(&files).unwrap();
    let mut lines = MmapLineIterator::new(data, "UTF-8");
    let mut written = Vec::new();
    loop {
        let report =
            processor.process_file(&mut lines, &run.filter, &mut run.dedup, &mut run.output);
        written.extend(run.output.flush());
        if report.finished {
            break;
        }
    }
    written
}

#[test]
fn single_length_scenario_writes_each_word_once() {
    let mut processor = Processor::new(config(Some(vec![5]), None));
    assert_eq!(processor.mode(), ProcessingMode::SingleLength(5));
    let data = data_of(&["alpha", "alpha", "beta", "gamma1"]);
    let files = vec![("input.txt".to_string(), data.len() as u64)];
    let mut run = processor.configure_single_length(&files, 5).unwrap();
    let mut lines = MmapLineIterator::new(&data, "UTF-8");
    let report = processor.process_file_single_length(
        &mut lines,
        &run.filter,
        &mut run.dedup,
        &mut run.output,
    );
    assert!(report.finished);
    assert_eq!(report.lines, 4);
    assert_eq!(report.matched, 2);
    assert_eq!(report.duplicates, 1);
    assert_eq!(report.written, 1);
    assert_eq!(report.errors, 0);
    assert_eq!(run.output.lines_written(), 1);
    assert_eq!(run.output.path(), "out/wordlist_len5.txt");
    assert_eq!(run.output.flush(), b"alpha\n".to_vec());
    let stats = processor.stats();
    assert_eq!(stats.get_total_lines(), 4);
    assert_eq!(stats.get_matched_lines(), 2);
    assert_eq!(stats.get_duplicate_lines(), 1);
    assert_eq!(stats.unique_output(), 1);
}

#[test]
fn general_filter_gives_the_same_single_length_output() {
    let mut processor = Processor::new(config(Some(vec![5]), None));
    let data = data_of(&["alpha", "alpha", "beta", "gamma1"]);
    assert_eq!(run_single_output(&mut processor, &data), b"alpha\n".to_vec());
}

#[test]
fn multi_bucket_scenario_keeps_order_and_empty_buckets() {
    let mut processor = Processor::new(config(Some(vec![4, 6]), None));
    assert_eq!(processor.mode(), ProcessingMode::MultiLength);
    let data = data_of(&["pass", "drowssap", "abcd"]);
    let files = vec![("input.txt".to_string(), data.len() as u64)];
    let mut run = processor.configure_multi_length(&files, &[4, 6]).unwrap();
    let mut lines = MmapLineIterator::new(&data, "UTF-8");
    let report = processor.process_file_multi_length(
        &mut lines,
        &run.router,
        &mut run.dedups,
        &mut run.output,
    );
    assert_eq!(report.flush_due, None);
    assert_eq!(report.lines, 3);
    assert_eq!(report.matched, 2);
    assert_eq!(report.written, 2);
    assert_eq!(report.buckets.len(), 2);
    assert_eq!(report.buckets[0].written, 2);
    assert_eq!(report.buckets[1].written, 0);
    assert_eq!(
        run.output.get_paths(),
        vec![
            (4, "out/wordlist_len4.txt".to_string()),
            (6, "out/wordlist_len6.txt".to_string())
        ]
    );
    assert_eq!(run.output.get_stats(), vec![(4, 2, 10), (6, 0, 0)]);
    let chunks = run.output.flush_all();
    assert_eq!(chunks, vec![(4, b"pass\nabcd\n".to_vec()), (6, Vec::new())]);
}

#[test]
fn written_is_matched_less_duplicates_in_every_bucket() {
    let mut processor = Processor::new(config(Some(vec![1, 2, 3]), Some("^[a-z]+$")));
    let words = [
        "a", "bb", "ccc", "a", "bb", "A", "dd", "", "dddd", "ccc", "ccc", "x1", "zz", "a", "é",
    ];
    let data = data_of(&words);
    let files = vec![("input.txt".to_string(), data.len() as u64)];
    let mut run = processor.configure_multi_length(&files, &[1, 2, 3]).unwrap();
    let mut lines = MmapLineIterator::new(&data, "UTF-8");
    let report = processor.process_file_multi_length(
        &mut lines,
        &run.router,
        &mut run.dedups,
        &mut run.output,
    );
    assert_eq!(report.lines, 14);
    assert_eq!(report.written + report.duplicates, report.matched);
    let expected = [(3u64, 2u64, 1u64), (4, 1, 3), (3, 2, 1)];
    for (bucket, (matched, duplicates, written)) in report.buckets.iter().zip(expected) {
        assert_eq!(bucket.matched, matched);
        assert_eq!(bucket.duplicates, duplicates);
        assert_eq!(bucket.written, written);
        assert_eq!(bucket.written, bucket.matched - bucket.duplicates);
    }
    let stats = run.output.get_stats();
    assert_eq!(stats[0].1, 1);
    assert_eq!(stats[1].1, 3);
    assert_eq!(stats[2].1, 1);
    assert_eq!(processor.stats().get_matched_lines(), 10);
    assert_eq!(processor.stats().get_duplicate_lines(), 5);
    assert_eq!(
        run.output.flush_all(),
        vec![(1, b"a\n".to_vec()), (2, b"bb\ndd\nzz\n".to_vec()), (3, b"ccc\n".to_vec())]
    );
}

#[test]
fn running_twice_gives_identical_output() {
    let words = ["delta", "alpha", "delta", "omega", "alpha", "sigma", "kappa", "omega"];
    let data = data_of(&words);
    let mut first = Processor::new(config(Some(vec![5]), Some("^[a-z]+$")));
    let mut second = Processor::new(config(Some(vec![5]), Some("^[a-z]+$")));
    let one = run_single_output(&mut first, &data);
    let two = run_single_output(&mut second, &data);
    assert_eq!(one, two);
    assert_eq!(one, b"delta\nalpha\nomega\nsigma\nkappa\n".to_vec());
}

#[test]
fn scan_stops_when_a_flush_is_due_and_resumes() {
    let mut settings = config(Some(vec![4]), None);
    settings.buffer_size = 10;
    settings.single_file = true;
    let mut processor = Processor::new(settings);
    assert_eq!(processor.mode(), ProcessingMode::SingleOutput);
    let data = data_of(&["aaaa", "bbbb", "cccc", "dddd", "eeee"]);
    let files = vec![("input.txt".to_string(), data.len() as u64)];
    let mut run = processor.configure_single_output(&files).unwrap();
    assert_eq!(run.output.path(), "out/filtered_wordlist.txt");
    let mut lines = MmapLineIterator::new(&data, "UTF-8");
    let first = processor.process_file(&mut lines, &run.filter, &mut run.dedup, &mut run.output);
    assert!(!first.finished);
    assert_eq!(first.written, 2);
    assert!(run.output.needs_flush());
    assert_eq!(run.output.flush(), b"aaaa\nbbbb\n".to_vec());
    let second = processor.process_file(&mut lines, &run.filter, &mut run.dedup, &mut run.output);
    assert!(!second.finished);
    assert_eq!(run.output.flush(), b"cccc\ndddd\n".to_vec());
    let third = processor.process_file(&mut lines, &run.filter, &mut run.dedup, &mut run.output);
    assert!(third.finished);
    assert_eq!(third.written, 1);
    assert_eq!(run.output.flush(), b"eeee\n".to_vec());
    assert_eq!(run.output.lines_written(), 5);
    assert_eq!(run.output.bytes_written(), 25);
    assert_eq!(processor.stats().get_total_lines(), 5);
}

#[test]
fn multi_scan_reports_the_bucket_to_flush() {
    let mut settings = config(Some(vec![2, 3]), None);
    settings.buffer_size = 6;
    let mut processor = Processor::new(settings);
    let data = data_of(&["aa", "bbb", "cc", "dd", "eee"]);
    let files = vec![("input.txt".to_string(), data.len() as u64)];
    let mut run = processor.configure_multi_length(&files, &[2, 3]).unwrap();
    let mut lines = MmapLineIterator::new(&data, "UTF-8");
    let first = processor.process_file_multi_length(
        &mut lines,
        &run.router,
        &mut run.dedups,
        &mut run.output,
    );
    assert_eq!(first.flush_due, Some(2));
    assert!(run.output.needs_flush(2));
    assert!(!run.output.needs_flush(3));
    assert!(!run.output.needs_flush(9));
    assert_eq!(run.output.flush(2), b"aa\ncc\n".to_vec());
    assert!(run.output.flush(9).is_empty());
    let second = processor.process_file_multi_length(
        &mut lines,
        &run.router,
        &mut run.dedups,
        &mut run.output,
    );
    assert_eq!(second.flush_due, Some(3));
    let third = processor.process_file_multi_length(
        &mut lines,
        &run.router,
        &mut run.dedups,
        &mut run.output,
    );
    assert_eq!(third.flush_due, None);
    assert_eq!(
        run.output.flush_all(),
        vec![(2, b"dd\n".to_vec()), (3, b"bbb\neee\n".to_vec())]
    );
}

#[test]
fn process_line_outcomes() {
    let mut processor = Processor::new(config(Some(vec![4]), None));
    let filter = FilterConfig::new(Some(vec![4]), None).unwrap();
    let mut dedup = MemoryDeduplicator::new();
    let mut output = SingleOutputManager::new("o.txt".to_string(), 64);
    assert_eq!(
        processor.process_line("", &filter, &mut dedup, &mut output),
        LineOutcome::Skipped
    );
    assert_eq!(
        processor.process_line("\r\n", &filter, &mut dedup, &mut output),
        LineOutcome::Skipped
    );
    assert_eq!(
        processor.process_line("toolong", &filter, &mut dedup, &mut output),
        LineOutcome::Rejected
    );
    assert_eq!(
        processor.process_line("pass\r\n", &filter, &mut dedup, &mut output),
        LineOutcome::Written
    );
    assert_eq!(
        processor.process_line("pass\n", &filter, &mut dedup, &mut output),
        LineOutcome::Duplicate
    );
    // Only one terminator is removed, and no other white space.
    assert_eq!(
        processor.process_line("pas\n\n", &filter, &mut dedup, &mut output),
        LineOutcome::Written
    );
    assert_eq!(
        processor.process_line(" ab ", &filter, &mut dedup, &mut output),
        LineOutcome::Written
    );
    assert_eq!(output.flush(), b"pass\npas\n\n ab \n".to_vec());
    let stats = processor.stats();
    assert_eq!(stats.get_total_lines(), 5);
    assert_eq!(stats.get_matched_lines(), 4);
    assert_eq!(stats.get_duplicate_lines(), 1);
    assert_eq!(stats.get_error_lines(), 0);
}

#[test]
fn no_dedup_keeps_duplicates() {
    let mut settings = config(Some(vec![5]), None);
    settings.no_dedup = true;
    settings.single_file = true;
    let mut processor = Processor::new(settings);
    let data = data_of(&["alpha", "alpha", "beta", "gamma1", "alpha"]);
    assert_eq!(run_single_output(&mut processor, &data), b"alpha\nalpha\nalpha\n".to_vec());
    assert_eq!(processor.stats().get_duplicate_lines(), 0);
    assert_eq!(processor.stats().get_matched_lines(), 3);
}

#[test]
fn bloom_engine_in_a_scan_never_writes_a_word_twice() {
    let mut processor = Processor::new(config(Some(vec![3]), None));
    let filter = SingleLengthFilter::new(3, None).unwrap();
    let mut dedup = BloomDeduplicator::with_params(1 << 14, 4);
    let mut output = SingleOutputManager::new("o.txt".to_string(), 1 << 20);
    let data = data_of(&["abc", "abd", "abc", "xyz", "abd", "abc"]);
    let mut lines = MmapLineIterator::new(&data, "UTF-8");
    let report =
        processor.process_file_single_length(&mut lines, &filter, &mut dedup, &mut output);
    assert!(report.finished);
    assert_eq!(report.matched, 6);
    assert_eq!(report.written + report.duplicates, 6);
    assert!(report.duplicates >= 3);
    let written = String::from_utf8(output.flush()).unwrap();
    let words: Vec<&str> = written.lines().collect();
    for (i, word) in words.iter().enumerate() {
        assert!(!words[..i].contains(word));
    }
}

#[test]
fn undecodable_lines_are_counted_and_skipped() {
    let mut processor = Processor::new(config(Some(vec![2]), None));
    let filter = FilterConfig::new(Some(vec![2]), None).unwrap();
    let mut dedup = MemoryDeduplicator::new();
    let mut output = SingleOutputManager::new("o.txt".to_string(), 64);
    let data = data_of(&["ab", "cd"]);
    let mut lines = MmapLineIterator::new(&data, "no-such-encoding");
    let report = processor.process_file(&mut lines, &filter, &mut dedup, &mut output);
    assert!(report.finished);
    assert_eq!(report.errors, 2);
    assert_eq!(report.lines, 0);
    assert_eq!(processor.stats().get_error_lines(), 2);
    assert!(output.flush().is_empty());
}

#[test]
fn mode_selection() {
    let mut settings = config(Some(vec![4, 6]), None);
    assert_eq!(settings.mode(), ProcessingMode::MultiLength);
    settings.single_file = true;
    assert_eq!(settings.mode(), ProcessingMode::SingleOutput);
    assert_eq!(config(None, Some("a")).mode(), ProcessingMode::SingleOutput);
    assert_eq!(config(Some(vec![8]), None).mode(), ProcessingMode::SingleLength(8));
    assert_eq!(config(Some(vec![]), None).mode(), ProcessingMode::MultiLength);
}

#[test]
fn malformed_pattern_fails_configuration() {
    let processor = Processor::new(config(Some(vec![4, 6]), Some("(")));
    let files = vec![("a.txt".to_string(), 10u64)];
    assert_eq!(processor.configure_single_output(&files).err().unwrap().pattern, "(");
    assert!(processor.configure_single_length(&files, 4).is_err());
    assert!(processor.configure_multi_length(&files, &[4, 6]).is_err());
}

#[test]
fn empty_pattern_is_no_pattern() {
    let processor = Processor::new(config(Some(vec![4]), Some("")));
    let files: Vec<(String, u64)> = Vec::new();
    let run = processor.configure_single_output(&files).unwrap();
    assert!(!run.filter.has_pattern_filter());
    assert_eq!(run.filter.get_lengths(), Some(vec![4]));
}

#[test]
fn sizes_and_estimates() {
    let files = vec![("a".to_string(), 100u64), ("b".to_string(), 23u64)];
    assert_eq!(total_size(&files), 123);
    assert_eq!(total_size(&[]), 0);
    let huge = vec![("a".to_string(), u64::MAX), ("b".to_string(), 5u64)];
    assert_eq!(total_size(&huge), u64::MAX);
    assert_eq!(estimate_words(123, 1), 12);
    assert_eq!(estimate_words(1000, 3), 33);
    assert_eq!(estimate_words(9, 1), 0);
}

#[test]
fn file_counters() {
    let mut processor = Processor::new(config(None, Some("a")));
    let files = vec![("a".to_string(), 100u64), ("b".to_string(), 23u64)];
    processor.add_files(&files);
    processor.complete_file(100);
    let stats = processor.stats();
    assert_eq!(stats.get_total_files(), 2);
    assert_eq!(stats.get_total_bytes(), 123);
    assert_eq!(stats.get_processed_files(), 1);
    assert_eq!(stats.get_processed_bytes(), 100);
}

#[test]
fn planned_outputs_and_extensions() {
    let mut settings = config(Some(vec![4, 6]), None);
    settings.extensions = vec!["txt".to_string(), "lst".to_string()];
    assert!(settings.allows_extension("lst"));
    assert!(!settings.allows_extension("LST"));
    assert!(!settings.allows_extension("dic"));
    let processor = Processor::new(settings);
    assert_eq!(
        processor.planned_outputs(),
        vec!["wordlist_len4.txt".to_string(), "wordlist_len6.txt".to_string()]
    );
    let mut single = config(Some(vec![4, 6]), None);
    single.single_file = true;
    assert_eq!(
        Processor::new(single).planned_outputs(),
        vec!["filtered_wordlist.txt".to_string()]
    );
    assert!(Processor::new(config(None, Some("a"))).planned_outputs().is_empty());
}

#[test]
fn config_from_args() {
    let args = Args {
        input: "words".to_string(),
        output: Some("/tmp/out".to_string()),
        length: Some("6,4".to_string()),
        pattern: Some("^a".to_string()),
        single_file: false,
        output_name: "all.txt".to_string(),
        recursive: true,
        threads: None,
        dedup_strategy: DedupStrategy::Memory,
        memory_limit: "8GB".to_string(),
        no_dedup: true,
        stats: false,
        quiet: true,
        verbose: false,
        dry_run: true,
        buffer_size: "2KB".to_string(),
        extensions: "txt, LST".to_string(),
        preserve_order: false,
        sort: true,
    };
    let settings = ProcessorConfig::from_args(&args).unwrap();
    assert_eq!(settings.lengths, Some(vec![4, 6]));
    assert_eq!(settings.pattern, Some("^a".to_string()));
    assert_eq!(settings.output_dir, "/tmp/out");
    assert_eq!(settings.output_name, "all.txt");
    assert_eq!(settings.buffer_size, 2048);
    assert_eq!(settings.extensions, vec!["txt".to_string(), "lst".to_string()]);
    assert!(settings.recursive && settings.no_dedup && settings.dry_run && settings.sort_output);
    assert!(!settings.single_file && !settings.verbose);

    let mut bad_length = args.clone();
    bad_length.length = Some("4-".to_string());
    bad_length.buffer_size = "x".to_string();
    let err = ProcessorConfig::from_args(&bad_length).err().unwrap();
    assert!(matches!(err, ConfigError::Length(_)));
    assert_eq!(err.message(), "Invalid end value in range: ''");

    let mut bad_size = args.clone();
    bad_size.buffer_size = "x".to_string();
    let err = ProcessorConfig::from_args(&bad_size).err().unwrap();
    assert!(matches!(err, ConfigError::Size(_)));
    assert_eq!(err.message(), "Invalid size format: 'X'");
}

#[test]
fn factory_builds_the_engine_of_the_strategy() {
    let mut exact = create_deduplicator(DedupStrategy::Memory, 1000, 0, 0, 0);
    assert!(matches!(exact, DedupEngine::Sharded(_)));
    assert!(exact.insert("a"));
    assert!(!exact.insert("a"));
    assert_eq!(exact.len(), 1);
    let mut filter = create_deduplicator(DedupStrategy::Bloom, 1000, 0, 14378, 10);
    assert!(matches!(filter, DedupEngine::Bloom(_)));
    assert_eq!(filter.memory_usage(), 225 * 8);
    assert!(filter.insert("a"));
    assert!(filter.contains("a"));
    assert!(!filter.insert("a"));
}

#[test]
fn router_and_manager_work_together_without_a_bucket() {
    let mut processor = Processor::new(config(Some(vec![2, 3]), None));
    let router = MultiLengthRouter::new(vec![2, 3], None).unwrap();
    let mut dedups = vec![MemoryDeduplicator::new(), MemoryDeduplicator::new()];
    let mut output = MultiOutputManager::new("out".to_string(), "w", 64);
    output.init_lengths(&[2]);
    let data = data_of(&["aa", "bbb", "cc"]);
    let mut lines = MmapLineIterator::new(&data, "UTF-8");
    let report =
        processor.process_file_multi_length(&mut lines, &router, &mut dedups, &mut output);
    assert_eq!(report.matched, 3);
    assert_eq!(report.written, 3);
    assert_eq!(output.flush_all(), vec![(2, b"aa\ncc\n".to_vec())]);
}

#[test]
fn scan_works_on_statistics_alone() {
    let mut stats = wordlist_filter::progress::ProcessingStats::new();
    let filter = SingleLengthFilter::new(2, None).unwrap();
    let mut dedup = MemoryDeduplicator::new();
    let mut output = SingleOutputManager::new("o.txt".to_string(), 64);
    let data = data_of(&["ab", "abc", "ab", "cd"]);
    let mut lines = MmapLineIterator::new(&data, "UTF-8");
    let report = scan_lines(&mut stats, &mut lines, &filter, &mut dedup, &mut output);
    assert!(report.finished);
    assert_eq!(report.written, 2);
    assert_eq!(stats.get_total_lines(), 4);
    assert_eq!(stats.get_matched_lines(), 3);
    assert_eq!(stats.get_duplicate_lines(), 1);
    assert_eq!(output.flush(), b"ab\ncd\n".to_vec());
}

#[test]
fn run_plan() {
    let mut settings = config(Some(vec![4, 6]), None);
    let processor = Processor::new(config(Some(vec![4, 6]), None));
    assert_eq!(processor.plan(0), wordlist_filter::processor::RunPlan::NothingToDo);
    assert_eq!(
        processor.plan(3),
        wordlist_filter::processor::RunPlan::Scan(ProcessingMode::MultiLength)
    );
    settings.dry_run = true;
    let dry = Processor::new(settings);
    assert_eq!(dry.plan(0), wordlist_filter::processor::RunPlan::NothingToDo);
    assert_eq!(dry.plan(1), wordlist_filter::processor::RunPlan::DryRun);
}

fn options(length: Option<&str>, pattern: Option<&str>) -> Args {
    Args {
        input: "words.txt".to_string(),
        output: None,
        length: length.map(|l| l.to_string()),
        pattern: pattern.map(|p| p.to_string()),
        single_file: false,
        output_name: "filtered_wordlist.txt".to_string(),
        recursive: false,
        threads: None,
        dedup_strategy: DedupStrategy::Memory,
        memory_limit: "8GB".to_string(),
        no_dedup: false,
        stats: false,
        quiet: false,
        verbose: false,
        dry_run: false,
        buffer_size: "64MB".to_string(),
        extensions: "txt".to_string(),
        preserve_order: false,
        sort: false,
    }
}

#[test]
fn options_are_validated_in_order() {
    use_validation(options(Some("8"), None), true, None);
    use_validation(options(None, Some("^a")), true, None);
    use_validation(
        options(Some("x"), Some("(")),
        false,
        Some("Input path does not exist: \"words.txt\""),
    );
    use_validation(
        options(None, None),
        true,
        Some("At least one filter must be specified: --length or --pattern"),
    );
    use_validation(options(Some("9-8"), None), true, Some("Invalid range: start (9) must be <= end (8)"));
    let err = wordlist_filter::processor::validate_args(&options(Some("x"), Some("(")), true)
        .err()
        .unwrap();
    assert!(matches!(err, wordlist_filter::processor::ArgsError::Pattern(_)));
    assert!(err.message().starts_with("Invalid regex pattern '(': "));
}

fn use_validation(args: Args, input_exists: bool, expected: Option<&str>) {
    let result = wordlist_filter::processor::validate_args(&args, input_exists);
    assert_eq!(result.err().map(|e| e.message()), expected.map(|text| text.to_string()));
}

#[test]
fn buffer_size_zero_stores_every_line_at_once() {
    let mut settings = config(Some(vec![4]), None);
    settings.buffer_size = 0;
    let mut processor = Processor::new(settings);
    let data = data_of(&["aaaa", "bb", "cccc", "dd"]);
    let files = vec![("input.txt".to_string(), data.len() as u64)];
    let mut run = processor.configure_single_length(&files, 4).unwrap();
    // Nothing is pending, so no flush is due before the first line.
    assert!(!run.output.needs_flush());
    let mut lines = MmapLineIterator::new(&data, "UTF-8");
    let first = processor.process_file_single_length(
        &mut lines,
        &run.filter,
        &mut run.dedup,
        &mut run.output,
    );
    assert!(!first.finished);
    assert_eq!(first.lines, 1);
    assert_eq!(first.written, 1);
    assert_eq!(run.output.flush(), b"aaaa\n".to_vec());
    let second = processor.process_file_single_length(
        &mut lines,
        &run.filter,
        &mut run.dedup,
        &mut run.output,
    );
    assert!(!second.finished);
    assert_eq!(second.lines, 2);
    assert_eq!(run.output.flush(), b"cccc\n".to_vec());
    let third = processor.process_file_single_length(
        &mut lines,
        &run.filter,
        &mut run.dedup,
        &mut run.output,
    );
    assert!(third.finished);
    assert_eq!(third.lines, 1);
    assert!(run.output.flush().is_empty());
    assert_eq!(processor.stats().get_total_lines(), 4);
    assert_eq!(run.output.lines_written(), 2);
}

#[test]
fn buffer_size_zero_run_ends() {
    let mut settings = config(Some(vec![5]), None);
    settings.buffer_size = 0;
    settings.single_file = true;
    let mut processor = Processor::new(settings);
    let data = data_of(&["alpha", "alpha", "beta", "gamma1", "omega"]);
    assert_eq!(run_single_output(&mut processor, &data), b"alpha\nomega\n".to_vec());
}

#[test]
fn buffer_size_zero_with_buckets() {
    let mut settings = config(Some(vec![2, 3]), None);
    settings.buffer_size = 0;
    let mut processor = Processor::new(settings);
    let data = data_of(&["aa", "x", "bbb", "aa"]);
    let files = vec![("input.txt".to_string(), data.len() as u64)];
    let mut run = processor.configure_multi_length(&files, &[2, 3]).unwrap();
    assert!(!run.output.needs_flush(2));
    let mut lines = MmapLineIterator::new(&data, "UTF-8");
    let mut stored: Vec<(usize, Vec<u8>)> = Vec::new();
    let mut calls = 0;
    loop {
        let report = processor.process_file_multi_length(
            &mut lines,
            &run.router,
            &mut run.dedups,
            &mut run.output,
        );
        calls += 1;
        match report.flush_due {
            Some(length) => {
                assert!(report.written > 0);
                stored.push((length, run.output.flush(length)));
            }
            None => break,
        }
    }
    assert_eq!(calls, 3);
    assert_eq!(stored, vec![(2, b"aa\n".to_vec()), (3, b"bbb\n".to_vec())]);
    assert_eq!(processor.stats().get_duplicate_lines(), 1);
}

#[test]
fn counts_in_all_are_the_sums_of_the_buckets() {
    let mut processor = Processor::new(config(Some(vec![1, 2, 3]), None));
    let data = data_of(&["a", "bb", "ccc", "a", "bb", "dd", "", "dddd", "ccc", "zz", "a"]);
    let files = vec![("input.txt".to_string(), data.len() as u64)];
    let mut run = processor.configure_multi_length(&files, &[1, 2, 3]).unwrap();
    let mut lines = MmapLineIterator::new(&data, "UTF-8");
    let report = processor.process_file_multi_length(
        &mut lines,
        &run.router,
        &mut run.dedups,
        &mut run.output,
    );
    let matched: u64 = report.buckets.iter().map(|bucket| bucket.matched).sum();
    let duplicates: u64 = report.buckets.iter().map(|bucket| bucket.duplicates).sum();
    let written: u64 = report.buckets.iter().map(|bucket| bucket.written).sum();
    assert_eq!((matched, duplicates, written), (9, 4, 5));
    assert_eq!(report.matched, matched);
    assert_eq!(report.duplicates, duplicates);
    assert_eq!(report.written, written);
    assert_eq!(report.lines, 10);
}

#[test]
fn bit_filter_scan_writes_accepted_words_in_input_order() {
    let mut processor = Processor::new(config(Some(vec![3]), None));
    let filter = FilterConfig::new(Some(vec![3]), Some("^[a-z]+$")).unwrap();
    let mut dedup = BloomDeduplicator::with_params(1 << 16, 5);
    let mut output = SingleOutputManager::new("o.txt".to_string(), 1 << 20);
    let words = ["abc", "ABC", "xyz", "abcd", "abc", "", "klm", "xyz", "b2b", "qrs"];
    let data = data_of(&words);
    let mut lines = MmapLineIterator::new(&data, "UTF-8");
    let report = processor.process_file(&mut lines, &filter, &mut dedup, &mut output);
    assert!(report.finished);
    assert_eq!(report.lines, 9);
    assert_eq!(report.matched, 6);
    assert_eq!(report.errors, 0);
    assert_eq!(report.written + report.duplicates, 6);
    let accepted: Vec<&str> = words.iter().copied().filter(|word| filter.matches(word)).collect();
    let text = String::from_utf8(output.flush()).unwrap();
    let mut next = 0;
    for written in text.lines() {
        let found = accepted[next..].iter().position(|word| *word == written);
        assert!(found.is_some(), "{:?} is no accepted word in order", written);
        next += found.unwrap() + 1;
    }
    assert_eq!(text.lines().count() as u64, report.written);
}

#[test]
fn engine_without_a_bucket_still_deduplicates() {
    let mut processor = Processor::new(config(Some(vec![2, 3]), None));
    let router = MultiLengthRouter::new(vec![2, 3], None).unwrap();
    let mut dedups = vec![MemoryDeduplicator::new(), MemoryDeduplicator::new()];
    let mut output = MultiOutputManager::new("out".to_string(), "w", 64);
    output.init_lengths(&[2]);
    let data = data_of(&["bbb", "aa", "bbb", "ccc"]);
    let mut lines = MmapLineIterator::new(&data, "UTF-8");
    let report =
        processor.process_file_multi_length(&mut lines, &router, &mut dedups, &mut output);
    assert_eq!(report.buckets[1].matched, 3);
    assert_eq!(report.buckets[1].duplicates, 1);
    assert_eq!(report.buckets[1].written, 2);
    assert!(dedups[1].contains("bbb") && dedups[1].contains("ccc"));
    assert_eq!(dedups[1].len(), 2);
    assert_eq!(output.flush_all(), vec![(2, b"aa\n".to_vec())]);
}

#[test]
fn repeated_length_goes_to_its_first_bucket() {
    let mut processor = Processor::new(config(Some(vec![2, 2]), None));
    let router = MultiLengthRouter::new(vec![2, 2], None).unwrap();
    let mut dedups = vec![MemoryDeduplicator::new(), MemoryDeduplicator::new()];
    let mut output = MultiOutputManager::new("out".to_string(), "w", 64);
    output.init_lengths(&[2, 2]);
    let data = data_of(&["aa", "bb", "aa"]);
    let mut lines = MmapLineIterator::new(&data, "UTF-8");
    let report =
        processor.process_file_multi_length(&mut lines, &router, &mut dedups, &mut output);
    assert_eq!(report.buckets[0].written, 2);
    assert_eq!(report.buckets[1].matched, 0);
    assert!(dedups[1].is_empty());
    assert_eq!(output.flush_all(), vec![(2, b"aa\nbb\n".to_vec())]);
}

#[test]
fn scan_appends_to_the_bytes_that_were_pending() {
    let mut processor = Processor::new(config(Some(vec![3]), None));
    let filter = SingleLengthFilter::new(3, None).unwrap();
    let mut dedup = MemoryDeduplicator::new();
    let mut output = SingleOutputManager::new("o.txt".to_string(), 1 << 20);
    output.write_line("old");
    let data = data_of(&["abc", "toolong", "abc", "xyz"]);
    let mut lines = MmapLineIterator::new(&data, "UTF-8");
    let report =
        processor.process_file_single_length(&mut lines, &filter, &mut dedup, &mut output);
    assert!(report.finished);
    assert_eq!(report.written, 2);
    assert_eq!(output.flush(), b"old\nabc\nxyz\n".to_vec());
    assert!(output.flush().is_empty());
}

#[test]
fn bucket_without_new_lines_keeps_its_bytes() {
    let mut processor = Processor::new(config(Some(vec![2, 3]), None));
    let router = MultiLengthRouter::new(vec![2, 3], None).unwrap();
    let mut dedups = vec![MemoryDeduplicator::new(), MemoryDeduplicator::new()];
    let mut output = MultiOutputManager::new("out".to_string(), "w", 1 << 20);
    output.init_lengths(&[2, 3, 7]);
    output.write_line("old", 3);
    output.write_line("unknown", 7);
    output.write_line("zz", 2);
    let data = data_of(&["aa", "bb", "aa", "cccc"]);
    let mut lines = MmapLineIterator::new(&data, "UTF-8");
    let report =
        processor.process_file_multi_length(&mut lines, &router, &mut dedups, &mut output);
    assert_eq!(report.flush_due, None);
    assert_eq!(report.written, 2);
    assert_eq!(
        output.flush_all(),
        vec![
            (2, b"zz\naa\nbb\n".to_vec()),
            (3, b"old\n".to_vec()),
            (7, b"unknown\n".to_vec())
        ]
    );
}

#[test]
fn bloom_engine_in_a_scan_writes_no_word_it_recognized_before() {
    let mut processor = Processor::new(config(Some(vec![3]), None));
    let filter = SingleLengthFilter::new(3, None).unwrap();
    let mut dedup = BloomDeduplicator::with_params(1 << 14, 4);
    assert!(dedup.insert("abc"));
    let mut output = SingleOutputManager::new("o.txt".to_string(), 1 << 20);
    let data = data_of(&["abc", "xyz", "abc", "xyz"]);
    let mut lines = MmapLineIterator::new(&data, "UTF-8");
    let report =
        processor.process_file_single_length(&mut lines, &filter, &mut dedup, &mut output);
    assert!(report.finished);
    assert_eq!(report.matched, 4);
    assert!(report.duplicates >= 3);
    assert_eq!(report.written + report.duplicates, 4);
    let written = String::from_utf8(output.flush()).unwrap();
    assert!(written.lines().all(|word| word == "xyz"));
    assert!(written.lines().count() <= 1);
    assert!(dedup.contains("abc") && dedup.contains("xyz"));
}

#[test]
fn two_scans_of_the_same_lines_do_the_same() {
    let data = data_of(&["delta", "alpha", "delta", "omega", "four", "alpha"]);
    let general = FilterConfig::new(Some(vec![5]), None).unwrap();
    let single = SingleLengthFilter::new(5, None).unwrap();
    let mut first_processor = Processor::new(config(Some(vec![5]), None));
    let mut second_processor = Processor::new(config(Some(vec![5]), None));
    let mut first_dedup = MemoryDeduplicator::new();
    let mut second_dedup = MemoryDeduplicator::new();
    let mut first_output = SingleOutputManager::new("a.txt".to_string(), 1 << 20);
    let mut second_output = SingleOutputManager::new("b.txt".to_string(), 1 << 20);
    let mut first_lines = MmapLineIterator::new(&data, "UTF-8");
    let mut second_lines = MmapLineIterator::new(&data, "UTF-8");
    let first = first_processor.process_file(
        &mut first_lines,
        &general,
        &mut first_dedup,
        &mut first_output,
    );
    let second = second_processor.process_file_single_length(
        &mut second_lines,
        &single,
        &mut second_dedup,
        &mut second_output,
    );
    assert_eq!(first, second);
    assert_eq!(first.written, 3);
    assert_eq!(first.duplicates, 2);
    assert_eq!(first_dedup.len(), second_dedup.len());
    let bytes = first_output.flush();
    assert_eq!(bytes, second_output.flush());
    assert_eq!(bytes, b"delta\nalpha\nomega\n".to_vec());
}
