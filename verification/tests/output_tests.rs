use wordlist_filter::output::{
    bucket_file_name, generate_output_name, output_name_for, Flushed, MultiOutputManager, OutputMode,
    OutputWriter, SingleOutputManager,
};

#[test]
fn test_output_writer() {
    let mut writer = OutputWriter::new("test.txt".to_string(), 1024);
    writer.write_line("hello");
    writer.write_line("world");
    let content = writer.flush();

    assert_eq!(writer.lines_written(), 2);

    assert_eq!(String::from_utf8(content).unwrap(), "hello\nworld\n");
}

#[test]
fn test_generate_output_name() {
    let name = generate_output_name("/path/to/rockyou.txt", "len8");
    assert_eq!(name, "rockyou_len8.txt");
}

#[test]
fn output_name_without_stem_is_output() {
    assert_eq!(generate_output_name("", "x"), "output_x.txt");
    assert_eq!(generate_output_name("/", "x"), "output_x.txt");
    assert_eq!(generate_output_name("dir/..", "x"), "output_x.txt");
    assert_eq!(output_name_for(None, "len8"), "output_len8.txt");
    assert_eq!(output_name_for(Some("list"), "len8"), "list_len8.txt");
}

#[test]
fn output_name_keeps_inner_dots() {
    assert_eq!(generate_output_name("a/b.c.txt", "s"), "b.c_s.txt");
    assert_eq!(generate_output_name(".hidden", "s"), ".hidden_s.txt");
}

#[test]
fn bucket_file_names() {
    assert_eq!(bucket_file_name("wordlist", 8), "wordlist_len8.txt");
    assert_eq!(bucket_file_name("w", 0), "w_len0.txt");
    assert_eq!(bucket_file_name("", 1234567890), "_len1234567890.txt");
}

#[test]
fn writer_counts_bytes_and_buffers() {
    let mut writer = OutputWriter::new("out.txt".to_string(), 8);
    assert_eq!(writer.path(), "out.txt");
    assert!(!writer.needs_flush());
    writer.write_line("héllo");
    assert_eq!(writer.bytes_written(), 7);
    assert!(!writer.needs_flush());
    writer.write("ab");
    assert!(writer.needs_flush());
    assert_eq!(writer.lines_written(), 1);
    assert_eq!(writer.bytes_written(), 9);
    assert_eq!(writer.flush(), "héllo\nab".as_bytes().to_vec());
    assert!(!writer.needs_flush());
    assert!(writer.flush().is_empty());
    writer.write_line("");
    assert_eq!(writer.flush(), b"\n".to_vec());
    assert_eq!(writer.lines_written(), 2);
    assert_eq!(writer.bytes_written(), 10);
}

#[test]
fn test_multi_output_manager() {
    let mut manager =
        MultiOutputManager::new("out".to_string(), "wordlist", 1024);

    manager.init_lengths(&[8, 10]);

    manager.write_line("password", 8);
    manager.write_line("verysecret", 10);
    manager.flush_all();

    let stats = manager.get_stats();
    assert_eq!(stats.len(), 2);
}

#[test]
fn manager_routes_by_length_and_ignores_unknown_lengths() {
    let mut manager =
        MultiOutputManager::new("dir".to_string(), "w", 4);
    assert!(manager.lengths().is_empty());
    manager.init_lengths(&[10, 8, 10]);
    assert_eq!(manager.lengths(), vec![8, 10]);
    manager.write_line("password", 8);
    manager.write_line("dropped", 7);
    manager.write_line("verysecret", 10);
    manager.write_line("drowssap", 8);
    assert_eq!(manager.get_stats(), vec![(8, 2, 18), (10, 1, 11)]);
    assert_eq!(
        manager.get_paths(),
        vec![(8, "dir/w_len8.txt".to_string()), (10, "dir/w_len10.txt".to_string())]
    );
    assert!(manager.needs_flush(8));
    assert_eq!(
        manager.flush_all(),
        vec![(8, b"password\ndrowssap\n".to_vec()), (10, b"verysecret\n".to_vec())]
    );
    assert_eq!(manager.flush_all(), vec![(8, Vec::new()), (10, Vec::new())]);
    assert_eq!(manager.get_stats(), vec![(8, 2, 18), (10, 1, 11)]);
}

#[test]
fn get_or_create_keeps_an_existing_bucket() {
    let mut manager =
        MultiOutputManager::new("dir".to_string(), "w", 64);
    assert_eq!(manager.get_or_create(5).path(), "dir/w_len5.txt");
    manager.write_line("hello", 5);
    assert_eq!(manager.get_or_create(5).lines_written(), 1);
    assert_eq!(manager.get_or_create(6).lines_written(), 0);
    assert_eq!(manager.lengths(), vec![5, 6]);
    // A bucket that is initialized again starts empty.
    manager.init_lengths(&[5]);
    assert_eq!(manager.get_stats(), vec![(5, 0, 0), (6, 0, 0)]);
}

#[test]
fn output_mode_single_and_multi() {
    let mut single = OutputMode::single("all.txt".to_string(), 64);
    single.write_line("one", 3);
    single.write_line("three", 5);
    match single.flush() {
        Flushed::Single(bytes) => assert_eq!(bytes, b"one\nthree\n".to_vec()),
        Flushed::Multi(_) => panic!("single mode flushed as multi"),
    }
    let mut multi = OutputMode::multi("d".to_string(), "p", &[3, 5], 64);
    multi.write_line("one", 3);
    multi.write_line("three", 5);
    multi.write_line("four", 4);
    match multi.flush() {
        Flushed::Multi(chunks) => {
            assert_eq!(chunks, vec![(3, b"one\n".to_vec()), (5, b"three\n".to_vec())])
        }
        Flushed::Single(_) => panic!("multi mode flushed as single"),
    }
}

#[test]
fn single_manager_delegates() {
    let mut manager = SingleOutputManager::new("p.txt".to_string(), 4);
    assert_eq!(manager.path(), "p.txt");
    manager.write_line("ab");
    assert!(!manager.needs_flush());
    manager.write_line("c");
    assert!(manager.needs_flush());
    assert_eq!(manager.lines_written(), 2);
    assert_eq!(manager.bytes_written(), 5);
    assert_eq!(manager.flush(), b"ab\nc\n".to_vec());
}

#[test]
fn flush_is_due_only_with_something_pending() {
    let mut unbuffered = OutputWriter::new("o.txt".to_string(), 0);
    assert!(!unbuffered.needs_flush());
    unbuffered.write_line("");
    assert!(unbuffered.needs_flush());
    assert_eq!(unbuffered.flush(), b"\n".to_vec());
    assert!(!unbuffered.needs_flush());
    let mut exact = OutputWriter::new("o.txt".to_string(), 3);
    exact.write_line("a");
    assert!(!exact.needs_flush());
    exact.write("b");
    assert!(exact.needs_flush());
}
