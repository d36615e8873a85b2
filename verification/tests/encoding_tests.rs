use wordlist_filter::encoding::{
    decode_line_buffer, detect_bom, detect_encoding, rate_guess, Bom, EncodingInfo, LineError,
    MmapLineIterator,
};

fn all_lines(data: &[u8], encoding: &str) -> Vec<Result<String, LineError>> {
    let mut lines = MmapLineIterator::new(data, encoding);
    let mut found = Vec::new();
    while let Some(line) = lines.next_line() {
        found.push(line);
    }
    found
}

#[test]
fn test_utf8_detection() {
    let mut sample = Vec::new();
    sample.extend_from_slice("Hello, World!\n".as_bytes());
    sample.extend_from_slice("Привет мир!\n".as_bytes());

    let info = detect_encoding(&sample);
    assert_eq!(info.name, "UTF-8");
}

#[test]
fn test_line_iterator() {
    let data = b"line1\nline2\nline3\n";

    let lines: Vec<String> = all_lines(data, "UTF-8").into_iter().filter_map(|r| r.ok()).collect();

    assert_eq!(lines, vec!["line1", "line2", "line3"]);
}

#[test]
fn bom_detection() {
    assert_eq!(detect_bom(&[0xEF, 0xBB, 0xBF, b'a']), Some(Bom::Utf8));
    assert_eq!(detect_bom(&[0xFE, 0xFF]), Some(Bom::Utf16Be));
    assert_eq!(detect_bom(&[0xFF, 0xFE, 0x00]), Some(Bom::Utf16Le));
    assert_eq!(detect_bom(&[0xEF, 0xBB]), None);
    assert_eq!(detect_bom(&[0xFF]), None);
    assert_eq!(detect_bom(&[]), None);
    assert_eq!(detect_bom(b"plain"), None);
    assert_eq!(Bom::Utf8.encoding_name(), "UTF-8");
    assert_eq!(Bom::Utf16Be.encoding_name(), "UTF-16BE");
    assert_eq!(Bom::Utf16Le.encoding_name(), "UTF-16LE");
    assert_eq!(Bom::Utf8.len(), 3);
    assert_eq!(Bom::Utf16Le.len(), 2);
}

#[test]
fn detection_of_empty_and_marked_samples() {
    let empty = detect_encoding(&[]);
    assert_eq!(empty.name, "UTF-8");
    assert_eq!(empty.confidence, 100);
    let marked = detect_encoding(&[0xFF, 0xFE, b'a', 0x00]);
    assert_eq!(marked.name, "UTF-16LE");
    assert_eq!(marked.confidence, 100);
    let default = EncodingInfo::default();
    assert_eq!(default.name, "UTF-8");
    assert_eq!(default.confidence, 100);
}

#[test]
fn detection_confidence() {
    let plain = detect_encoding("some plain words\nand more\n".as_bytes());
    assert_eq!(plain.name, "UTF-8");
    assert_eq!(plain.confidence, 100);
    // Latin-1 text: é as the single byte E9.
    let latin = detect_encoding(b"caf\xE9 cr\xE8me br\xFBl\xE9e \xE0 la carte\n");
    assert_ne!(latin.name, "UTF-8");
    assert_eq!(latin.confidence, 80);
    assert_eq!(rate_guess(b"ok", "UTF-8".to_string()).confidence, 100);
    assert_eq!(rate_guess(b"\xFF\xFF", "UTF-8".to_string()).confidence, 50);
    assert_eq!(rate_guess(b"ok", "windows-1252".to_string()).confidence, 80);
    assert_eq!(rate_guess(b"ok", "windows-1252".to_string()).name, "windows-1252");
}

#[test]
fn lines_are_cut_at_line_feeds() {
    assert_eq!(
        all_lines(b"a\r\nb\n\nlast", "UTF-8"),
        vec![Ok("a".to_string()), Ok("b".to_string()), Ok("".to_string()), Ok("last".to_string())]
    );
    assert!(all_lines(b"", "UTF-8").is_empty());
    assert_eq!(all_lines(b"\n", "UTF-8"), vec![Ok("".to_string())]);
    // Only one carriage return goes with the line feed.
    assert_eq!(all_lines(b"a\r\r\n", "UTF-8"), vec![Ok("a\r".to_string())]);
    assert_eq!(all_lines(b"a\rb\n", "UTF-8"), vec![Ok("a\rb".to_string())]);
}

#[test]
fn iterator_starts_behind_the_mark_and_reports_its_position() {
    let data = b"\xEF\xBB\xBFone\ntwo\n";
    let mut lines = MmapLineIterator::new(data, "UTF-8");
    assert_eq!(lines.size(), 11);
    assert_eq!(lines.position(), 3);
    assert_eq!(lines.encoding(), "UTF-8");
    assert_eq!(lines.next_line(), Some(Ok("one".to_string())));
    assert_eq!(lines.position(), 7);
    assert_eq!(lines.next_line(), Some(Ok("two".to_string())));
    assert_eq!(lines.position(), 11);
    assert_eq!(lines.next_line(), None);
    assert_eq!(lines.next_line(), None);
    assert_eq!(lines.position(), 11);
    assert_eq!(MmapLineIterator::new(b"\xFE\xFFab", "UTF-16BE").position(), 2);
    assert_eq!(MmapLineIterator::new(b"ab", "UTF-8").position(), 0);
}

#[test]
fn malformed_utf8_is_decoded_lossily() {
    assert_eq!(all_lines(b"ab\xFFcd\n", "UTF-8"), vec![Ok("ab\u{FFFD}cd".to_string())]);
    assert_eq!(all_lines("héllo\n".as_bytes(), "UTF-8"), vec![Ok("héllo".to_string())]);
}

#[test]
fn other_encodings_are_transcoded() {
    assert_eq!(all_lines(b"caf\xE9\n", "windows-1252"), vec![Ok("café".to_string())]);
    assert_eq!(all_lines(b"caf\xE9\n", "latin1"), vec![Ok("café".to_string())]);
    assert_eq!(
        all_lines(b"x\n", "no-such-encoding"),
        vec![Err(LineError::UnknownEncoding)]
    );
}

#[test]
fn line_buffers_lose_all_trailing_terminators() {
    assert_eq!(decode_line_buffer("UTF-8", b"word\r\n"), Ok("word".to_string()));
    assert_eq!(decode_line_buffer("UTF-8", b"word\n\r\n\n"), Ok("word".to_string()));
    assert_eq!(decode_line_buffer("UTF-8", b"word"), Ok("word".to_string()));
    assert_eq!(decode_line_buffer("UTF-8", b"\n"), Ok("".to_string()));
    assert_eq!(decode_line_buffer("UTF-8", b"a\nb\n"), Ok("a\nb".to_string()));
    assert_eq!(decode_line_buffer("UTF-8", b"\xFF\n"), Ok("\u{FFFD}".to_string()));
    assert_eq!(decode_line_buffer("windows-1252", b"\xE9\n"), Ok("é".to_string()));
    assert_eq!(decode_line_buffer("nothing", b"a\n"), Err(LineError::UnknownEncoding));
}
