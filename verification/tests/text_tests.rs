use wordlist_filter::text::{
    chars_between, chars_of, parse_usize, push_decimal, split_fields, text_of, trim_bounds,
    trim_line_end,
};

fn chars(text: &str) -> Vec<char> {
    text.chars().collect()
}

#[test]
fn characters_and_back() {
    assert_eq!(chars_of("héllo"), vec!['h', 'é', 'l', 'l', 'o']);
    assert!(chars_of("").is_empty());
    let all = chars("héllo wörld");
    assert_eq!(text_of(&all, 0, 5), "héllo");
    assert_eq!(text_of(&all, 6, 11), "wörld");
    assert_eq!(text_of(&all, 3, 3), "");
    assert_eq!(chars_between(&all, 1, 3), vec!['é', 'l']);
}

#[test]
fn fields_between_separators() {
    assert_eq!(split_fields(&chars("a,bc,,d"), ','), vec![(0, 1), (2, 4), (5, 5), (6, 7)]);
    assert_eq!(split_fields(&chars(""), ','), vec![(0, 0)]);
    assert_eq!(split_fields(&chars(","), ','), vec![(0, 0), (1, 1)]);
    assert_eq!(split_fields(&chars("abc"), '-'), vec![(0, 3)]);
    assert_eq!(split_fields(&chars("8-12"), '-'), vec![(0, 1), (2, 4)]);
}

#[test]
fn trimming_bounds() {
    let text = chars("  a b \t\n");
    assert_eq!(trim_bounds(&text, 0, text.len()), (2, 5));
    assert_eq!(trim_bounds(&text, 3, 5), (4, 5));
    let blank = chars(" \u{00A0}\u{3000} ");
    assert_eq!(trim_bounds(&blank, 0, blank.len()), (4, 4));
    assert_eq!(trim_bounds(&chars(""), 0, 0), (0, 0));
    assert_eq!(trim_bounds(&chars("x"), 0, 1), (0, 1));
}

#[test]
fn decimal_numbers_are_read() {
    assert_eq!(parse_usize(&chars("0")), Some(0));
    assert_eq!(parse_usize(&chars("007")), Some(7));
    assert_eq!(parse_usize(&chars("+42")), Some(42));
    assert_eq!(parse_usize(&chars("18446744073709551615")), Some(usize::MAX));
    assert_eq!(parse_usize(&chars("18446744073709551616")), None);
    assert_eq!(parse_usize(&chars("")), None);
    assert_eq!(parse_usize(&chars("+")), None);
    assert_eq!(parse_usize(&chars("-1")), None);
    assert_eq!(parse_usize(&chars("1 ")), None);
    assert_eq!(parse_usize(&chars("1_0")), None);
    assert_eq!(parse_usize(&chars("١٢")), None);
    assert_eq!(parse_usize(&chars("++1")), None);
}

#[test]
fn decimal_numbers_are_written() {
    let mut text = String::from("n=");
    push_decimal(&mut text, 0);
    text.push(',');
    push_decimal(&mut text, 90210);
    text.push(',');
    push_decimal(&mut text, u64::MAX);
    assert_eq!(text, "n=0,90210,18446744073709551615");
}

#[test]
fn one_line_terminator_is_removed() {
    assert_eq!(trim_line_end("word\n"), "word");
    assert_eq!(trim_line_end("word\r\n"), "word");
    assert_eq!(trim_line_end("word\r"), "word");
    assert_eq!(trim_line_end("word"), "word");
    assert_eq!(trim_line_end("word\n\n"), "word\n");
    assert_eq!(trim_line_end("word\n\r"), "word\n");
    assert_eq!(trim_line_end("word\r\r\n"), "word\r");
    assert_eq!(trim_line_end(" word "), " word ");
    assert_eq!(trim_line_end("\n"), "");
    assert_eq!(trim_line_end(""), "");
}

#[test]
fn terminator_is_removed_after_any_characters() {
    assert_eq!(trim_line_end("héllo wörld\r\n"), "héllo wörld");
    assert_eq!(trim_line_end("日本語\n"), "日本語");
    assert_eq!(trim_line_end("日本語"), "日本語");
    assert_eq!(trim_line_end("é\r"), "é");
    assert_eq!(trim_line_end("\r\n"), "");
    assert_eq!(trim_line_end("\r"), "");
    assert_eq!(trim_line_end("\n\r\n"), "\n");
}
