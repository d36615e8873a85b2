use wordlist_filter::filter::patterns;
use wordlist_filter::filter::{
    validate_pattern, FilterConfig, MultiLengthRouter, PatternFilter, SingleLengthFilter,
};

#[test]
fn test_filter_config_length() {
    let config = FilterConfig::new(Some(vec![8]), None).unwrap();

    assert!(config.matches("password")); // 8 chars
    assert!(!config.matches("pass")); // 4 chars
    assert!(!config.matches("verylongpassword")); // 16 chars
}

#[test]
fn test_filter_config_pattern() {
    let config = FilterConfig::new(None, Some(r"^[a-z]+$")).unwrap();

    assert!(config.matches("password"));
    assert!(!config.matches("Password")); // Has uppercase
    assert!(!config.matches("pass123")); // Has digits
}

#[test]
fn test_filter_config_combined() {
    let config = FilterConfig::new(Some(vec![8]), Some(r"^[a-z]+$")).unwrap();

    assert!(config.matches("password")); // 8 chars, lowercase
    assert!(!config.matches("PASSWORD")); // 8 chars, uppercase
    assert!(!config.matches("pass")); // 4 chars, lowercase
}

#[test]
fn test_single_length_filter() {
    let filter = SingleLengthFilter::new(8, None).unwrap();

    assert!(filter.matches("password"));
    assert!(!filter.matches("pass"));
}

#[test]
fn test_multi_length_router() {
    let router = MultiLengthRouter::new(vec![6, 8, 10], None).unwrap();

    assert_eq!(router.route("secret"), Some(0)); // 6 chars -> index 0
    assert_eq!(router.route("password"), Some(1)); // 8 chars -> index 1
    assert_eq!(router.route("verysecret"), Some(2)); // 10 chars -> index 2
    assert_eq!(router.route("pass"), None); // 4 chars -> no match
}

#[test]
fn test_unicode_length() {
    let config = FilterConfig::new(Some(vec![5]), None).unwrap();

    assert!(config.matches("hëllo")); // 5 unicode chars
    assert!(config.matches("hello")); // 5 ascii chars
}

#[test]
fn test_pattern_filter() {
    let filter = PatternFilter::new(r"^[a-z]{4}[0-9]{4}$").unwrap();

    assert!(filter.matches("pass1234"));
    assert!(!filter.matches("password"));
    assert!(!filter.matches("PASS1234"));
}

#[test]
fn lowercase_pattern_scenario() {
    let config = FilterConfig::new(None, Some("^[a-z]+$")).unwrap();
    let passed: Vec<&str> = ["hello", "Hello", "hi_there"]
        .into_iter()
        .filter(|word| config.matches(word))
        .collect();
    assert_eq!(passed, vec!["hello"]);
}

#[test]
fn pattern_searches_unless_anchored() {
    let loose = PatternFilter::new("[0-9]").unwrap();
    assert!(loose.matches("abc1def"));
    assert_eq!(loose.pattern_str(), "[0-9]");
    let anchored = PatternFilter::new("^[0-9]$").unwrap();
    assert!(!anchored.matches("abc1def"));
    assert!(anchored.matches("1"));
}

#[test]
fn malformed_pattern_is_rejected_at_configuration() {
    let err = FilterConfig::new(Some(vec![8]), Some("foo(bar")).unwrap_err();
    assert_eq!(err.pattern, "foo(bar");
    assert!(err.message().starts_with("Invalid regex pattern 'foo(bar': "));
    assert!(err.message().len() > "Invalid regex pattern 'foo(bar': ".len());
    assert!(SingleLengthFilter::new(8, Some("[")).is_err());
    assert!(MultiLengthRouter::new(vec![8], Some("[")).is_err());
    assert!(PatternFilter::new("[").is_err());
    assert!(validate_pattern("[").is_err());
    assert!(validate_pattern("^[a-z]+$").is_ok());
}

#[test]
fn empty_pattern_means_no_pattern() {
    let config = FilterConfig::new(Some(vec![3]), Some("")).unwrap();
    assert!(!config.has_pattern_filter());
    assert!(config.has_length_filter());
    assert!(config.has_filters());
    assert!(config.matches("ABC"));
    let none = FilterConfig::new(None, None).unwrap();
    assert!(!none.has_filters());
    assert!(none.matches("anything at all"));
}

#[test]
fn single_length_and_general_filter_agree() {
    let words = ["", "a", "pass", "passw", "hëllo", "héllo!", "日本語テキ", "12345", "abc\u{0301}de"];
    for length in 0..8 {
        let general = FilterConfig::new(Some(vec![length]), None).unwrap();
        let single = SingleLengthFilter::new(length, None).unwrap();
        for word in words {
            assert_eq!(general.matches(word), single.matches(word), "{:?} at {}", word, length);
        }
    }
    let general = FilterConfig::new(Some(vec![5]), Some("^[a-z]+$")).unwrap();
    let single = SingleLengthFilter::new(5, Some("^[a-z]+$")).unwrap();
    for word in ["hello", "Hello", "hëllo", "hell"] {
        assert_eq!(general.matches(word), single.matches(word));
    }
}

#[test]
fn length_is_counted_in_characters() {
    let config = FilterConfig::new(None, None).unwrap();
    assert_eq!(config.get_length("hëllo"), 5);
    assert_eq!(config.get_length(""), 0);
    assert!(config.matches_length("hëllo", 5));
    assert!(!config.matches_length("hëllo", 6));
    let single = SingleLengthFilter::new(6, None).unwrap();
    assert!(!single.matches("hëllo"));
}

#[test]
fn router_checks_pattern_first_and_takes_first_bucket() {
    let router = MultiLengthRouter::new(vec![4, 6, 4], Some("^[a-z]+$")).unwrap();
    assert_eq!(router.lengths(), &[4, 6, 4]);
    assert_eq!(router.route("pass"), Some(0));
    assert_eq!(router.route("PASS"), None);
    assert_eq!(router.route("secret"), Some(1));
    assert_eq!(router.route("héllo"), None);
    let unicode = MultiLengthRouter::new(vec![5], None).unwrap();
    assert_eq!(unicode.route("hëllo"), Some(0));
    let empty = MultiLengthRouter::new(vec![], None).unwrap();
    assert_eq!(empty.route("pass"), None);
}

#[test]
fn pattern_constants_compile_where_supported() {
    let lower = PatternFilter::new(patterns::LOWERCASE_ONLY).unwrap();
    assert!(lower.matches("abc"));
    assert!(!lower.matches("aBc"));
    assert!(PatternFilter::new(patterns::UPPERCASE_ONLY).unwrap().matches("ABC"));
    assert!(PatternFilter::new(patterns::LETTERS_ONLY).unwrap().matches("aBc"));
    assert!(PatternFilter::new(patterns::DIGITS_ONLY).unwrap().matches("123"));
    assert!(PatternFilter::new(patterns::ALPHANUMERIC).unwrap().matches("a1B2"));
    assert!(PatternFilter::new(patterns::HAS_SPECIAL).unwrap().matches("pa$$"));
    assert!(!PatternFilter::new(patterns::HAS_SPECIAL).unwrap().matches("pass"));
    assert!(PatternFilter::new(patterns::LETTER_START_DIGIT_END).unwrap().matches("a-1"));
    assert!(PatternFilter::new(patterns::COMMON_PASSWORD).unwrap().matches("pass123"));
    // The engine has no look-ahead, so this pattern is refused.
    assert!(validate_pattern(patterns::COMPLEX_PASSWORD).is_err());
}
