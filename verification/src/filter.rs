//! Filter predicates: by length, by pattern, and the router that assigns a
//! word to a length bucket.

pub mod patterns;

use crate::cli::{sorted_lengths, strictly_increasing};
use std::collections::HashSet;
use vstd::prelude::*;
use vstd::std_specs::iter::IteratorSpec;
use vstd::string::StrSliceExecFns;
use vstd::string::StringExecFns;

verus! {

broadcast use vstd::std_specs::hash::group_hash_axioms;

/// `regex::Regex`: a compiled pattern, carried as it is.
#[verifier::external_type_specification]
#[verifier::external_body]
pub struct ExRegex(regex::Regex);

/// `regex::Error`: why a pattern was refused, carried as it is.
#[verifier::external_type_specification]
#[verifier::external_body]
pub struct ExRegexError(regex::Error);

/// The pattern text that a compiled regex was built from.
pub uninterp spec fn regex_source(re: regex::Regex) -> Seq<char>;

/// Whether the regex engine accepts `pattern` as a pattern.
pub uninterp spec fn pattern_compiles(pattern: Seq<char>) -> bool;

/// Whether the regex that the engine compiles from `pattern` finds a match
/// anywhere in `text`.
pub uninterp spec fn pattern_matches(pattern: Seq<char>, text: Seq<char>) -> bool;

/// Whether a compiled regex finds a match anywhere in `text`.
pub uninterp spec fn regex_matches(re: regex::Regex, text: Seq<char>) -> bool;

/// Whether a regex is what the engine compiles from `pattern`: it keeps the
/// text of the pattern and matches what the pattern matches.
pub open spec fn compiled_from(re: regex::Regex, pattern: Seq<char>) -> bool {
    &&& regex_source(re) == pattern
    &&& forall|text: Seq<char>| #[trigger] regex_matches(re, text) == pattern_matches(pattern, text)
}

/// `Regex::new` accepts or rejects a pattern by its text alone. The regex
/// it compiles keeps that text, and what it matches depends on that text
/// alone.
pub assume_specification[ regex::Regex::new ](re: &str) -> (result: Result<regex::Regex, regex::Error>)
    ensures
        result is Ok <==> pattern_compiles(re@),
        result matches Ok(compiled) ==> regex_source(compiled) == re@,
        result matches Ok(compiled) ==> forall|text: Seq<char>| #[trigger]
            regex_matches(compiled, text) == pattern_matches(re@, text),
;

/// `Regex::is_match` tells whether the regex matches anywhere in the
/// haystack; the answer depends on the regex and the haystack alone.
pub assume_specification[ regex::Regex::is_match ](re: &regex::Regex, haystack: &str) -> (matched:
    bool)
    ensures
        matched == regex_matches(*re, haystack@),
;

/// `Regex::as_str` returns the pattern text that the regex was built from.
pub assume_specification<'a>[ regex::Regex::as_str ](re: &'a regex::Regex) -> (text: &'a str)
    ensures
        text@ == regex_source(*re),
;

/// The text that `regex::Error` displays. Nothing is claimed of it.
#[verifier::external_body]
fn regex_error_text(error: &regex::Error) -> String {
    format!("{}", error)
}

/// A pattern that the regex engine rejected.
#[derive(Debug)]
pub struct PatternError {
    /// The rejected pattern.
    pub pattern: String,
    /// The engine's explanation.
    pub reason: String,
}

impl PatternError {
    /// The text of `message`.
    pub open spec fn message_text(&self) -> Seq<char> {
        "Invalid regex pattern '"@ + self.pattern@ + "': "@ + self.reason@
    }

    /// A one-line description of the error.
    pub fn message(&self) -> (text: String)
        ensures
            text@ == self.message_text(),
    {
        let mut text: String = String::from_str("Invalid regex pattern '");
        text.append(self.pattern.as_str());
        text.append("': ");
        text.append(self.reason.as_str());
        text
    }
}

/// Whether an optional compiled pattern lets `word` pass: no pattern lets
/// every word pass.
pub open spec fn pattern_allows(pattern: Option<regex::Regex>, word: Seq<char>) -> bool {
    pattern matches Some(re) ==> regex_matches(re, word)
}

/// The compiled form that a pattern argument stands for: none when the
/// argument is absent or empty.
pub open spec fn pattern_selected(pattern: Option<&str>, compiled: Option<regex::Regex>) -> bool {
    match pattern {
        Some(p) if p@.len() > 0 => compiled matches Some(re) && compiled_from(re, p@),
        _ => compiled is None,
    }
}

/// Whether a pattern argument can be compiled: an absent or empty one
/// always can.
pub open spec fn pattern_usable(pattern: Option<&str>) -> bool {
    pattern matches Some(p) ==> p@.len() > 0 ==> pattern_compiles(p@)
}

/// Compiles an optional pattern. An absent or empty pattern gives no regex.
fn compile_optional(pattern: Option<&str>) -> (result: Result<Option<regex::Regex>, PatternError>)
    ensures
        result is Ok <==> pattern_usable(pattern),
        result matches Ok(compiled) ==> pattern_selected(pattern, compiled),
        result matches Err(e) ==> pattern matches Some(p) && e.pattern@ == p@,
{
    match pattern {
        Some(p) => {
            if p.is_empty() {
                Ok(None)
            } else {
                match regex::Regex::new(p) {
                    Ok(re) => Ok(Some(re)),
                    Err(e) => Err(
                        PatternError { pattern: String::from_str(p), reason: regex_error_text(&e) },
                    ),
                }
            }
        },
        None => Ok(None),
    }
}

fn optional_match(pattern: &Option<regex::Regex>, word: &str) -> (allowed: bool)
    ensures
        allowed == pattern_allows(*pattern, word@),
{
    match pattern {
        Some(re) => re.is_match(word),
        None => true,
    }
}

/// Filter configuration
#[derive(Debug, Clone)]
pub struct FilterConfig {
    /// Lengths to include (None means no length filter)
    pub lengths: Option<HashSet<usize>>,
    /// Regex pattern to match (None means no pattern filter)
    pub pattern: Option<regex::Regex>,
}

impl FilterConfig {
    /// Whether `word` passes: its length in characters is one of the
    /// configured lengths, if any are configured, and the pattern, if any,
    /// matches somewhere in it.
    pub open spec fn accepts(&self, word: Seq<char>) -> bool {
        &&& self.lengths matches Some(lengths) ==> word.len() <= usize::MAX && lengths@.contains(
            word.len() as usize,
        )
        &&& pattern_allows(self.pattern, word)
    }

    /// Create a new filter configuration
    pub fn new(lengths: Option<Vec<usize>>, pattern: Option<&str>) -> (result: Result<
        Self,
        PatternError,
    >)
        ensures
            result is Ok <==> pattern_usable(pattern),
            result matches Ok(config) ==> {
                &&& pattern_selected(pattern, config.pattern)
                &&& match lengths {
                    Some(list) => config.lengths matches Some(set) && set@ == list@.to_set(),
                    None => config.lengths is None,
                }
            },
            result matches Err(e) ==> pattern matches Some(p) && e.pattern@ == p@,
    {
        let lengths: Option<HashSet<usize>> = match lengths {
            Some(list) => {
                let mut set: HashSet<usize> = HashSet::new();
                let mut i: usize = 0;
                while i < list.len()
                    invariant
                        i <= list@.len(),
                        set@ == list@.take(i as int).to_set(),
                    decreases list@.len() - i,
                {
                    set.insert(list[i]);
                    proof {
                        assert(list@.take(i + 1) == list@.take(i as int).push(list@[i as int]));
                        assert(list@.take(i + 1).to_set() =~= list@.take(i as int).to_set().insert(
                            list@[i as int],
                        )) by {
                            let shorter = list@.take(i as int);
                            let longer = list@.take(i + 1);
                            assert forall|x: usize| longer.to_set().contains(x) == shorter.to_set().insert(
                                list@[i as int],
                            ).contains(x) by {
                                if longer.contains(x) {
                                    let j = choose|j: int| 0 <= j < longer.len() && longer[j] == x;
                                    if j < i {
                                        assert(shorter[j] == x);
                                    }
                                }
                                if shorter.contains(x) {
                                    let j = choose|j: int| 0 <= j < shorter.len() && shorter[j] == x;
                                    assert(longer[j] == x);
                                }
                                if x == list@[i as int] {
                                    assert(longer[i as int] == x);
                                }
                            }
                        }
                    }
                    i = i + 1;
                }
                proof {
                    assert(list@.take(i as int) == list@);
                }
                Some(set)
            },
            None => None,
        };
        match compile_optional(pattern) {
            Ok(pattern) => Ok(FilterConfig { lengths, pattern }),
            Err(e) => Err(e),
        }
    }

    /// Check if a word matches the filter criteria
    #[inline]
    pub fn matches(&self, word: &str) -> (accepted: bool)
        ensures
            accepted == self.accepts(word@),
    {
        if let Some(lengths) = &self.lengths {
            let count: usize = word.unicode_len();
            if !lengths.contains(&count) {
                return false;
            }
        }
        optional_match(&self.pattern, word)
    }

    /// Check if a word matches a specific length
    #[inline]
    pub fn matches_length(&self, word: &str, length: usize) -> (accepted: bool)
        ensures
            accepted == (word@.len() == length && pattern_allows(self.pattern, word@)),
    {
        let word_len: usize = word.unicode_len();
        if word_len != length {
            return false;
        }
        optional_match(&self.pattern, word)
    }

    /// Get the length category for a word (for routing to correct output file)
    #[inline]
    pub fn get_length(&self, word: &str) -> (length: usize)
        ensures
            length == word@.len(),
    {
        word.unicode_len()
    }

    /// Get the configured lengths, in increasing order
    pub fn get_lengths(&self) -> (lengths: Option<Vec<usize>>)
        ensures
            match self.lengths {
                Some(set) => lengths matches Some(list) && strictly_increasing(list@) && list@.to_set()
                    == set@,
                None => lengths is None,
            },
    {
        match &self.lengths {
            Some(set) => {
                let mut list: Vec<usize> = Vec::new();
                for length in iter: set.iter()
                    invariant
                        list@.len() == iter.index(),
                        forall|j: int| 0 <= j < list@.len() ==> list@[j] == *iter.seq()[j],
                {
                    list.push(*length);
                }
                proof {
                    let all = vstd::std_specs::hash::spec_hash_keys_iter(set).remaining();
                    assert(list@ =~= all.unref());
                }
                Some(sorted_lengths(&list))
            },
            None => None,
        }
    }

    /// Check if we have any filters active
    pub fn has_filters(&self) -> (active: bool)
        ensures
            active == (self.lengths is Some || self.pattern is Some),
    {
        self.lengths.is_some() || self.pattern.is_some()
    }

    /// Check if we have a length filter
    pub fn has_length_filter(&self) -> (active: bool)
        ensures
            active == self.lengths is Some,
    {
        self.lengths.is_some()
    }

    /// Check if we have a pattern filter
    pub fn has_pattern_filter(&self) -> (active: bool)
        ensures
            active == self.pattern is Some,
    {
        self.pattern.is_some()
    }
}

/// The length of a word in characters. For a word of single-byte
/// characters only, the byte length is taken, which is the same number.
fn char_length(word: &str) -> (length: usize)
    ensures
        length == word@.len(),
{
    if word.is_ascii() {
        proof {
            vstd::string::is_ascii_spec_bytes(word);
        }
        word.as_bytes().len()
    } else {
        word.unicode_len()
    }
}

/// Optimized filter for single-length filtering
#[derive(Debug)]
pub struct SingleLengthFilter {
    length: usize,
    pattern: Option<regex::Regex>,
}

impl SingleLengthFilter {
    /// The one length that passes.
    pub closed spec fn length(&self) -> usize {
        self.length
    }

    /// The compiled pattern, if any.
    pub closed spec fn pattern(&self) -> Option<regex::Regex> {
        self.pattern
    }

    /// Whether `word` passes: it has the configured length in characters,
    /// and the pattern, if any, matches somewhere in it.
    pub open spec fn accepts(&self, word: Seq<char>) -> bool {
        word.len() == self.length() && pattern_allows(self.pattern(), word)
    }

    pub fn new(length: usize, pattern: Option<&str>) -> (result: Result<Self, PatternError>)
        ensures
            result is Ok <==> pattern_usable(pattern),
            result matches Ok(filter) ==> filter.length() == length && pattern_selected(
                pattern,
                filter.pattern(),
            ),
            result matches Err(e) ==> pattern matches Some(p) && e.pattern@ == p@,
    {
        match compile_optional(pattern) {
            Ok(pattern) => Ok(SingleLengthFilter { length, pattern }),
            Err(e) => Err(e),
        }
    }

    #[inline]
    pub fn matches(&self, word: &str) -> (accepted: bool)
        ensures
            accepted == self.accepts(word@),
    {
        if word.is_ascii() {
            proof {
                vstd::string::is_ascii_spec_bytes(word);
            }
            if word.as_bytes().len() != self.length {
                return false;
            }
        } else {
            if word.unicode_len() != self.length {
                return false;
            }
        }
        optional_match(&self.pattern, word)
    }
}

/// The first position in `lengths` that holds `length`, if any.
pub open spec fn bucket_of(lengths: Seq<usize>, length: nat) -> Option<usize> {
    if exists|i: int| 0 <= i < lengths.len() && lengths[i] == length {
        Some(lengths.index_of_first(length as usize)->0 as usize)
    } else {
        None
    }
}

/// Multi-output filter that routes words to different length buckets
pub struct MultiLengthRouter {
    lengths: Vec<usize>,
    pattern: Option<regex::Regex>,
}

impl MultiLengthRouter {
    /// The bucket lengths, in bucket order.
    pub closed spec fn bucket_lengths(&self) -> Seq<usize> {
        self.lengths@
    }

    /// The compiled pattern, if any.
    pub closed spec fn pattern(&self) -> Option<regex::Regex> {
        self.pattern
    }

    /// The bucket that `word` belongs to: none when the pattern rejects it;
    /// otherwise the first bucket whose length is the word's length in
    /// characters, if there is one.
    pub open spec fn bucket(&self, word: Seq<char>) -> Option<usize> {
        if pattern_allows(self.pattern(), word) {
            bucket_of(self.bucket_lengths(), word.len())
        } else {
            None
        }
    }

    pub fn new(lengths: Vec<usize>, pattern: Option<&str>) -> (result: Result<Self, PatternError>)
        ensures
            result is Ok <==> pattern_usable(pattern),
            result matches Ok(router) ==> router.bucket_lengths() == lengths@ && pattern_selected(
                pattern,
                router.pattern(),
            ),
            result matches Err(e) ==> pattern matches Some(p) && e.pattern@ == p@,
    {
        match compile_optional(pattern) {
            Ok(pattern) => Ok(MultiLengthRouter { lengths, pattern }),
            Err(e) => Err(e),
        }
    }

    /// Get the index of the length bucket this word belongs to, if any
    #[inline]
    pub fn route(&self, word: &str) -> (bucket: Option<usize>)
        ensures
            bucket == self.bucket(word@),
            bucket matches Some(i) ==> i < self.bucket_lengths().len() && self.bucket_lengths()[i as int]
                == word@.len(),
    {
        let word_len: usize = char_length(word);
        if !optional_match(&self.pattern, word) {
            return None;
        }
        let mut i: usize = 0;
        while i < self.lengths.len()
            invariant
                i <= self.lengths@.len(),
                word_len == word@.len(),
                pattern_allows(self.pattern, word@),
                forall|j: int| 0 <= j < i ==> self.lengths@[j] != word_len,
            decreases self.lengths@.len() - i,
        {
            if self.lengths[i] == word_len {
                proof {
                    lemma_first_position(self.lengths@, word_len, i as int);
                }
                return Some(i);
            }
            i = i + 1;
        }
        None
    }

    /// Get all configured lengths
    pub fn lengths(&self) -> (lengths: &[usize])
        ensures
            lengths@ == self.bucket_lengths(),
    {
        self.lengths.as_slice()
    }
}

/// What `bucket_of` finds: the first position that holds the length, or
/// none if no position holds it.
pub proof fn lemma_bucket_of(lengths: Seq<usize>, length: nat)
    requires
        lengths.len() <= usize::MAX,
    ensures
        match bucket_of(lengths, length) {
            Some(i) => i < lengths.len() && lengths[i as int] == length && forall|j: int|
                0 <= j < i ==> lengths[j] != length,
            None => forall|j: int| 0 <= j < lengths.len() ==> lengths[j] != length,
        },
{
    if exists|i: int| 0 <= i < lengths.len() && lengths[i] == length {
        let witness = choose|i: int| 0 <= i < lengths.len() && lengths[i] == length;
        let target = length as usize;
        assert(lengths[witness] == target);
        assert(lengths.contains(target));
        lengths.index_of_first_ensures(target);
    }
}

proof fn lemma_first_position(lengths: Seq<usize>, length: usize, i: int)
    requires
        0 <= i < lengths.len(),
        lengths[i] == length,
        forall|j: int| 0 <= j < i ==> lengths[j] != length,
    ensures
        bucket_of(lengths, length as nat) == Some(i as usize),
{
    lengths.index_of_first_ensures(length);
    let found = lengths.index_of_first(length);
    assert(lengths.contains(length));
}

/// Pattern-only filter (no length restriction)
pub struct PatternFilter {
    pattern: regex::Regex,
}

impl PatternFilter {
    /// The compiled pattern.
    pub closed spec fn pattern(&self) -> regex::Regex {
        self.pattern
    }

    /// The pattern text.
    pub open spec fn source(&self) -> Seq<char> {
        regex_source(self.pattern())
    }

    /// Whether the pattern matches somewhere in `word`.
    pub open spec fn accepts(&self, word: Seq<char>) -> bool {
        regex_matches(self.pattern(), word)
    }

    pub fn new(pattern: &str) -> (result: Result<Self, PatternError>)
        ensures
            result is Ok <==> pattern_compiles(pattern@),
            result matches Ok(filter) ==> compiled_from(filter.pattern(), pattern@),
            result matches Err(e) ==> e.pattern@ == pattern@,
    {
        match regex::Regex::new(pattern) {
            Ok(re) => Ok(PatternFilter { pattern: re }),
            Err(e) => Err(
                PatternError { pattern: String::from_str(pattern), reason: regex_error_text(&e) },
            ),
        }
    }

    #[inline]
    pub fn matches(&self, word: &str) -> (accepted: bool)
        ensures
            accepted == self.accepts(word@),
    {
        self.pattern.is_match(word)
    }

    pub fn pattern_str(&self) -> (text: &str)
        ensures
            text@ == self.source(),
    {
        self.pattern.as_str()
    }
}

/// Helper to validate a regex pattern before use
pub fn validate_pattern(pattern: &str) -> (result: Result<(), PatternError>)
    ensures
        result is Ok <==> pattern_compiles(pattern@),
        result matches Err(e) ==> e.pattern@ == pattern@,
{
    match regex::Regex::new(pattern) {
        Ok(_) => Ok(()),
        Err(e) => Err(
            PatternError { pattern: String::from_str(pattern), reason: regex_error_text(&e) },
        ),
    }
}

/// Whether two optional patterns are set up alike: both absent, or both
/// compiled from the same pattern text.
pub open spec fn same_pattern(first: Option<regex::Regex>, second: Option<regex::Regex>) -> bool {
    match (first, second) {
        (None, None) => true,
        (Some(a), Some(b)) => exists|pattern: Seq<char>|
            compiled_from(a, pattern) && compiled_from(b, pattern),
        _ => false,
    }
}

/// Patterns that are set up alike allow the same words.
pub proof fn lemma_same_pattern_allows(
    first: Option<regex::Regex>,
    second: Option<regex::Regex>,
    word: Seq<char>,
)
    requires
        same_pattern(first, second),
    ensures
        pattern_allows(first, word) == pattern_allows(second, word),
{
    if let (Some(a), Some(b)) = (first, second) {
        let pattern = choose|pattern: Seq<char>| compiled_from(a, pattern) && compiled_from(b, pattern);
        assert(regex_matches(a, word) == pattern_matches(pattern, word));
        assert(regex_matches(b, word) == pattern_matches(pattern, word));
    }
}

/// A single-length filter and a general filter that are set up with the
/// same one length and the same pattern, or both with none, decide alike on
/// every word.
pub proof fn lemma_single_length_agrees(
    config: FilterConfig,
    single: SingleLengthFilter,
    word: Seq<char>,
)
    requires
        config.lengths matches Some(lengths) && lengths@ == set![single.length()],
        same_pattern(config.pattern, single.pattern()),
    ensures
        config.accepts(word) == single.accepts(word),
{
    lemma_same_pattern_allows(config.pattern, single.pattern(), word);
}

/// General filters that are set up alike decide alike on every word: what
/// a filter accepts depends on its set of lengths and on the text of its
/// pattern alone.
pub proof fn lemma_same_setup_same_decision(first: FilterConfig, second: FilterConfig, word: Seq<char>)
    requires
        first.lengths is Some == second.lengths is Some,
        first.lengths matches Some(lengths) ==> lengths@ == second.lengths->0@,
        same_pattern(first.pattern, second.pattern),
    ensures
        first.accepts(word) == second.accepts(word),
{
    lemma_same_pattern_allows(first.pattern, second.pattern, word);
}

} // verus!
