//! Run options and the parsing of length and size specifications.

use crate::text::{
    chars_between, chars_of, decimal_text, lemma_split_single, lowercase_text, parse_decimal, parse_usize,
    push_decimal, split_fields, split_on, text_of, trim_bounds, trimmed_text, uppercase_text,
};
use vstd::prelude::*;
use vstd::string::StringExecFns;

verus! {

/// Deduplication strategy for handling large datasets
#[derive(Debug, Clone, Copy, PartialEq, Eq, Structural)]
pub enum DedupStrategy {
    /// In-memory exact set (fastest, requires RAM)
    Memory,
    /// Bit filter (fast, probabilistic)
    Bloom,
}

/// The options of one run, as the command line gives them.
#[derive(Debug, Clone)]
pub struct Args {
    /// Input file or directory path
    pub input: String,
    /// Output directory (default: current directory)
    pub output: Option<String>,
    /// Filter by length: single (8), multiple (8,9,10), or range (8-12)
    pub length: Option<String>,
    /// Filter by regex pattern
    pub pattern: Option<String>,
    /// Combine all results into a single output file
    pub single_file: bool,
    /// Output filename for single-file mode
    pub output_name: String,
    /// Process directories recursively
    pub recursive: bool,
    /// Number of threads (default: auto-detect)
    pub threads: Option<usize>,
    /// Deduplication strategy
    pub dedup_strategy: DedupStrategy,
    /// Memory limit for in-memory deduplication (e.g., "8GB", "16GB")
    pub memory_limit: String,
    /// Disable deduplication (faster but may contain duplicates)
    pub no_dedup: bool,
    /// Show detailed statistics
    pub stats: bool,
    /// Quiet mode - minimal output
    pub quiet: bool,
    /// Verbose mode - detailed logging
    pub verbose: bool,
    /// Dry run - show what would be done without writing files
    pub dry_run: bool,
    /// Buffer size for file operations
    pub buffer_size: String,
    /// File extensions to process
    pub extensions: String,
    /// Preserve input line order (slower, more memory)
    pub preserve_order: bool,
    /// Sort output alphabetically
    pub sort: bool,
}

/// Why a length specification was refused.
#[derive(Debug)]
pub enum LengthError {
    /// A part with a dash does not have the form START-END.
    RangeFormat { part: String },
    /// The start of a range is not a number.
    RangeStart { text: String },
    /// The end of a range is not a number.
    RangeEnd { text: String },
    /// The start of a range lies after its end.
    RangeOrder { start: usize, end: usize },
    /// A part without a dash is not a number.
    Value { text: String },
}

/// The content of a `LengthError`.
pub enum LengthFault {
    RangeFormat(Seq<char>),
    RangeStart(Seq<char>),
    RangeEnd(Seq<char>),
    RangeOrder(usize, usize),
    Value(Seq<char>),
}

impl LengthError {
    /// The error as a value of texts and numbers.
    pub open spec fn fault(&self) -> LengthFault {
        match self {
            LengthError::RangeFormat { part } => LengthFault::RangeFormat(part@),
            LengthError::RangeStart { text } => LengthFault::RangeStart(text@),
            LengthError::RangeEnd { text } => LengthFault::RangeEnd(text@),
            LengthError::RangeOrder { start, end } => LengthFault::RangeOrder(*start, *end),
            LengthError::Value { text } => LengthFault::Value(text@),
        }
    }

    /// The text of `message`.
    pub open spec fn message_text(&self) -> Seq<char> {
        match self {
            LengthError::RangeFormat { part } => "Invalid length range format: '"@ + part@
                + "'. Use format: START-END (e.g., 8-12)"@,
            LengthError::RangeStart { text } => "Invalid start value in range: '"@ + text@ + "'"@,
            LengthError::RangeEnd { text } => "Invalid end value in range: '"@ + text@ + "'"@,
            LengthError::RangeOrder { start, end } => "Invalid range: start ("@ + decimal_text(
                *start as nat,
            ) + ") must be <= end ("@ + decimal_text(*end as nat) + ")"@,
            LengthError::Value { text } => "Invalid length value: '"@ + text@ + "'"@,
        }
    }

    /// A one-line description of the error.
    pub fn message(&self) -> (text: String)
        ensures
            text@ == self.message_text(),
    {
        match self {
            LengthError::RangeFormat { part } => {
                let mut out: String = String::from_str("Invalid length range format: '");
                out.append(part.as_str());
                out.append("'. Use format: START-END (e.g., 8-12)");
                out
            },
            LengthError::RangeStart { text } => {
                let mut out: String = String::from_str("Invalid start value in range: '");
                out.append(text.as_str());
                out.append("'");
                out
            },
            LengthError::RangeEnd { text } => {
                let mut out: String = String::from_str("Invalid end value in range: '");
                out.append(text.as_str());
                out.append("'");
                out
            },
            LengthError::RangeOrder { start, end } => {
                let mut out: String = String::from_str("Invalid range: start (");
                push_decimal(&mut out, *start as u64);
                out.append(") must be <= end (");
                push_decimal(&mut out, *end as u64);
                out.append(")");
                out
            },
            LengthError::Value { text } => {
                let mut out: String = String::from_str("Invalid length value: '");
                out.append(text.as_str());
                out.append("'");
                out
            },
        }
    }
}

/// What one part of a length specification stands for: the bounds of a run
/// of lengths, or the reason why it is refused. A part with a dash is a
/// range START-END; any other part is a single number.
pub open spec fn part_outcome(part: Seq<char>) -> Result<(usize, usize), LengthFault> {
    let text = trimmed_text(part);
    if text.contains('-') {
        let pieces = split_on(text, '-');
        if pieces.len() != 2 {
            Err(LengthFault::RangeFormat(text))
        } else {
            match parse_decimal(trimmed_text(pieces[0])) {
                None => Err(LengthFault::RangeStart(pieces[0])),
                Some(start) => match parse_decimal(trimmed_text(pieces[1])) {
                    None => Err(LengthFault::RangeEnd(pieces[1])),
                    Some(end) => if start > end {
                        Err(LengthFault::RangeOrder(start, end))
                    } else {
                        Ok((start, end))
                    },
                },
            }
        }
    } else {
        match parse_decimal(text) {
            None => Err(LengthFault::Value(text)),
            Some(value) => Ok((value, value)),
        }
    }
}

/// The lengths from `low` to `high`, both included.
pub open spec fn length_run(low: usize, high: usize) -> Set<usize> {
    Set::new(|x: usize| low <= x <= high)
}

/// What the parts of a length specification stand for together: the set of
/// all lengths named, or the fault of the first part that is refused.
pub open spec fn lengths_outcome(parts: Seq<Seq<char>>) -> Result<Set<usize>, LengthFault>
    decreases parts.len(),
{
    if parts.len() == 0 {
        Ok(Set::empty())
    } else {
        match lengths_outcome(parts.drop_last()) {
            Err(fault) => Err(fault),
            Ok(set) => match part_outcome(parts.last()) {
                Err(fault) => Err(fault),
                Ok((low, high)) => Ok(set.union(length_run(low, high))),
            },
        }
    }
}

/// What a length specification as it is typed stands for.
pub open spec fn typed_lengths_outcome(text: Seq<char>) -> Result<Set<usize>, LengthFault> {
    lengths_outcome(split_on(text, ','))
}

/// Whether each value is smaller than the next.
pub open spec fn strictly_increasing(list: Seq<usize>) -> bool {
    forall|i: int, j: int| 0 <= i < j < list.len() ==> list[i] < list[j]
}

proof fn lemma_push_to_set(list: Seq<usize>, value: usize)
    ensures
        list.push(value).to_set() == list.to_set().insert(value),
{
    let longer = list.push(value);
    assert forall|x: usize| longer.to_set().contains(x) == list.to_set().insert(value).contains(x) by {
        if longer.contains(x) {
            let j = choose|j: int| 0 <= j < longer.len() && longer[j] == x;
            if j < list.len() {
                assert(list[j] == x);
            }
        }
        if list.contains(x) {
            let j = choose|j: int| 0 <= j < list.len() && list[j] == x;
            assert(longer[j] == x);
        }
        if x == value {
            assert(longer[list.len() as int] == x);
        }
    }
    assert(longer.to_set() =~= list.to_set().insert(value));
}

fn holds_length(list: &Vec<usize>, value: usize) -> (found: bool)
    ensures
        found == list@.contains(value),
{
    let mut i: usize = 0;
    while i < list.len()
        invariant
            i <= list@.len(),
            forall|j: int| 0 <= j < i ==> list@[j] != value,
        decreases list@.len() - i,
    {
        if list[i] == value {
            return true;
        }
        i = i + 1;
    }
    false
}

/// The values of `list` in increasing order.
pub(crate) fn sorted_lengths(list: &Vec<usize>) -> (sorted: Vec<usize>)
    requires
        list@.no_duplicates(),
    ensures
        strictly_increasing(sorted@),
        sorted@.to_set() == list@.to_set(),
{
    let mut sorted: Vec<usize> = Vec::new();
    let mut i: usize = 0;
    proof {
        assert(list@.take(0).to_set() =~= Set::<usize>::empty());
        assert(sorted@.to_set() =~= Set::<usize>::empty());
    }
    while i < list.len()
        invariant
            i <= list@.len(),
            list@.no_duplicates(),
            strictly_increasing(sorted@),
            sorted@.to_set() == list@.take(i as int).to_set(),
        decreases list@.len() - i,
    {
        let value: usize = list[i];
        let mut at: usize = 0;
        while at < sorted.len() && sorted[at] < value
            invariant
                at <= sorted@.len(),
                strictly_increasing(sorted@),
                forall|j: int| 0 <= j < at ==> sorted@[j] < value,
            decreases sorted@.len() - at,
        {
            at = at + 1;
        }
        proof {
            let prefix = list@.take(i as int);
            assert(!prefix.contains(value)) by {
                if prefix.contains(value) {
                    let j = choose|j: int| 0 <= j < prefix.len() && prefix[j] == value;
                    assert(list@[j] == list@[i as int]);
                }
            }
            assert(!sorted@.contains(value)) by {
                assert(!sorted@.to_set().contains(value));
            }
            assert(list@.take(i + 1) == prefix.push(value));
            lemma_push_to_set(prefix, value);
            let longer = sorted@.insert(at as int, value);
            assert forall|a: int, b: int| 0 <= a < b < longer.len() implies longer[a] < longer[b] by {
                if b == at {
                    assert(longer[a] == sorted@[a]);
                } else if a == at {
                    assert(longer[b] == sorted@[b - 1]);
                    assert(sorted@.contains(sorted@[at as int]));
                    if b - 1 > at {
                        assert(sorted@[at as int] < sorted@[b - 1]);
                    }
                } else {
                    let a0 = if a < at { a } else { a - 1 };
                    let b0 = if b < at { b } else { b - 1 };
                    assert(longer[a] == sorted@[a0]);
                    assert(longer[b] == sorted@[b0]);
                }
            }
            assert(longer.to_set() =~= sorted@.to_set().insert(value)) by {
                assert forall|x: usize| longer.to_set().contains(x) == sorted@.to_set().insert(
                    value,
                ).contains(x) by {
                    if longer.contains(x) {
                        let j = choose|j: int| 0 <= j < longer.len() && longer[j] == x;
                        if j < at {
                            assert(sorted@[j] == x);
                        } else if j > at {
                            assert(sorted@[j - 1] == x);
                        }
                    }
                    if sorted@.contains(x) {
                        let j = choose|j: int| 0 <= j < sorted@.len() && sorted@[j] == x;
                        if j < at {
                            assert(longer[j] == x);
                        } else {
                            assert(longer[j + 1] == x);
                        }
                    }
                    if x == value {
                        assert(longer[at as int] == x);
                    }
                }
            }
        }
        sorted.insert(at, value);
        i = i + 1;
    }
    proof {
        assert(list@.take(i as int) == list@);
    }
    sorted
}

/// Reads one trimmed piece of a range as a number.
fn parse_piece(chars: &Vec<char>, from: usize, to: usize) -> (value: Option<usize>)
    requires
        from <= to <= chars@.len(),
    ensures
        value == parse_decimal(trimmed_text(chars@.subrange(from as int, to as int))),
{
    let (low, high): (usize, usize) = trim_bounds(chars, from, to);
    let digits: Vec<char> = chars_between(chars, low, high);
    parse_usize(&digits)
}

fn whole_text(chars: &Vec<char>) -> (text: String)
    ensures
        text@ == chars@,
{
    let text: String = text_of(chars, 0, chars.len());
    proof {
        assert(chars@.subrange(0, chars@.len() as int) == chars@);
    }
    text
}

/// Reads one part of a length specification.
fn parse_part(chars: &Vec<char>, from: usize, to: usize) -> (result: Result<(usize, usize), LengthError>)
    requires
        from <= to <= chars@.len(),
    ensures
        match part_outcome(chars@.subrange(from as int, to as int)) {
            Ok(bounds) => result == Ok::<(usize, usize), LengthError>(bounds),
            Err(fault) => result matches Err(e) && e.fault() == fault,
        },
{
    let (low, high): (usize, usize) = trim_bounds(chars, from, to);
    let text: Vec<char> = chars_between(chars, low, high);
    let pieces: Vec<(usize, usize)> = split_fields(&text, '-');
    proof {
        lemma_split_single(text@, '-');
    }
    if pieces.len() > 1 {
        if pieces.len() != 2 {
            return Err(LengthError::RangeFormat { part: whole_text(&text) });
        }
        let (a0, a1): (usize, usize) = pieces[0];
        let (b0, b1): (usize, usize) = pieces[1];
        let start: usize = match parse_piece(&text, a0, a1) {
            Some(value) => value,
            None => {
                return Err(LengthError::RangeStart { text: text_of(&text, a0, a1) });
            },
        };
        let end: usize = match parse_piece(&text, b0, b1) {
            Some(value) => value,
            None => {
                return Err(LengthError::RangeEnd { text: text_of(&text, b0, b1) });
            },
        };
        if start > end {
            return Err(LengthError::RangeOrder { start, end });
        }
        Ok((start, end))
    } else {
        match parse_usize(&text) {
            Some(value) => Ok((value, value)),
            None => Err(LengthError::Value { text: whole_text(&text) }),
        }
    }
}

/// Adds the lengths from `low` to `high` that `lengths` does not hold yet.
fn add_run(lengths: &mut Vec<usize>, low: usize, high: usize)
    requires
        low <= high,
        old(lengths)@.no_duplicates(),
    ensures
        final(lengths)@.no_duplicates(),
        final(lengths)@.to_set() == old(lengths)@.to_set().union(length_run(low, high)),
{
    let mut current: usize = low;
    let mut more: bool = true;
    let ghost mut upto: int = low as int;
    proof {
        assert(lengths@.to_set() =~= old(lengths)@.to_set().union(
            Set::new(|x: usize| low <= x < upto),
        ));
    }
    while more
        invariant
            low <= current <= high,
            more ==> upto == current,
            !more ==> upto == high + 1,
            lengths@.no_duplicates(),
            lengths@.to_set() == old(lengths)@.to_set().union(Set::new(|x: usize| low <= x < upto)),
        decreases high - current + (if more { 1int } else { 0int }),
    {
        let ghost before = lengths@;
        if !holds_length(lengths, current) {
            lengths.push(current);
            proof {
                lemma_push_to_set(before, current);
            }
        }
        proof {
            assert(lengths@.to_set() =~= old(lengths)@.to_set().union(
                Set::new(|x: usize| low <= x < upto + 1),
            )) by {
                assert(before.to_set().contains(current) == before.contains(current));
            }
            upto = upto + 1;
        }
        if current == high {
            more = false;
        } else {
            current = current + 1;
        }
    }
    proof {
        assert(Set::new(|x: usize| low <= x < upto) =~= length_run(low, high));
    }
}

/// Why a size was refused.
#[derive(Debug)]
pub enum SizeError {
    /// The number before the unit is not a decimal number. `text` is the
    /// size in upper case.
    Format { text: String },
    /// The size in bytes does not fit the machine word.
    Overflow { text: String },
}

/// The content of a `SizeError`.
pub enum SizeFault {
    Format(Seq<char>),
    Overflow(Seq<char>),
}

impl SizeError {
    /// The error as a value of texts.
    pub open spec fn fault(&self) -> SizeFault {
        match self {
            SizeError::Format { text } => SizeFault::Format(text@),
            SizeError::Overflow { text } => SizeFault::Overflow(text@),
        }
    }

    /// The text of `message`.
    pub open spec fn message_text(&self) -> Seq<char> {
        match self {
            SizeError::Format { text } => "Invalid size format: '"@ + text@ + "'"@,
            SizeError::Overflow { text } => "Size out of range: '"@ + text@ + "'"@,
        }
    }

    /// A one-line description of the error.
    pub fn message(&self) -> (text: String)
        ensures
            text@ == self.message_text(),
    {
        match self {
            SizeError::Format { text } => {
                let mut out: String = String::from_str("Invalid size format: '");
                out.append(text.as_str());
                out.append("'");
                out
            },
            SizeError::Overflow { text } => {
                let mut out: String = String::from_str("Size out of range: '");
                out.append(text.as_str());
                out.append("'");
                out
            },
        }
    }
}

/// Whether `text` ends with the characters of `suffix`.
pub open spec fn ends_with(text: Seq<char>, suffix: Seq<char>) -> bool {
    text.len() >= suffix.len() && text.skip(text.len() - suffix.len()) == suffix
}

/// The number part of a size in upper case, and the bytes that one unit
/// holds: `GB`, `MB`, `KB` and `B` are units; a size without a unit counts
/// bytes.
pub open spec fn size_parts(upper: Seq<char>) -> (Seq<char>, nat) {
    if ends_with(upper, seq!['G', 'B']) {
        (upper.take(upper.len() - 2), 1024 * 1024 * 1024)
    } else if ends_with(upper, seq!['M', 'B']) {
        (upper.take(upper.len() - 2), 1024 * 1024)
    } else if ends_with(upper, seq!['K', 'B']) {
        (upper.take(upper.len() - 2), 1024)
    } else if ends_with(upper, seq!['B']) {
        (upper.take(upper.len() - 1), 1)
    } else {
        (upper, 1)
    }
}

/// The number of bytes that a size in upper case stands for, or the reason
/// why it is refused: its number part is no decimal number, or the product
/// with the unit does not fit the machine word.
pub open spec fn size_outcome(upper: Seq<char>) -> Result<usize, SizeFault> {
    let (number, unit) = size_parts(upper);
    match parse_decimal(trimmed_text(number)) {
        None => Err(SizeFault::Format(upper)),
        Some(count) => if count * unit <= usize::MAX {
            Ok((count * unit) as usize)
        } else {
            Err(SizeFault::Overflow(upper))
        },
    }
}

/// What a size as it is typed stands for: it is trimmed and put in upper
/// case first.
pub open spec fn typed_size_outcome(text: Seq<char>) -> Result<usize, SizeFault> {
    size_outcome(uppercase_text(trimmed_text(text)))
}

/// Whether a result of reading a size is the given outcome.
pub open spec fn same_size(result: Result<usize, SizeError>, outcome: Result<usize, SizeFault>) -> bool {
    match outcome {
        Ok(bytes) => result == Ok::<usize, SizeError>(bytes),
        Err(fault) => result matches Err(e) && e.fault() == fault,
    }
}

fn has_unit(chars: &Vec<char>, first: char, second: char) -> (found: bool)
    ensures
        found == ends_with(chars@, seq![first, second]),
{
    let len: usize = chars.len();
    if len < 2 {
        return false;
    }
    let found: bool = chars[len - 2] == first && chars[len - 1] == second;
    proof {
        let tail = chars@.skip(len - 2);
        if found {
            assert(tail == seq![first, second]);
        } else {
            assert(tail[0] == chars@[len - 2]);
            assert(tail[1] == chars@[len - 1]);
        }
    }
    found
}

/// Reads a size that is already trimmed and in upper case.
pub fn parse_upper_size(upper: &str) -> (result: Result<usize, SizeError>)
    ensures
        same_size(result, size_outcome(upper@)),
{
    let chars: Vec<char> = chars_of(upper);
    let len: usize = chars.len();
    let (number_len, unit): (usize, usize) = if has_unit(&chars, 'G', 'B') {
        (len - 2, 1024 * 1024 * 1024)
    } else if has_unit(&chars, 'M', 'B') {
        (len - 2, 1024 * 1024)
    } else if has_unit(&chars, 'K', 'B') {
        (len - 2, 1024)
    } else if len >= 1 && chars[len - 1] == 'B' {
        proof {
            assert(chars@.skip(len - 1) == seq!['B']);
        }
        (len - 1, 1)
    } else {
        proof {
            if len >= 1 {
                assert(chars@.skip(len - 1)[0] == chars@[len - 1]);
            }
        }
        (len, 1)
    };
    proof {
        assert(chars@.subrange(0, number_len as int) == chars@.take(number_len as int));
        assert(chars@.take(len as int) == chars@);
    }
    match parse_piece(&chars, 0, number_len) {
        None => Err(SizeError::Format { text: String::from_str(upper) }),
        Some(count) => match count.checked_mul(unit) {
            Some(bytes) => Ok(bytes),
            None => Err(SizeError::Overflow { text: String::from_str(upper) }),
        },
    }
}

/// Parse human-readable size string to bytes
pub fn parse_size(size_str: &str) -> (result: Result<usize, SizeError>)
    ensures
        same_size(result, typed_size_outcome(size_str@)),
{
    let chars: Vec<char> = chars_of(size_str);
    let (low, high): (usize, usize) = trim_bounds(&chars, 0, chars.len());
    proof {
        assert(chars@.subrange(0, chars@.len() as int) == chars@);
    }
    let upper: String = text_of(&chars, low, high).as_str().to_uppercase();
    parse_upper_size(upper.as_str())
}

/// The texts of a list of strings.
pub open spec fn texts_of(list: Seq<String>) -> Seq<Seq<char>> {
    Seq::new(list.len(), |i: int| list[i]@)
}

/// The extensions that the fields of a list name: each field trimmed and in
/// lower case, empty ones left out.
pub open spec fn extension_list(fields: Seq<Seq<char>>) -> Seq<Seq<char>>
    decreases fields.len(),
{
    if fields.len() == 0 {
        Seq::empty()
    } else {
        let rest = extension_list(fields.drop_last());
        let extension = lowercase_text(trimmed_text(fields.last()));
        if extension.len() == 0 {
            rest
        } else {
            rest.push(extension)
        }
    }
}

impl Args {
    /// Parse the length specification into a list of lengths: every length
    /// that a part names, once, in increasing order.
    pub fn parse_lengths(&self) -> (result: Result<Option<Vec<usize>>, LengthError>)
        ensures
            match self.length {
                None => result matches Ok(None),
                Some(text) => match typed_lengths_outcome(text@) {
                    Ok(set) => result matches Ok(Some(list)) && strictly_increasing(list@)
                        && list@.to_set() == set,
                    Err(fault) => result matches Err(e) && e.fault() == fault,
                },
            },
    {
        let length_str: &String = match &self.length {
            Some(text) => text,
            None => {
                return Ok(None);
            },
        };
        let chars: Vec<char> = chars_of(length_str.as_str());
        let parts: Vec<(usize, usize)> = split_fields(&chars, ',');
        let ghost fields = split_on(chars@, ',');
        let mut lengths: Vec<usize> = Vec::new();
        let mut i: usize = 0;
        proof {
            assert(fields.take(0) == Seq::<Seq<char>>::empty());
            assert(lengths@.to_set() =~= Set::<usize>::empty());
        }
        while i < parts.len()
            invariant
                i <= parts@.len(),
                self.length == Some(*length_str),
                chars@ == length_str@,
                fields == split_on(chars@, ','),
                parts@.len() == fields.len(),
                forall|k: int|
                    0 <= k < parts@.len() ==> {
                        &&& (#[trigger] parts@[k]).0 <= parts@[k].1 <= chars@.len()
                        &&& chars@.subrange(parts@[k].0 as int, parts@[k].1 as int) == fields[k]
                    },
                lengths@.no_duplicates(),
                lengths_outcome(fields.take(i as int)) == Ok::<Set<usize>, LengthFault>(lengths@.to_set()),
            decreases parts@.len() - i,
        {
            let (from, to): (usize, usize) = parts[i];
            proof {
                assert(fields.take(i + 1).drop_last() == fields.take(i as int));
                assert(fields.take(i + 1).last() == fields[i as int]);
            }
            match parse_part(&chars, from, to) {
                Ok((low, high)) => {
                    add_run(&mut lengths, low, high);
                },
                Err(e) => {
                    proof {
                        lemma_outcome_fails_on(fields, i + 1);
                    }
                    return Err(e);
                },
            }
            i = i + 1;
        }
        proof {
            assert(fields.take(i as int) == fields);
        }
        Ok(Some(sorted_lengths(&lengths)))
    }

    /// Parse buffer size string to bytes
    pub fn parse_buffer_size(&self) -> (result: Result<usize, SizeError>)
        ensures
            same_size(result, typed_size_outcome(self.buffer_size@)),
    {
        parse_size(self.buffer_size.as_str())
    }

    /// Parse memory limit string to bytes
    pub fn parse_memory_limit(&self) -> (result: Result<usize, SizeError>)
        ensures
            same_size(result, typed_size_outcome(self.memory_limit@)),
    {
        parse_size(self.memory_limit.as_str())
    }

    /// Get output directory, defaulting to current directory
    pub fn get_output_dir(&self) -> (dir: String)
        ensures
            dir@ == match self.output {
                Some(path) => path@,
                None => seq!['.'],
            },
    {
        match &self.output {
            Some(path) => path.clone(),
            None => {
                proof {
                    reveal_strlit(".");
                    assert("."@ == seq!['.']);
                }
                String::from_str(".")
            },
        }
    }

    /// Parse file extensions to process
    pub fn get_extensions(&self) -> (extensions: Vec<String>)
        ensures
            texts_of(extensions@) == extension_list(split_on(self.extensions@, ',')),
    {
        let chars: Vec<char> = chars_of(self.extensions.as_str());
        let parts: Vec<(usize, usize)> = split_fields(&chars, ',');
        let ghost fields = split_on(chars@, ',');
        let mut extensions: Vec<String> = Vec::new();
        let mut i: usize = 0;
        proof {
            assert(fields.take(0) == Seq::<Seq<char>>::empty());
            assert(texts_of(extensions@) == Seq::<Seq<char>>::empty());
        }
        while i < parts.len()
            invariant
                i <= parts@.len(),
                fields == split_on(chars@, ','),
                parts@.len() == fields.len(),
                forall|k: int|
                    0 <= k < parts@.len() ==> {
                        &&& (#[trigger] parts@[k]).0 <= parts@[k].1 <= chars@.len()
                        &&& chars@.subrange(parts@[k].0 as int, parts@[k].1 as int) == fields[k]
                    },
                texts_of(extensions@) == extension_list(fields.take(i as int)),
            decreases parts@.len() - i,
        {
            let (from, to): (usize, usize) = parts[i];
            let (low, high): (usize, usize) = trim_bounds(&chars, from, to);
            let extension: String = text_of(&chars, low, high).as_str().to_lowercase();
            proof {
                assert(fields.take(i + 1).drop_last() == fields.take(i as int));
                assert(fields.take(i + 1).last() == fields[i as int]);
            }
            if !extension.as_str().is_empty() {
                let ghost before = extensions@;
                extensions.push(extension);
                proof {
                    assert(texts_of(extensions@) == texts_of(before).push(extension@));
                }
            }
            i = i + 1;
        }
        proof {
            assert(fields.take(i as int) == fields);
        }
        extensions
    }
}

/// Once a part is refused, its fault is the outcome of every longer list of
/// parts.
proof fn lemma_outcome_fails_on(fields: Seq<Seq<char>>, failed: int)
    requires
        0 < failed <= fields.len(),
        lengths_outcome(fields.take(failed)) is Err,
    ensures
        lengths_outcome(fields) == lengths_outcome(fields.take(failed)),
    decreases fields.len(),
{
    if failed < fields.len() {
        assert(fields.drop_last().take(failed) == fields.take(failed));
        lemma_outcome_fails_on(fields.drop_last(), failed);
    } else {
        assert(fields.take(failed) == fields);
    }
}

} // verus!
