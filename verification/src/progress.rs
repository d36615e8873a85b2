//! Processing statistics and the formatting of numbers and durations.

use crate::text::{chars_of, decimal_text, push_decimal};
use vstd::prelude::*;
use vstd::string::StringExecFns;

verus! {

/// Processing statistics: counters that only grow, wrapping around at
/// 2^64.
#[derive(Debug, Clone, Copy, PartialEq, Eq, Structural)]
pub struct ProcessingStats {
    pub total_files: u64,
    pub processed_files: u64,
    pub total_bytes: u64,
    pub processed_bytes: u64,
    pub total_lines: u64,
    pub matched_lines: u64,
    pub duplicate_lines: u64,
    pub error_lines: u64,
}

impl ProcessingStats {
    /// The statistics of a run that has not begun: all counters zero.
    pub open spec fn zero() -> Self {
        ProcessingStats {
            total_files: 0,
            processed_files: 0,
            total_bytes: 0,
            processed_bytes: 0,
            total_lines: 0,
            matched_lines: 0,
            duplicate_lines: 0,
            error_lines: 0,
        }
    }

    pub fn new() -> (stats: Self)
        ensures
            stats == Self::zero(),
    {
        ProcessingStats {
            total_files: 0,
            processed_files: 0,
            total_bytes: 0,
            processed_bytes: 0,
            total_lines: 0,
            matched_lines: 0,
            duplicate_lines: 0,
            error_lines: 0,
        }
    }

    /// Counts a file found, with its size.
    pub fn add_file(&mut self, size: u64)
        ensures
            *final(self) == (ProcessingStats {
                total_files: old(self).total_files.wrapping_add(1),
                total_bytes: old(self).total_bytes.wrapping_add(size),
                ..*old(self)
            }),
    {
        self.total_files = self.total_files.wrapping_add(1);
        self.total_bytes = self.total_bytes.wrapping_add(size);
    }

    /// Counts a file done, with its size.
    pub fn complete_file(&mut self, size: u64)
        ensures
            *final(self) == (ProcessingStats {
                processed_files: old(self).processed_files.wrapping_add(1),
                processed_bytes: old(self).processed_bytes.wrapping_add(size),
                ..*old(self)
            }),
    {
        self.processed_files = self.processed_files.wrapping_add(1);
        self.processed_bytes = self.processed_bytes.wrapping_add(size);
    }

    pub fn add_line(&mut self)
        ensures
            *final(self) == (ProcessingStats {
                total_lines: old(self).total_lines.wrapping_add(1),
                ..*old(self)
            }),
    {
        self.total_lines = self.total_lines.wrapping_add(1);
    }

    pub fn add_lines(&mut self, count: u64)
        ensures
            *final(self) == (ProcessingStats {
                total_lines: old(self).total_lines.wrapping_add(count),
                ..*old(self)
            }),
    {
        self.total_lines = self.total_lines.wrapping_add(count);
    }

    pub fn add_match(&mut self)
        ensures
            *final(self) == (ProcessingStats {
                matched_lines: old(self).matched_lines.wrapping_add(1),
                ..*old(self)
            }),
    {
        self.matched_lines = self.matched_lines.wrapping_add(1);
    }

    pub fn add_matches(&mut self, count: u64)
        ensures
            *final(self) == (ProcessingStats {
                matched_lines: old(self).matched_lines.wrapping_add(count),
                ..*old(self)
            }),
    {
        self.matched_lines = self.matched_lines.wrapping_add(count);
    }

    pub fn add_duplicate(&mut self)
        ensures
            *final(self) == (ProcessingStats {
                duplicate_lines: old(self).duplicate_lines.wrapping_add(1),
                ..*old(self)
            }),
    {
        self.duplicate_lines = self.duplicate_lines.wrapping_add(1);
    }

    pub fn add_duplicates(&mut self, count: u64)
        ensures
            *final(self) == (ProcessingStats {
                duplicate_lines: old(self).duplicate_lines.wrapping_add(count),
                ..*old(self)
            }),
    {
        self.duplicate_lines = self.duplicate_lines.wrapping_add(count);
    }

    pub fn add_error(&mut self)
        ensures
            *final(self) == (ProcessingStats {
                error_lines: old(self).error_lines.wrapping_add(1),
                ..*old(self)
            }),
    {
        self.error_lines = self.error_lines.wrapping_add(1);
    }

    pub fn get_total_files(&self) -> (count: u64)
        ensures
            count == self.total_files,
    {
        self.total_files
    }

    pub fn get_processed_files(&self) -> (count: u64)
        ensures
            count == self.processed_files,
    {
        self.processed_files
    }

    pub fn get_total_bytes(&self) -> (count: u64)
        ensures
            count == self.total_bytes,
    {
        self.total_bytes
    }

    pub fn get_processed_bytes(&self) -> (count: u64)
        ensures
            count == self.processed_bytes,
    {
        self.processed_bytes
    }

    pub fn get_total_lines(&self) -> (count: u64)
        ensures
            count == self.total_lines,
    {
        self.total_lines
    }

    pub fn get_matched_lines(&self) -> (count: u64)
        ensures
            count == self.matched_lines,
    {
        self.matched_lines
    }

    pub fn get_duplicate_lines(&self) -> (count: u64)
        ensures
            count == self.duplicate_lines,
    {
        self.duplicate_lines
    }

    pub fn get_error_lines(&self) -> (count: u64)
        ensures
            count == self.error_lines,
    {
        self.error_lines
    }

    /// The number of lines written: those matched and not dropped as
    /// duplicates.
    pub fn unique_output(&self) -> (count: u64)
        ensures
            count == if self.matched_lines >= self.duplicate_lines {
                self.matched_lines - self.duplicate_lines
            } else {
                0
            },
    {
        self.matched_lines.saturating_sub(self.duplicate_lines)
    }
}

impl Default for ProcessingStats {
    fn default() -> (stats: Self)
        ensures
            stats == Self::zero(),
    {
        Self::new()
    }
}

/// The first `upto` digits of `digits` with a comma before every group of
/// three, counted from the right end of the whole.
pub open spec fn grouped_prefix(digits: Seq<char>, upto: int) -> Seq<char>
    decreases upto,
{
    if upto <= 0 {
        Seq::empty()
    } else {
        let before = grouped_prefix(digits, upto - 1);
        let at = upto - 1;
        if at > 0 && (digits.len() - at) % 3 == 0 {
            before.push(',').push(digits[at])
        } else {
            before.push(digits[at])
        }
    }
}

/// A number in decimal with a comma between groups of three digits.
pub open spec fn grouped_number(n: nat) -> Seq<char> {
    grouped_prefix(decimal_text(n), decimal_text(n).len() as int)
}

/// Format a number with thousand separators
pub fn format_number(n: u64) -> (text: String)
    ensures
        text@ == grouped_number(n as nat),
{
    let mut plain: String = String::new();
    push_decimal(&mut plain, n);
    let chars: Vec<char> = chars_of(plain.as_str());
    let mut result: String = String::new();
    let mut i: usize = 0;
    while i < chars.len()
        invariant
            i <= chars@.len(),
            chars@ == decimal_text(n as nat),
            result@ == grouped_prefix(chars@, i as int),
        decreases chars@.len() - i,
    {
        if i > 0 && (chars.len() - i) % 3 == 0 {
            result.push(',');
        }
        result.push(chars[i]);
        i = i + 1;
    }
    result
}

/// A duration of a minute or more in words: minutes and seconds below an
/// hour, hours and minutes from an hour on.
pub open spec fn long_duration_text(secs: nat) -> Seq<char> {
    if secs < 3600 {
        decimal_text(secs / 60) + "m "@ + decimal_text(secs % 60) + "s"@
    } else {
        decimal_text(secs / 3600) + "h "@ + decimal_text((secs % 3600) / 60) + "m"@
    }
}

/// Format a duration given in whole seconds as human-readable string. A
/// duration below a minute has no such form: it is shown with its fraction
/// of a second, which the caller has.
pub fn format_long_duration(secs: u64) -> (text: Option<String>)
    ensures
        match text {
            Some(t) => secs >= 60 && t@ == long_duration_text(secs as nat),
            None => secs < 60,
        },
{
    if secs < 60 {
        None
    } else if secs < 3600 {
        let mut text: String = String::new();
        push_decimal(&mut text, secs / 60);
        text.append("m ");
        push_decimal(&mut text, secs % 60);
        text.append("s");
        Some(text)
    } else {
        let mut text: String = String::new();
        push_decimal(&mut text, secs / 3600);
        text.append("h ");
        push_decimal(&mut text, (secs % 3600) / 60);
        text.append("m");
        Some(text)
    }
}

} // verus!
