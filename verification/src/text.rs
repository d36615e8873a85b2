//! Text helpers shared by the parsers and formatters: trimming, case
//! mapping, splitting, and decimal numbers.

use vstd::prelude::*;
use vstd::string::StrSliceExecFns;

verus! {

/// Whether `c` has the Unicode property White_Space.
pub uninterp spec fn is_whitespace_char(c: char) -> bool;

/// Whether `c` is white space. Among the ASCII characters these are the
/// space and the characters from U+0009 to U+000D; beyond ASCII, the
/// characters with the property White_Space.
pub open spec fn is_white(c: char) -> bool {
    if c <= '\x7f' {
        c == ' ' || '\t' <= c <= '\r'
    } else {
        is_whitespace_char(c)
    }
}

/// The upper-case mapping of a text.
pub uninterp spec fn uppercase_text(text: Seq<char>) -> Seq<char>;

/// The lower-case mapping of a text.
pub uninterp spec fn lowercase_text(text: Seq<char>) -> Seq<char>;

/// `text` without its leading white space.
pub open spec fn trim_start_text(text: Seq<char>) -> Seq<char>
    decreases text.len(),
{
    if text.len() > 0 && is_white(text[0]) {
        trim_start_text(text.drop_first())
    } else {
        text
    }
}

/// `text` without its trailing white space.
pub open spec fn trim_end_text(text: Seq<char>) -> Seq<char>
    decreases text.len(),
{
    if text.len() > 0 && is_white(text.last()) {
        trim_end_text(text.drop_last())
    } else {
        text
    }
}

/// `text` without leading and trailing white space.
pub open spec fn trimmed_text(text: Seq<char>) -> Seq<char> {
    trim_end_text(trim_start_text(text))
}

/// `char::is_whitespace` tells whether the character has the property
/// White_Space: among the ASCII characters, the space and the characters
/// from U+0009 to U+000D.
pub assume_specification[ char::is_whitespace ](c: char) -> (white: bool)
    ensures
        white == if c <= '\x7f' {
            c == ' ' || '\t' <= c <= '\r'
        } else {
            is_whitespace_char(c)
        },
;

/// `str::to_uppercase` maps the text to upper case; the result depends on the
/// text alone.
pub assume_specification[ str::to_uppercase ](text: &str) -> (upper: String)
    ensures
        upper@ == uppercase_text(text@),
;

/// `str::to_lowercase` maps the text to lower case; the result depends on the
/// text alone.
pub assume_specification[ str::to_lowercase ](text: &str) -> (lower: String)
    ensures
        lower@ == lowercase_text(text@),
;

/// `String::push` appends one character.
pub assume_specification[ String::push ](text: &mut String, ch: char)
    ensures
        final(text)@ == old(text)@.push(ch),
;

/// `line` without one trailing line feed and, before it, one trailing
/// carriage return.
pub open spec fn line_without_terminator(line: Seq<char>) -> Seq<char> {
    let body = if line.len() > 0 && line.last() == '\n' {
        line.drop_last()
    } else {
        line
    };
    if body.len() > 0 && body.last() == '\r' {
        body.drop_last()
    } else {
        body
    }
}

/// Removes a single trailing line terminator.
pub fn trim_line_end(line: &str) -> (word: &str)
    ensures
        word@ == line_without_terminator(line@),
{
    let len: usize = line.unicode_len();
    let mut end: usize = len;
    if end > 0 && line.get_char(end - 1) == '\n' {
        end = end - 1;
        assert(line@.subrange(0, end as int) == line@.drop_last());
    }
    if end > 0 && line.get_char(end - 1) == '\r' {
        assert(line@.subrange(0, end - 1) == line@.subrange(0, end as int).drop_last());
        end = end - 1;
    }
    if end == len {
        assert(line@.subrange(0, len as int) == line@);
        line
    } else {
        line.substring_char(0, end)
    }
}

/// The characters of a text, one by one.
pub fn chars_of(text: &str) -> (chars: Vec<char>)
    ensures
        chars@ == text@,
{
    let len: usize = text.unicode_len();
    let mut chars: Vec<char> = Vec::with_capacity(len);
    let mut i: usize = 0;
    while i < len
        invariant
            len == text@.len(),
            i <= len,
            chars@ == text@.take(i as int),
        decreases len - i,
    {
        chars.push(text.get_char(i));
        assert(text@.take(i + 1) == text@.take(i as int).push(text@[i as int]));
        i = i + 1;
    }
    assert(text@.take(len as int) == text@);
    chars
}

/// The text made of the characters `chars[from..to]`.
pub fn text_of(chars: &Vec<char>, from: usize, to: usize) -> (text: String)
    requires
        from <= to <= chars@.len(),
    ensures
        text@ == chars@.subrange(from as int, to as int),
{
    let mut text: String = String::new();
    let mut i: usize = from;
    while i < to
        invariant
            from <= i <= to <= chars@.len(),
            text@ == chars@.subrange(from as int, i as int),
        decreases to - i,
    {
        text.push(chars[i]);
        assert(chars@.subrange(from as int, i + 1) == chars@.subrange(from as int, i as int).push(
            chars@[i as int],
        ));
        i = i + 1;
    }
    text
}

/// The bounds of `chars[from..to]` without its leading and trailing white
/// space.
pub fn trim_bounds(chars: &Vec<char>, from: usize, to: usize) -> (bounds: (usize, usize))
    requires
        from <= to <= chars@.len(),
    ensures
        from <= bounds.0 <= bounds.1 <= to,
        chars@.subrange(bounds.0 as int, bounds.1 as int) == trimmed_text(
            chars@.subrange(from as int, to as int),
        ),
{
    let mut low: usize = from;
    while low < to && chars[low].is_whitespace()
        invariant
            from <= low <= to <= chars@.len(),
            trim_start_text(chars@.subrange(from as int, to as int)) == trim_start_text(
                chars@.subrange(low as int, to as int),
            ),
        decreases to - low,
    {
        proof {
            let rest = chars@.subrange(low as int, to as int);
            assert(rest[0] == chars@[low as int]);
            assert(rest.drop_first() == chars@.subrange(low + 1, to as int));
        }
        low = low + 1;
    }
    proof {
        let rest = chars@.subrange(low as int, to as int);
        if low < to {
            assert(rest[0] == chars@[low as int]);
        }
        assert(trim_start_text(rest) == rest);
    }
    let mut high: usize = to;
    while high > low && chars[high - 1].is_whitespace()
        invariant
            low <= high <= to <= chars@.len(),
            trim_end_text(chars@.subrange(low as int, to as int)) == trim_end_text(
                chars@.subrange(low as int, high as int),
            ),
        decreases high,
    {
        proof {
            let rest = chars@.subrange(low as int, high as int);
            assert(rest.last() == chars@[high - 1]);
            assert(rest.drop_last() == chars@.subrange(low as int, high - 1));
        }
        high = high - 1;
    }
    proof {
        let rest = chars@.subrange(low as int, high as int);
        if high > low {
            assert(rest.last() == chars@[high - 1]);
        }
        assert(trim_end_text(rest) == rest);
    }
    (low, high)
}

/// The characters `chars[from..to]` on their own.
pub fn chars_between(chars: &Vec<char>, from: usize, to: usize) -> (part: Vec<char>)
    requires
        from <= to <= chars@.len(),
    ensures
        part@ == chars@.subrange(from as int, to as int),
{
    vstd::slice::slice_to_vec(vstd::slice::slice_subrange(chars.as_slice(), from, to))
}

/// The position of the first `sep` in `text`, or the length of `text` if
/// there is none.
pub open spec fn first_index_of<A>(text: Seq<A>, sep: A) -> int
    decreases text.len(),
{
    if text.len() == 0 {
        0
    } else if text[0] == sep {
        0
    } else {
        1 + first_index_of(text.drop_first(), sep)
    }
}

/// What `first_index_of` finds.
pub proof fn lemma_first_index_of<A>(text: Seq<A>, sep: A)
    ensures
        0 <= first_index_of(text, sep) <= text.len(),
        first_index_of(text, sep) < text.len() ==> text[first_index_of(text, sep)] == sep,
        forall|j: int| 0 <= j < first_index_of(text, sep) ==> text[j] != sep,
    decreases text.len(),
{
    if text.len() > 0 && text[0] != sep {
        lemma_first_index_of(text.drop_first(), sep);
        assert forall|j: int| 0 <= j < first_index_of(text, sep) implies text[j] != sep by {
            if j > 0 {
                assert(text.drop_first()[j - 1] == text[j]);
            }
        }
    }
}

/// The first position is the only one that holds `sep` with none before it.
pub proof fn lemma_first_index_is<A>(text: Seq<A>, sep: A, at: int)
    requires
        0 <= at <= text.len(),
        at < text.len() ==> text[at] == sep,
        forall|j: int| 0 <= j < at ==> text[j] != sep,
    ensures
        first_index_of(text, sep) == at,
{
    lemma_first_index_of(text, sep);
}

/// The fields of `text` between occurrences of `sep`. A text without `sep`
/// is one field; an empty text is one empty field.
pub open spec fn split_on(text: Seq<char>, sep: char) -> Seq<Seq<char>>
    decreases text.len(),
{
    let at = first_index_of(text, sep);
    if 0 <= at < text.len() {
        seq![text.take(at)] + split_on(text.skip(at + 1), sep)
    } else {
        seq![text]
    }
}

/// The bounds of the fields of `chars` between occurrences of `sep`.
pub fn split_fields(chars: &Vec<char>, sep: char) -> (fields: Vec<(usize, usize)>)
    ensures
        fields@.len() == split_on(chars@, sep).len(),
        forall|k: int|
            0 <= k < fields@.len() ==> {
                &&& (#[trigger] fields@[k]).0 <= fields@[k].1 <= chars@.len()
                &&& chars@.subrange(fields@[k].0 as int, fields@[k].1 as int) == split_on(chars@, sep)[k]
            },
{
    let mut fields: Vec<(usize, usize)> = Vec::new();
    let mut start: usize = 0;
    let mut i: usize = 0;
    let ghost mut done: Seq<Seq<char>> = Seq::empty();
    proof {
        assert(chars@.skip(0) == chars@);
    }
    while i < chars.len()
        invariant
            start <= i <= chars@.len(),
            forall|j: int| start <= j < i ==> chars@[j] != sep,
            split_on(chars@, sep) == done + split_on(chars@.skip(start as int), sep),
            fields@.len() == done.len(),
            forall|k: int|
                0 <= k < fields@.len() ==> {
                    &&& (#[trigger] fields@[k]).0 <= fields@[k].1 <= chars@.len()
                    &&& chars@.subrange(fields@[k].0 as int, fields@[k].1 as int) == done[k]
                },
        decreases chars@.len() - i,
    {
        if chars[i] == sep {
            proof {
                let rest = chars@.skip(start as int);
                lemma_first_index_is(rest, sep, i - start);
                assert(rest.take(i - start) == chars@.subrange(start as int, i as int));
                assert(rest.skip(i - start + 1) == chars@.skip(i + 1));
                done = done.push(chars@.subrange(start as int, i as int));
                assert(split_on(chars@, sep) == done + split_on(chars@.skip(i + 1), sep));
            }
            fields.push((start, i));
            start = i + 1;
        }
        i = i + 1;
    }
    proof {
        let rest = chars@.skip(start as int);
        lemma_first_index_is(rest, sep, rest.len() as int);
        assert(rest == chars@.subrange(start as int, chars@.len() as int));
        done = done.push(rest);
        assert(split_on(chars@, sep) == done);
    }
    fields.push((start, chars.len()));
    fields
}

/// A text without `sep` is a single field.
pub proof fn lemma_split_single(text: Seq<char>, sep: char)
    ensures
        split_on(text, sep).len() >= 1,
        !text.contains(sep) <==> split_on(text, sep).len() == 1,
        !text.contains(sep) ==> split_on(text, sep) == seq![text],
    decreases text.len(),
{
    lemma_first_index_of(text, sep);
    let at = first_index_of(text, sep);
    if 0 <= at < text.len() {
        lemma_split_single(text.skip(at + 1), sep);
        assert(text.contains(sep));
    } else {
        if text.contains(sep) {
            let j = choose|j: int| 0 <= j < text.len() && text[j] == sep;
            assert(text[j] != sep);
        }
    }
}

/// Whether `c` is one of the ten decimal digits.
pub open spec fn is_digit(c: char) -> bool {
    '0' <= c <= '9'
}

/// The value of a decimal digit.
pub open spec fn digit_value(c: char) -> nat {
    (c as u32 - '0' as u32) as nat
}

/// The number that a run of decimal digits writes.
pub open spec fn digits_value(text: Seq<char>) -> nat
    decreases text.len(),
{
    if text.len() == 0 {
        0
    } else {
        digits_value(text.drop_last()) * 10 + digit_value(text.last())
    }
}

/// Whether every character of `text` is a decimal digit.
pub open spec fn all_digits(text: Seq<char>) -> bool {
    forall|i: int| 0 <= i < text.len() ==> is_digit(#[trigger] text[i])
}

/// The number that `text` writes in decimal: an optional `+`, then one or
/// more digits and nothing else, with a value that fits the machine word.
pub open spec fn parse_decimal(text: Seq<char>) -> Option<usize> {
    let digits = if text.len() > 0 && text[0] == '+' {
        text.drop_first()
    } else {
        text
    };
    if digits.len() > 0 && all_digits(digits) && digits_value(digits) <= usize::MAX {
        Some(digits_value(digits) as usize)
    } else {
        None
    }
}

proof fn lemma_digits_value_grows(text: Seq<char>, i: int)
    requires
        0 <= i <= text.len(),
    ensures
        digits_value(text.take(i)) <= digits_value(text),
    decreases text.len() - i,
{
    if i < text.len() {
        lemma_digits_value_grows(text, i + 1);
        assert(text.take(i + 1).drop_last() == text.take(i));
    } else {
        assert(text.take(i) == text);
    }
}

/// Reads the characters as a decimal number.
pub fn parse_usize(chars: &Vec<char>) -> (value: Option<usize>)
    ensures
        value == parse_decimal(chars@),
{
    let start: usize = if chars.len() > 0 && chars[0] == '+' {
        1
    } else {
        0
    };
    if start >= chars.len() {
        return None;
    }
    let ghost digits = chars@.skip(start as int);
    proof {
        if start == 1 {
            assert(chars@.drop_first() == digits);
        } else {
            assert(chars@ == digits);
        }
    }
    let mut value: usize = 0;
    let mut i: usize = start;
    while i < chars.len()
        invariant
            start <= i <= chars@.len(),
            digits == chars@.skip(start as int),
            digits.len() > 0,
            digits == if chars@.len() > 0 && chars@[0] == '+' {
                chars@.drop_first()
            } else {
                chars@
            },
            forall|j: int| 0 <= j < i - start ==> is_digit(#[trigger] digits[j]),
            value == digits_value(digits.take(i - start)),
        decreases chars@.len() - i,
    {
        let c: char = chars[i];
        if !(c >= '0' && c <= '9') {
            proof {
                assert(!is_digit(digits[i - start]));
            }
            return None;
        }
        let digit: usize = (c as u32 - '0' as u32) as usize;
        proof {
            assert(digits.take(i - start + 1).drop_last() == digits.take(i - start));
            assert(digits.take(i - start + 1).last() == c);
            assert(digits_value(digits.take(i - start + 1)) == value * 10 + digit);
            lemma_digits_value_grows(digits, i - start + 1);
        }
        let scaled: usize = match value.checked_mul(10) {
            Some(v) => v,
            None => {
                return None;
            },
        };
        value = match scaled.checked_add(digit) {
            Some(v) => v,
            None => {
                return None;
            },
        };
        i = i + 1;
    }
    proof {
        assert(digits.take(i - start) == digits);
    }
    Some(value)
}

/// The character that writes a digit value.
pub open spec fn digit_char(value: nat) -> char {
    (('0' as u32 + value) as u8) as char
}

/// The decimal digits of a number, without sign or padding.
pub open spec fn decimal_text(n: nat) -> Seq<char>
    decreases n,
{
    if n < 10 {
        seq![digit_char(n)]
    } else {
        decimal_text(n / 10).push(digit_char(n % 10))
    }
}

/// Appends the decimal digits of `n` to `out`.
pub fn push_decimal(out: &mut String, n: u64)
    ensures
        final(out)@ == old(out)@ + decimal_text(n as nat),
    decreases n,
{
    if n >= 10 {
        push_decimal(out, n / 10);
    }
    let digit: u8 = (n % 10) as u8;
    out.push((48u8 + digit) as char);
    proof {
        assert('0' as u32 == 48);
        if n < 10 {
            assert(old(out)@ + decimal_text(n as nat) == old(out)@.push(digit_char(n as nat)));
        } else {
            assert(old(out)@ + decimal_text(n as nat) == (old(out)@ + decimal_text((n / 10) as nat)).push(
                digit_char((n % 10) as nat),
            ));
        }
    }
}

} // verus!
