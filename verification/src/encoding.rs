//! Encoding detection on a sample of bytes, and the line source: lines cut
//! from a byte buffer, stripped of their terminator and decoded to text.

use crate::text::{first_index_of, lemma_first_index_is, lemma_first_index_of};
use vstd::prelude::*;
use vstd::slice::slice_subrange;
use vstd::string::StringExecFns;
use vstd::string::StringSliceAdditionalSpecFns;
use vstd::utf8::{decode_utf8, valid_utf8};

verus! {

/// How many bytes of a file are sampled for detection.
pub const SAMPLE_SIZE: usize = 64 * 1024;

/// The encoding that the detector guesses for a complete sample, by name.
pub uninterp spec fn guessed_encoding(sample: Seq<u8>) -> Seq<char>;

/// The text that lossy UTF-8 decoding gives for bytes, with a replacement
/// character for each malformed sequence.
pub uninterp spec fn lossy_text(bytes: Seq<u8>) -> Seq<char>;

/// The text that the encoding labelled `label` decodes bytes to, or none
/// where no encoding has that label.
pub uninterp spec fn decoded_text(label: Seq<char>, bytes: Seq<u8>) -> Option<Seq<char>>;

/// `memchr::memchr` returns the position of the first `needle` in the
/// haystack, or none if the haystack holds none.
pub assume_specification[ memchr::memchr ](needle: u8, haystack: &[u8]) -> (found: Option<usize>)
    ensures
        match found {
            Some(at) => at < haystack@.len() && haystack@[at as int] == needle && forall|j: int|
                0 <= j < at ==> haystack@[j] != needle,
            None => forall|j: int| 0 <= j < haystack@.len() ==> haystack@[j] != needle,
        },
;

/// Feeds the whole sample to a new `chardetng::EncodingDetector` and asks
/// for its guess, UTF-8 allowed, without a domain hint. The result is the
/// name of the guessed encoding and depends on the sample alone.
#[verifier::external_body]
fn guess_encoding(sample: &[u8]) -> (name: String)
    ensures
        name@ == guessed_encoding(sample@),
{
    let mut detector = chardetng::EncodingDetector::new();
    detector.feed(sample, true);
    detector.guess(None, true).name().to_string()
}

/// `std::str::from_utf8` succeeds exactly on well-formed UTF-8, and the
/// text it gives has the bytes it was given.
#[verifier::external_body]
fn utf8_text(bytes: &[u8]) -> (text: Option<&str>)
    ensures
        text is Some <==> valid_utf8(bytes@),
        text matches Some(t) ==> t.spec_bytes() == bytes@,
{
    std::str::from_utf8(bytes).ok()
}

/// `String::from_utf8_lossy`. The result depends on the bytes alone.
#[verifier::external_body]
fn lossy_utf8(bytes: &[u8]) -> (text: String)
    ensures
        text@ == lossy_text(bytes@),
{
    String::from_utf8_lossy(bytes).into_owned()
}

/// `Encoding::for_label` followed by `Encoding::decode`, which replaces
/// malformed sequences and never fails. The result depends on the label and
/// the bytes alone; it is none exactly where the label names no encoding.
/// Longer inputs are left out, since the decoder sizes its buffer at up to
/// three times the input.
#[verifier::external_body]
fn decode_with(label: &str, bytes: &[u8]) -> (text: Option<String>)
    requires
        bytes@.len() <= usize::MAX / 4,
    ensures
        match text {
            Some(t) => decoded_text(label@, bytes@) == Some(t@),
            None => decoded_text(label@, bytes@) is None,
        },
{
    let encoding = encoding_rs::Encoding::for_label(label.as_bytes())?;
    let (text, _, _) = encoding.decode(bytes);
    Some(text.into_owned())
}

/// A byte order mark.
#[derive(Debug, Clone, Copy, PartialEq, Eq, Structural)]
pub enum Bom {
    Utf8,
    Utf16Be,
    Utf16Le,
}

/// The byte order mark at the start of `content`, if there is one:
/// `EF BB BF` for UTF-8, `FE FF` for UTF-16BE, `FF FE` for UTF-16LE.
pub open spec fn bom_of(content: Seq<u8>) -> Option<Bom> {
    if content.len() >= 3 && content[0] == 0xEF && content[1] == 0xBB && content[2] == 0xBF {
        Some(Bom::Utf8)
    } else if content.len() >= 2 && content[0] == 0xFE && content[1] == 0xFF {
        Some(Bom::Utf16Be)
    } else if content.len() >= 2 && content[0] == 0xFF && content[1] == 0xFE {
        Some(Bom::Utf16Le)
    } else {
        None
    }
}

impl Bom {
    /// The name of the encoding that the mark announces.
    pub open spec fn name_text(&self) -> Seq<char> {
        match self {
            Bom::Utf8 => "UTF-8"@,
            Bom::Utf16Be => "UTF-16BE"@,
            Bom::Utf16Le => "UTF-16LE"@,
        }
    }

    /// The number of bytes of the mark.
    pub open spec fn size(&self) -> nat {
        match self {
            Bom::Utf8 => 3,
            _ => 2,
        }
    }

    /// The name of the encoding that the mark announces.
    pub fn encoding_name(&self) -> (name: &'static str)
        ensures
            name@ == self.name_text(),
    {
        match self {
            Bom::Utf8 => "UTF-8",
            Bom::Utf16Be => "UTF-16BE",
            Bom::Utf16Le => "UTF-16LE",
        }
    }

    /// The number of bytes of the mark.
    pub fn len(&self) -> (n: usize)
        ensures
            n == self.size(),
    {
        match self {
            Bom::Utf8 => 3,
            _ => 2,
        }
    }
}

/// Detect BOM (Byte Order Mark) at the start of content
pub fn detect_bom(content: &[u8]) -> (bom: Option<Bom>)
    ensures
        bom == bom_of(content@),
{
    if content.len() >= 3 && content[0] == 0xEF && content[1] == 0xBB && content[2] == 0xBF {
        return Some(Bom::Utf8);
    }
    if content.len() >= 2 {
        if content[0] == 0xFE && content[1] == 0xFF {
            return Some(Bom::Utf16Be);
        }
        if content[0] == 0xFF && content[1] == 0xFE {
            return Some(Bom::Utf16Le);
        }
    }
    None
}

/// Result of encoding detection
#[derive(Debug, Clone)]
pub struct EncodingInfo {
    /// Detected encoding name
    pub name: String,
    /// Confidence level in percent (0 - 100)
    pub confidence: u8,
}

impl Default for EncodingInfo {
    fn default() -> (info: Self)
        ensures
            info.name@ == "UTF-8"@,
            info.confidence == 100,
    {
        EncodingInfo { name: String::from_str("UTF-8"), confidence: 100 }
    }
}

/// The encoding and the confidence that detection gives for a sample: an
/// empty sample is UTF-8; a byte order mark decides with full confidence;
/// otherwise the detector guesses, and a guess of UTF-8 is trusted fully if
/// the sample is well-formed UTF-8 and half if not, any other guess at 80
/// percent.
pub open spec fn detected(sample: Seq<u8>) -> (Seq<char>, u8) {
    if sample.len() == 0 {
        ("UTF-8"@, 100u8)
    } else if let Some(bom) = bom_of(sample) {
        (bom.name_text(), 100u8)
    } else if guessed_encoding(sample) == "UTF-8"@ {
        if valid_utf8(sample) {
            ("UTF-8"@, 100u8)
        } else {
            ("UTF-8"@, 50u8)
        }
    } else {
        (guessed_encoding(sample), 80u8)
    }
}

/// What is reported for a sample once the detector's guess is known.
pub fn rate_guess(sample: &[u8], guess: String) -> (info: EncodingInfo)
    ensures
        info.name@ == guess@,
        info.confidence == if guess@ == "UTF-8"@ {
            if valid_utf8(sample@) {
                100u8
            } else {
                50u8
            }
        } else {
            80u8
        },
{
    let confidence: u8 = if guess == String::from_str("UTF-8") {
        if utf8_text(sample).is_some() {
            100
        } else {
            50
        }
    } else {
        80
    };
    EncodingInfo { name: guess, confidence }
}

/// Detect the encoding of a file from a sample of its first bytes
pub fn detect_encoding(sample: &[u8]) -> (info: EncodingInfo)
    ensures
        (info.name@, info.confidence) == detected(sample@),
{
    if sample.len() == 0 {
        return EncodingInfo::default();
    }
    if let Some(bom) = detect_bom(sample) {
        return EncodingInfo { name: String::from_str(bom.encoding_name()), confidence: 100 };
    }
    let guess: String = guess_encoding(sample);
    rate_guess(sample, guess)
}

/// Why a line could not be decoded.
#[derive(Debug, Clone, Copy, PartialEq, Eq, Structural)]
pub enum LineError {
    /// The name of the encoding is not known to the decoder.
    UnknownEncoding,
    /// The line is too long for the decoder's buffer.
    TooLong,
}

/// `line` without one trailing line feed and, before it, one trailing
/// carriage return.
pub open spec fn strip_terminator(line: Seq<u8>) -> Seq<u8> {
    let body = if line.len() > 0 && line.last() == 10u8 {
        line.drop_last()
    } else {
        line
    };
    if body.len() > 0 && body.last() == 13u8 {
        body.drop_last()
    } else {
        body
    }
}

/// `line` without any trailing line feeds and carriage returns.
pub open spec fn strip_all_terminators(line: Seq<u8>) -> Seq<u8>
    decreases line.len(),
{
    if line.len() > 0 && (line.last() == 10u8 || line.last() == 13u8) {
        strip_all_terminators(line.drop_last())
    } else {
        line
    }
}

/// The text of the bytes of one line in the named encoding. UTF-8 never
/// fails: malformed input is decoded lossily.
pub open spec fn decode_line(encoding: Seq<char>, bytes: Seq<u8>) -> Result<Seq<char>, LineError> {
    if encoding == "UTF-8"@ {
        if valid_utf8(bytes) {
            Ok(decode_utf8(bytes))
        } else {
            Ok(lossy_text(bytes))
        }
    } else if bytes.len() > usize::MAX / 4 {
        Err(LineError::TooLong)
    } else {
        match decoded_text(encoding, bytes) {
            Some(text) => Ok(text),
            None => Err(LineError::UnknownEncoding),
        }
    }
}

/// Whether a decoding result is the given text or error.
pub open spec fn same_line(result: Result<String, LineError>, line: Result<Seq<char>, LineError>) -> bool {
    match line {
        Ok(text) => result matches Ok(s) && s@ == text,
        Err(e) => result == Err::<String, LineError>(e),
    }
}

fn decode_bytes(encoding: &str, utf8: bool, bytes: &[u8]) -> (result: Result<String, LineError>)
    requires
        utf8 == (encoding@ == "UTF-8"@),
    ensures
        same_line(result, decode_line(encoding@, bytes@)),
{
    if utf8 {
        match utf8_text(bytes) {
            Some(text) => {
                proof {
                    vstd::utf8::encode_utf8_decode_utf8(text@);
                }
                Ok(String::from_str(text))
            },
            None => Ok(lossy_utf8(bytes)),
        }
    } else if bytes.len() > usize::MAX / 4 {
        Err(LineError::TooLong)
    } else {
        match decode_with(encoding, bytes) {
            Some(text) => Ok(text),
            None => Err(LineError::UnknownEncoding),
        }
    }
}

/// Decodes a line that was read up to and including its line feed: all
/// trailing line feeds and carriage returns are removed first.
pub fn decode_line_buffer(encoding: &str, buffer: &[u8]) -> (result: Result<String, LineError>)
    ensures
        same_line(result, decode_line(encoding@, strip_all_terminators(buffer@))),
{
    let mut end: usize = buffer.len();
    proof {
        assert(buffer@.take(buffer@.len() as int) == buffer@);
    }
    while end > 0 && (buffer[end - 1] == 10u8 || buffer[end - 1] == 13u8)
        invariant
            end <= buffer@.len(),
            strip_all_terminators(buffer@) == strip_all_terminators(buffer@.take(end as int)),
        decreases end,
    {
        proof {
            assert(buffer@.take(end as int).drop_last() == buffer@.take(end - 1));
        }
        end = end - 1;
    }
    proof {
        assert(buffer@.take(buffer@.len() as int) == buffer@);
        assert(buffer@.subrange(0, end as int) == buffer@.take(end as int));
    }
    let utf8: bool = String::from_str(encoding) == String::from_str("UTF-8");
    decode_bytes(encoding, utf8, slice_subrange(buffer, 0, end))
}

/// Where the line that starts at `from` ends: behind its line feed, or at
/// the end of the data if no line feed follows.
pub open spec fn line_end(data: Seq<u8>, from: int) -> int {
    let rest = data.skip(from);
    let at = first_index_of(rest, 10u8);
    if at < rest.len() {
        from + at + 1
    } else {
        data.len() as int
    }
}

/// The decoded lines of `data` from position `from` on.
pub open spec fn lines_from(encoding: Seq<char>, data: Seq<u8>, from: int) -> Seq<
    Result<Seq<char>, LineError>,
>
    decreases data.len() - from,
{
    if 0 <= from < data.len() {
        let end = line_end(data, from);
        if from < end <= data.len() {
            seq![decode_line(encoding, strip_terminator(data.subrange(from, end)))] + lines_from(
                encoding,
                data,
                end,
            )
        } else {
            Seq::empty()
        }
    } else {
        Seq::empty()
    }
}

/// Line source over a byte buffer, such as a memory-mapped file.
pub struct MmapLineIterator<'a> {
    data: &'a [u8],
    encoding: String,
    utf8: bool,
    position: usize,
}

impl<'a> MmapLineIterator<'a> {
    /// The bytes that the lines are cut from.
    pub closed spec fn data(&self) -> Seq<u8> {
        self.data@
    }

    /// The name of the encoding.
    pub closed spec fn encoding_text(&self) -> Seq<char> {
        self.encoding@
    }

    /// The position of the next line.
    pub closed spec fn offset(&self) -> nat {
        self.position as nat
    }

    pub closed spec fn well_formed(&self) -> bool {
        &&& self.position <= self.data@.len()
        &&& self.utf8 == (self.encoding@ == "UTF-8"@)
    }

    /// The lines that are still to come.
    pub open spec fn remaining(&self) -> Seq<Result<Seq<char>, LineError>> {
        lines_from(self.encoding_text(), self.data(), self.offset() as int)
    }

    /// The position never lies behind the end of the data.
    pub proof fn lemma_offset_in_data(&self)
        requires
            self.well_formed(),
        ensures
            self.offset() <= self.data().len(),
    {
    }

    /// Create a new line iterator over `data`, behind its byte order mark
    /// if it has one.
    pub fn new(data: &'a [u8], encoding: &str) -> (lines: Self)
        ensures
            lines.well_formed(),
            lines.data() == data@,
            lines.encoding_text() == encoding@,
            lines.offset() == match bom_of(data@) {
                Some(bom) => bom.size(),
                None => 0,
            },
    {
        let position: usize = match detect_bom(data) {
            Some(bom) => bom.len(),
            None => 0,
        };
        let utf8: bool = String::from_str(encoding) == String::from_str("UTF-8");
        MmapLineIterator { data, encoding: String::from_str(encoding), utf8, position }
    }

    /// Get the total size of the data
    pub fn size(&self) -> (size: usize)
        ensures
            size == self.data().len(),
    {
        self.data.len()
    }

    /// Get current position
    pub fn position(&self) -> (position: usize)
        ensures
            position == self.offset(),
    {
        self.position
    }

    /// Get the name of the encoding
    pub fn encoding(&self) -> (name: &str)
        ensures
            name@ == self.encoding_text(),
    {
        self.encoding.as_str()
    }

    /// The next line, without its terminator, decoded; none at the end of
    /// the data.
    pub fn next_line(&mut self) -> (line: Option<Result<String, LineError>>)
        requires
            old(self).well_formed(),
        ensures
            final(self).well_formed(),
            final(self).data() == old(self).data(),
            final(self).encoding_text() == old(self).encoding_text(),
            match line {
                None => old(self).offset() >= old(self).data().len() && final(self).offset() == old(self).offset() && old(self).remaining() == Seq::<Result<Seq<char>, LineError>>::empty(),
                Some(result) => {
                    &&& old(self).offset() < old(self).data().len()
                    &&& final(self).offset() == line_end(old(self).data(), old(self).offset() as int)
                    &&& final(self).offset() > old(self).offset()
                    &&& old(self).remaining().len() > 0
                    &&& same_line(result, old(self).remaining()[0])
                    &&& final(self).remaining() == old(self).remaining().drop_first()
                },
            },
    {
        if self.position >= self.data.len() {
            return None;
        }
        let remaining: &[u8] = slice_subrange(self.data, self.position, self.data.len());
        let found: Option<usize> = memchr::memchr(10u8, remaining);
        let line_len: usize = match found {
            Some(at) => at + 1,
            None => remaining.len(),
        };
        proof {
            let rest = self.data@.skip(self.position as int);
            assert(remaining@ == rest);
            let at: int = match found {
                Some(at) => at as int,
                None => rest.len() as int,
            };
            lemma_first_index_is(rest, 10u8, at);
        }
        let start: usize = self.position;
        let line_bytes: &[u8] = slice_subrange(remaining, 0, line_len);
        self.position = self.position + line_len;
        proof {
            assert(line_bytes@ == self.data@.subrange(start as int, start + line_len));
        }
        let mut end: usize = line_len;
        if end > 0 && line_bytes[end - 1] == 10u8 {
            end = end - 1;
        }
        if end > 0 && line_bytes[end - 1] == 13u8 {
            end = end - 1;
        }
        let stripped: &[u8] = slice_subrange(line_bytes, 0, end);
        proof {
            let line = line_bytes@;
            let body = if line.len() > 0 && line.last() == 10u8 {
                line.drop_last()
            } else {
                line
            };
            assert(stripped@ == strip_terminator(line)) by {
                if line.len() > 0 && line.last() == 10u8 {
                    assert(body == line.take(line.len() - 1));
                }
                assert(stripped@ == line.take(end as int));
                if body.len() > 0 && body.last() == 13u8 {
                    assert(body.drop_last() == line.take(end as int));
                } else {
                    assert(body == line.take(end as int));
                }
            }
        }
        Some(decode_bytes(self.encoding.as_str(), self.utf8, stripped))
    }
}

} // verus!
