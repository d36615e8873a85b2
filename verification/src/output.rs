//! Output buckets: buffered writers with their counters, and the managers
//! that route accepted lines to them. The writers hold bytes in memory and
//! hand them over when asked; storing them is the caller's part.

use crate::cli::{sorted_lengths, strictly_increasing};
use crate::text::{decimal_text, push_decimal};
use std::collections::HashMap;
use vstd::prelude::*;
use vstd::std_specs::iter::IteratorSpec;
use vstd::string::StringExecFns;
use vstd::string::StringSliceAdditionalSpecFns;

verus! {

broadcast use vstd::std_specs::hash::group_hash_axioms;

/// Default buffer size for file writing (64MB)
pub const DEFAULT_BUFFER_SIZE: usize = 64 * 1024 * 1024;

/// The stem of the final component of a path, if it has one, as the
/// platform reads paths.
pub uninterp spec fn file_stem_text(path: Seq<char>) -> Option<Seq<char>>;

/// The path that names `name` inside the directory `dir`, as the platform
/// writes paths.
pub uninterp spec fn joined_path(dir: Seq<char>, name: Seq<char>) -> Seq<char>;

/// `Path::file_stem` of the path that `path` spells; the stem of a path
/// given as text is text again. The result depends on the path alone.
#[verifier::external_body]
fn path_file_stem(path: &str) -> (stem: Option<String>)
    ensures
        match stem {
            Some(text) => file_stem_text(path@) == Some(text@),
            None => file_stem_text(path@) is None,
        },
{
    let stem = std::path::Path::new(path).file_stem()?;
    Some(stem.to_str()?.to_string())
}

/// `Path::join` of the directory `dir` with `name`. The result depends on
/// the two texts alone.
#[verifier::external_body]
pub(crate) fn join_path(dir: &str, name: &str) -> (path: String)
    ensures
        path@ == joined_path(dir@, name@),
{
    std::path::Path::new(dir).join(name).to_string_lossy().into_owned()
}

/// The name of an output file for a stem and a suffix; without a stem,
/// `output` takes its place.
pub open spec fn output_name_text(stem: Option<Seq<char>>, suffix: Seq<char>) -> Seq<char> {
    let base = match stem {
        Some(text) => text,
        None => "output"@,
    };
    base + "_"@ + suffix + ".txt"@
}

/// Builds the output name from a stem that is already known.
pub fn output_name_for(stem: Option<&str>, suffix: &str) -> (name: String)
    ensures
        name@ == output_name_text(
            match stem {
                Some(text) => Some(text@),
                None => None,
            },
            suffix@,
        ),
{
    let mut name: String = match stem {
        Some(text) => String::from_str(text),
        None => String::from_str("output"),
    };
    name.append("_");
    name.append(suffix);
    name.append(".txt");
    name
}

/// Generate output filename from input filename
pub fn generate_output_name(input: &str, suffix: &str) -> (name: String)
    ensures
        name@ == output_name_text(file_stem_text(input@), suffix@),
{
    match path_file_stem(input) {
        Some(stem) => output_name_for(Some(stem.as_str()), suffix),
        None => output_name_for(None, suffix),
    }
}

/// The file name of the bucket of one length: `PREFIX_lenLENGTH.txt`.
pub open spec fn bucket_file_text(prefix: Seq<char>, length: usize) -> Seq<char> {
    prefix + "_len"@ + decimal_text(length as nat) + ".txt"@
}

/// Builds the file name of the bucket of one length.
pub fn bucket_file_name(prefix: &str, length: usize) -> (name: String)
    ensures
        name@ == bucket_file_text(prefix@, length),
{
    let mut name: String = String::from_str(prefix);
    name.append("_len");
    push_decimal(&mut name, length as u64);
    name.append(".txt");
    name
}

/// The bytes of a line as it is written: its UTF-8 form and a newline.
pub open spec fn line_bytes(line: Seq<char>) -> Seq<u8> {
    vstd::utf8::encode_utf8(line).push(10u8)
}

/// The bytes of lines written one after the other.
pub open spec fn written_bytes(lines: Seq<Seq<char>>) -> Seq<u8>
    decreases lines.len(),
{
    if lines.len() == 0 {
        Seq::empty()
    } else {
        written_bytes(lines.drop_last()) + line_bytes(lines.last())
    }
}

/// The value of a 64-bit counter after `count` steps from zero.
pub open spec fn wrapped(count: nat) -> u64 {
    (count % 0x1_0000_0000_0000_0000) as u64
}

/// Output writer with buffering. Bytes written stay pending in memory
/// until `flush` hands them over.
pub struct OutputWriter {
    pending: Vec<u8>,
    path: String,
    buffer_size: usize,
    lines_written: u64,
    bytes_written: u64,
    handed_over: Ghost<Seq<u8>>,
    lines: Ghost<Seq<Seq<char>>>,
    plain: Ghost<bool>,
}

impl OutputWriter {
    /// All bytes written so far, handed over or not.
    pub closed spec fn content(&self) -> Seq<u8> {
        self.handed_over@ + self.pending@
    }

    /// The bytes written and not yet handed over.
    pub closed spec fn pending(&self) -> Seq<u8> {
        self.pending@
    }

    /// The lines written so far with `write_line`, in order.
    pub closed spec fn lines(&self) -> Seq<Seq<char>> {
        self.lines@
    }

    /// Whether everything was written with `write_line`, so that the
    /// content is made of whole lines.
    pub closed spec fn only_lines(&self) -> bool {
        self.plain@
    }

    /// The output path.
    pub closed spec fn path_text(&self) -> Seq<char> {
        self.path@
    }

    /// The number of pending bytes from which a flush is due.
    pub closed spec fn buffer_size(&self) -> usize {
        self.buffer_size
    }

    /// Whether a flush is due: something is pending, and it has reached
    /// the buffer size. With a buffer size of zero every write makes a
    /// flush due; with nothing pending none ever is.
    pub open spec fn flush_due(&self) -> bool {
        self.pending().len() > 0 && self.pending().len() >= self.buffer_size()
    }

    /// The counters agree with what was written: they count the lines and
    /// the bytes, wrapping around at 2^64. Where only lines were written,
    /// the content is those lines.
    pub closed spec fn well_formed(&self) -> bool {
        &&& self.lines_written == wrapped(self.lines@.len())
        &&& self.bytes_written == wrapped(self.content().len())
        &&& self.plain@ ==> self.content() == written_bytes(self.lines@)
    }

    /// The content of an output that was written line by line is the bytes
    /// of its lines, each followed by a newline, and nothing else.
    pub proof fn lemma_content_is_lines(&self)
        requires
            self.well_formed(),
            self.only_lines(),
        ensures
            self.content() == written_bytes(self.lines()),
    {
    }

    /// Create a new output writer, with nothing written.
    pub fn new(path: String, buffer_size: usize) -> (writer: Self)
        ensures
            writer.well_formed(),
            writer.content() == Seq::<u8>::empty(),
            writer.pending() == Seq::<u8>::empty(),
            writer.lines() == Seq::<Seq<char>>::empty(),
            writer.only_lines(),
            writer.path_text() == path@,
            writer.buffer_size() == buffer_size,
    {
        OutputWriter {
            pending: Vec::new(),
            path,
            buffer_size,
            lines_written: 0,
            bytes_written: 0,
            handed_over: Ghost(Seq::empty()),
            lines: Ghost(Seq::empty()),
            plain: Ghost(true),
        }
    }

    fn append_bytes(&mut self, bytes: &[u8])
        requires
            old(self).bytes_written == wrapped(old(self).content().len()),
        ensures
            final(self).pending() == old(self).pending() + bytes@,
            final(self).content() == old(self).content() + bytes@,
            final(self).lines == old(self).lines,
            final(self).plain == old(self).plain,
            final(self).path == old(self).path,
            final(self).buffer_size == old(self).buffer_size,
            final(self).lines_written == old(self).lines_written,
            final(self).bytes_written == wrapped(final(self).content().len()),
    {
        let mut i: usize = 0;
        while i < bytes.len()
            invariant
                i <= bytes@.len(),
                self.pending@ == old(self).pending@ + bytes@.take(i as int),
                self.handed_over == old(self).handed_over,
                self.lines == old(self).lines,
                self.plain == old(self).plain,
                self.path == old(self).path,
                self.buffer_size == old(self).buffer_size,
                self.lines_written == old(self).lines_written,
                self.bytes_written == wrapped(self.content().len()),
            decreases bytes@.len() - i,
        {
            self.pending.push(bytes[i]);
            self.bytes_written = self.bytes_written.wrapping_add(1);
            proof {
                assert(bytes@.take(i + 1) == bytes@.take(i as int).push(bytes@[i as int]));
            }
            i = i + 1;
        }
        proof {
            assert(bytes@.take(i as int) == bytes@);
        }
    }

    /// Write a line to the output, followed by a newline.
    pub fn write_line(&mut self, line: &str)
        requires
            old(self).well_formed(),
        ensures
            final(self).well_formed(),
            final(self).lines() == old(self).lines().push(line@),
            final(self).content() == old(self).content() + line_bytes(line@),
            final(self).pending() == old(self).pending() + line_bytes(line@),
            final(self).only_lines() == old(self).only_lines(),
            final(self).path_text() == old(self).path_text(),
            final(self).buffer_size() == old(self).buffer_size(),
    {
        self.append_bytes(line.as_bytes());
        let ghost mid = *self;
        self.pending.push(10u8);
        self.bytes_written = self.bytes_written.wrapping_add(1);
        self.lines_written = self.lines_written.wrapping_add(1);
        proof {
            self.lines@ = self.lines@.push(line@);
            assert(line.spec_bytes() == vstd::utf8::encode_utf8(line@));
            assert(self.pending@ =~= old(self).pending@ + line_bytes(line@));
            assert(self.content() =~= mid.content().push(10u8));
            assert(self.content() =~= old(self).content() + line_bytes(line@));
            assert(self.lines@.drop_last() =~= old(self).lines@);
        }
    }

    /// Write a text without newline (for batch operations)
    pub fn write(&mut self, data: &str)
        requires
            old(self).well_formed(),
        ensures
            final(self).well_formed(),
            !final(self).only_lines(),
            final(self).lines() == old(self).lines(),
            final(self).content() == old(self).content() + data.spec_bytes(),
            final(self).pending() == old(self).pending() + data.spec_bytes(),
            final(self).path_text() == old(self).path_text(),
            final(self).buffer_size() == old(self).buffer_size(),
    {
        self.append_bytes(data.as_bytes());
        proof {
            self.plain@ = false;
        }
    }

    /// Whether a flush is due: something is pending, and it has reached
    /// the buffer size.
    pub fn needs_flush(&self) -> (due: bool)
        ensures
            due == self.flush_due(),
    {
        self.pending.len() > 0 && self.pending.len() >= self.buffer_size
    }

    /// Hands over the pending bytes, which the caller stores behind those
    /// handed over before.
    pub fn flush(&mut self) -> (bytes: Vec<u8>)
        requires
            old(self).well_formed(),
        ensures
            final(self).well_formed(),
            bytes@ == old(self).pending(),
            final(self).pending() == Seq::<u8>::empty(),
            final(self).content() == old(self).content(),
            final(self).lines() == old(self).lines(),
            final(self).only_lines() == old(self).only_lines(),
            final(self).path_text() == old(self).path_text(),
            final(self).buffer_size() == old(self).buffer_size(),
    {
        let mut bytes: Vec<u8> = Vec::new();
        std::mem::swap(&mut bytes, &mut self.pending);
        proof {
            self.handed_over@ = self.handed_over@ + bytes@;
            assert(self.content() == old(self).content());
        }
        bytes
    }

    /// Get the output path
    pub fn path(&self) -> (path: &str)
        ensures
            path@ == self.path_text(),
    {
        self.path.as_str()
    }

    /// Get number of lines written
    pub fn lines_written(&self) -> (count: u64)
        requires
            self.well_formed(),
        ensures
            count == wrapped(self.lines().len()),
    {
        self.lines_written
    }

    /// Get bytes written
    pub fn bytes_written(&self) -> (count: u64)
        requires
            self.well_formed(),
        ensures
            count == wrapped(self.content().len()),
    {
        self.bytes_written
    }
}


impl OutputWriter {
    /// Whether this writer came from `before` by lines written and by
    /// nothing else: it holds the lines of `before` and then the lines
    /// gained, and what is pending and what was written in all are those
    /// of `before` and then the bytes of the lines gained. Nothing was
    /// handed over in between.
    pub open spec fn grew_from(&self, before: &OutputWriter) -> bool {
        let held = before.lines().len() as int;
        &&& self.lines().len() >= held
        &&& self.lines().take(held) == before.lines()
        &&& self.pending() == before.pending() + written_bytes(self.lines().skip(held))
        &&& self.content() == before.content() + written_bytes(self.lines().skip(held))
    }
}

/// The bytes of lines written one after the other are those of a first
/// part and then those of the rest.
pub proof fn lemma_written_bytes_concat(first: Seq<Seq<char>>, second: Seq<Seq<char>>)
    ensures
        written_bytes(first + second) == written_bytes(first) + written_bytes(second),
    decreases second.len(),
{
    if second.len() == 0 {
        assert(first + second == first);
        assert(written_bytes(first) + written_bytes(second) == written_bytes(first));
    } else {
        lemma_written_bytes_concat(first, second.drop_last());
        assert((first + second).drop_last() == first + second.drop_last());
        assert((first + second).last() == second.last());
        assert(written_bytes(first + second) == written_bytes(first) + written_bytes(
            second.drop_last(),
        ) + line_bytes(second.last()));
        assert(written_bytes(first) + written_bytes(second.drop_last()) + line_bytes(second.last())
            == written_bytes(first) + (written_bytes(second.drop_last()) + line_bytes(second.last())));
    }
}

/// A writer to which nothing was written came from itself.
pub proof fn lemma_grew_from_itself(writer: OutputWriter)
    ensures
        writer.grew_from(&writer),
{
    let held = writer.lines().len() as int;
    assert(writer.lines().take(held) == writer.lines());
    assert(writer.lines().skip(held) == Seq::<Seq<char>>::empty());
    assert(writer.pending() + written_bytes(Seq::<Seq<char>>::empty()) == writer.pending());
    assert(writer.content() + written_bytes(Seq::<Seq<char>>::empty()) == writer.content());
}

/// A writer that came from another and gained no line holds the lines and
/// the bytes that the other held.
pub proof fn lemma_grew_by_nothing(before: OutputWriter, after: OutputWriter)
    requires
        after.grew_from(&before),
        after.lines().len() == before.lines().len(),
    ensures
        after.lines() == before.lines(),
        after.pending() == before.pending(),
        after.content() == before.content(),
{
    let held = before.lines().len() as int;
    assert(after.lines().take(held) == after.lines());
    assert(after.lines().skip(held) == Seq::<Seq<char>>::empty());
    assert(before.pending() + written_bytes(Seq::<Seq<char>>::empty()) == before.pending());
    assert(before.content() + written_bytes(Seq::<Seq<char>>::empty()) == before.content());
}

/// A writer that came from another by lines written, and a third that
/// came from it in the same way: the third came from the first.
pub proof fn lemma_grew_from_twice(first: OutputWriter, second: OutputWriter, third: OutputWriter)
    requires
        second.grew_from(&first),
        third.grew_from(&second),
    ensures
        third.grew_from(&first),
{
    let a = first.lines().len() as int;
    let b = second.lines().len() as int;
    let early = second.lines().skip(a);
    let late = third.lines().skip(b);
    assert(third.lines().take(a) == first.lines()) by {
        assert(third.lines().take(b).take(a) == third.lines().take(a));
    }
    assert(third.lines().skip(a) == early + late) by {
        assert(third.lines().take(b).skip(a) == early);
        assert(third.lines().skip(a) == third.lines().take(b).skip(a) + third.lines().skip(b));
    }
    lemma_written_bytes_concat(early, late);
    assert(third.pending() == first.pending() + written_bytes(third.lines().skip(a))) by {
        assert(first.pending() + written_bytes(early) + written_bytes(late) == first.pending() + (
        written_bytes(early) + written_bytes(late)));
    }
    assert(third.content() == first.content() + written_bytes(third.lines().skip(a))) by {
        assert(first.content() + written_bytes(early) + written_bytes(late) == first.content() + (
        written_bytes(early) + written_bytes(late)));
    }
}

/// A writer to which one line was written came from the writer before.
pub proof fn lemma_grew_by_line(before: OutputWriter, after: OutputWriter, line: Seq<char>)
    requires
        after.lines() == before.lines().push(line),
        after.pending() == before.pending() + line_bytes(line),
        after.content() == before.content() + line_bytes(line),
    ensures
        after.grew_from(&before),
{
    let held = before.lines().len() as int;
    let gained = after.lines().skip(held);
    assert(after.lines().take(held) == before.lines());
    assert(gained == seq![line]);
    assert(gained.drop_last() == Seq::<Seq<char>>::empty());
    assert(written_bytes(gained) == written_bytes(Seq::<Seq<char>>::empty()) + line_bytes(line));
    assert(written_bytes(gained) == line_bytes(line));
}

/// An output writer as the buckets hold it.
pub struct SyncOutputWriter {
    inner: OutputWriter,
}

impl SyncOutputWriter {
    /// The writer inside.
    pub closed spec fn writer(&self) -> OutputWriter {
        self.inner
    }

    pub fn new(path: String, buffer_size: usize) -> (sync: Self)
        ensures
            sync.writer().well_formed(),
            sync.writer().content() == Seq::<u8>::empty(),
            sync.writer().pending() == Seq::<u8>::empty(),
            sync.writer().lines() == Seq::<Seq<char>>::empty(),
            sync.writer().only_lines(),
            sync.writer().path_text() == path@,
            sync.writer().buffer_size() == buffer_size,
    {
        SyncOutputWriter { inner: OutputWriter::new(path, buffer_size) }
    }

    pub fn write_line(&mut self, line: &str)
        requires
            old(self).writer().well_formed(),
        ensures
            final(self).writer().well_formed(),
            final(self).writer().lines() == old(self).writer().lines().push(line@),
            final(self).writer().content() == old(self).writer().content() + line_bytes(line@),
            final(self).writer().pending() == old(self).writer().pending() + line_bytes(line@),
            final(self).writer().only_lines() == old(self).writer().only_lines(),
            final(self).writer().path_text() == old(self).writer().path_text(),
            final(self).writer().buffer_size() == old(self).writer().buffer_size(),
    {
        self.inner.write_line(line)
    }

    pub fn needs_flush(&self) -> (due: bool)
        ensures
            due == self.writer().flush_due(),
    {
        self.inner.needs_flush()
    }

    pub fn flush(&mut self) -> (bytes: Vec<u8>)
        requires
            old(self).writer().well_formed(),
        ensures
            final(self).writer().well_formed(),
            bytes@ == old(self).writer().pending(),
            final(self).writer().pending() == Seq::<u8>::empty(),
            final(self).writer().content() == old(self).writer().content(),
            final(self).writer().lines() == old(self).writer().lines(),
            final(self).writer().only_lines() == old(self).writer().only_lines(),
            final(self).writer().path_text() == old(self).writer().path_text(),
            final(self).writer().buffer_size() == old(self).writer().buffer_size(),
    {
        self.inner.flush()
    }

    pub fn lines_written(&self) -> (count: u64)
        requires
            self.writer().well_formed(),
        ensures
            count == wrapped(self.writer().lines().len()),
    {
        self.inner.lines_written()
    }

    pub fn bytes_written(&self) -> (count: u64)
        requires
            self.writer().well_formed(),
        ensures
            count == wrapped(self.writer().content().len()),
    {
        self.inner.bytes_written()
    }

    pub fn path(&self) -> (path: String)
        ensures
            path@ == self.writer().path_text(),
    {
        String::from_str(self.inner.path())
    }
}

/// Single output manager for combined output
pub struct SingleOutputManager {
    writer: SyncOutputWriter,
}

impl SingleOutputManager {
    /// The writer of the one bucket.
    pub closed spec fn writer(&self) -> OutputWriter {
        self.writer.writer()
    }

    pub fn new(path: String, buffer_size: usize) -> (manager: Self)
        ensures
            manager.writer().well_formed(),
            manager.writer().content() == Seq::<u8>::empty(),
            manager.writer().pending() == Seq::<u8>::empty(),
            manager.writer().lines() == Seq::<Seq<char>>::empty(),
            manager.writer().only_lines(),
            manager.writer().path_text() == path@,
            manager.writer().buffer_size() == buffer_size,
    {
        SingleOutputManager { writer: SyncOutputWriter::new(path, buffer_size) }
    }

    pub fn write_line(&mut self, line: &str)
        requires
            old(self).writer().well_formed(),
        ensures
            final(self).writer().well_formed(),
            final(self).writer().lines() == old(self).writer().lines().push(line@),
            final(self).writer().content() == old(self).writer().content() + line_bytes(line@),
            final(self).writer().pending() == old(self).writer().pending() + line_bytes(line@),
            final(self).writer().only_lines() == old(self).writer().only_lines(),
            final(self).writer().path_text() == old(self).writer().path_text(),
            final(self).writer().buffer_size() == old(self).writer().buffer_size(),
    {
        self.writer.write_line(line)
    }

    pub fn needs_flush(&self) -> (due: bool)
        ensures
            due == self.writer().flush_due(),
    {
        self.writer.needs_flush()
    }

    pub fn flush(&mut self) -> (bytes: Vec<u8>)
        requires
            old(self).writer().well_formed(),
        ensures
            final(self).writer().well_formed(),
            bytes@ == old(self).writer().pending(),
            final(self).writer().pending() == Seq::<u8>::empty(),
            final(self).writer().content() == old(self).writer().content(),
            final(self).writer().lines() == old(self).writer().lines(),
            final(self).writer().only_lines() == old(self).writer().only_lines(),
            final(self).writer().path_text() == old(self).writer().path_text(),
            final(self).writer().buffer_size() == old(self).writer().buffer_size(),
    {
        self.writer.flush()
    }

    pub fn lines_written(&self) -> (count: u64)
        requires
            self.writer().well_formed(),
        ensures
            count == wrapped(self.writer().lines().len()),
    {
        self.writer.lines_written()
    }

    pub fn bytes_written(&self) -> (count: u64)
        requires
            self.writer().well_formed(),
        ensures
            count == wrapped(self.writer().content().len()),
    {
        self.writer.bytes_written()
    }

    pub fn path(&self) -> (path: String)
        ensures
            path@ == self.writer().path_text(),
    {
        self.writer.path()
    }
}

/// Whether a writer is one that was just made for `path`.
pub open spec fn is_new_writer(writer: OutputWriter, path: Seq<char>, buffer_size: usize) -> bool {
    &&& writer.well_formed()
    &&& writer.content() == Seq::<u8>::empty()
    &&& writer.pending() == Seq::<u8>::empty()
    &&& writer.lines() == Seq::<Seq<char>>::empty()
    &&& writer.only_lines()
    &&& writer.path_text() == path
    &&& writer.buffer_size() == buffer_size
}

/// Manager for multiple output files (one per length)
pub struct MultiOutputManager {
    writers: HashMap<usize, SyncOutputWriter>,
    output_dir: String,
    prefix: String,
    buffer_size: usize,
}

impl MultiOutputManager {
    /// Whether there is a bucket for `length`.
    pub closed spec fn has_bucket(&self, length: usize) -> bool {
        self.writers@.contains_key(length)
    }

    /// The lengths that have a bucket.
    pub closed spec fn bucket_lengths(&self) -> Set<usize> {
        self.writers@.dom()
    }

    /// The writer of the bucket for `length`.
    pub closed spec fn bucket(&self, length: usize) -> OutputWriter {
        self.writers@[length].writer()
    }

    /// The directory of the output files.
    pub closed spec fn output_dir(&self) -> Seq<char> {
        self.output_dir@
    }

    /// The prefix of the names of the output files.
    pub closed spec fn prefix(&self) -> Seq<char> {
        self.prefix@
    }

    /// The buffer size of each bucket.
    pub closed spec fn buffer_size(&self) -> usize {
        self.buffer_size
    }

    /// The path of the output file for `length`.
    pub open spec fn bucket_path(&self, length: usize) -> Seq<char> {
        joined_path(self.output_dir(), bucket_file_text(self.prefix(), length))
    }

    /// Every bucket is well formed, and there are finitely many.
    pub closed spec fn well_formed(&self) -> bool {
        &&& self.writers@.dom().finite()
        &&& forall|length: usize| #[trigger]
            self.writers@.contains_key(length) ==> self.writers@[length].writer().well_formed()
    }

    /// The same directory, prefix and buffer size.
    pub open spec fn same_settings(&self, other: &Self) -> bool {
        &&& self.output_dir() == other.output_dir()
        &&& self.prefix() == other.prefix()
        &&& self.buffer_size() == other.buffer_size()
    }

    /// Create a new multi-output manager, without buckets
    pub fn new(output_dir: String, prefix: &str, buffer_size: usize) -> (manager: Self)
        ensures
            manager.well_formed(),
            manager.bucket_lengths() == Set::<usize>::empty(),
            forall|length: usize| !manager.has_bucket(length),
            manager.output_dir() == output_dir@,
            manager.prefix() == prefix@,
            manager.buffer_size() == buffer_size,
    {
        MultiOutputManager {
            writers: HashMap::new(),
            output_dir,
            prefix: String::from_str(prefix),
            buffer_size,
        }
    }

    fn open_bucket(&mut self, length: usize)
        requires
            old(self).well_formed(),
        ensures
            final(self).well_formed(),
            final(self).same_settings(old(self)),
            final(self).has_bucket(length),
            is_new_writer(final(self).bucket(length), old(self).bucket_path(length), old(self).buffer_size()),
            final(self).bucket_lengths() == old(self).bucket_lengths().insert(length),
            forall|other: usize|
                other != length ==> final(self).has_bucket(other) == old(self).has_bucket(other)
                    && final(self).bucket(other) == old(self).bucket(other),
    {
        let name: String = bucket_file_name(self.prefix.as_str(), length);
        let path: String = join_path(self.output_dir.as_str(), name.as_str());
        let writer = SyncOutputWriter::new(path, self.buffer_size);
        self.writers.insert(length, writer);
    }

    /// Initialize writers for specific lengths: each gets a new, empty
    /// bucket, also where it had one before.
    pub fn init_lengths(&mut self, lengths: &[usize])
        requires
            old(self).well_formed(),
        ensures
            final(self).well_formed(),
            final(self).same_settings(old(self)),
            final(self).bucket_lengths() == old(self).bucket_lengths().union(lengths@.to_set()),
            forall|length: usize|
                #![trigger final(self).has_bucket(length)]
                #![trigger final(self).bucket(length)]
                if lengths@.contains(length) {
                    final(self).has_bucket(length) && is_new_writer(
                        final(self).bucket(length),
                        old(self).bucket_path(length),
                        old(self).buffer_size(),
                    )
                } else {
                    final(self).has_bucket(length) == old(self).has_bucket(length) && final(self).bucket(
                        length,
                    ) == old(self).bucket(length)
                },
    {
        let mut i: usize = 0;
        proof {
            assert(lengths@.take(0).to_set() =~= Set::<usize>::empty());
            assert(self.bucket_lengths() =~= old(self).bucket_lengths().union(lengths@.take(0).to_set()));
        }
        while i < lengths.len()
            invariant
                i <= lengths@.len(),
                self.well_formed(),
                self.same_settings(old(self)),
                self.bucket_lengths() == old(self).bucket_lengths().union(lengths@.take(i as int).to_set()),
                forall|length: usize|
                    #![trigger self.has_bucket(length)]
                    #![trigger self.bucket(length)]
                    if lengths@.take(i as int).contains(length) {
                        self.has_bucket(length) && is_new_writer(
                            self.bucket(length),
                            old(self).bucket_path(length),
                            old(self).buffer_size(),
                        )
                    } else {
                        self.has_bucket(length) == old(self).has_bucket(length) && self.bucket(length)
                            == old(self).bucket(length)
                    },
            decreases lengths@.len() - i,
        {
            let ghost before = *self;
            let length: usize = lengths[i];
            self.open_bucket(length);
            proof {
                let shorter = lengths@.take(i as int);
                let longer = lengths@.take(i + 1);
                assert(longer == shorter.push(length));
                assert forall|x: usize| longer.contains(x) == (shorter.contains(x) || x == length) by {
                    if shorter.contains(x) {
                        let j = choose|j: int| 0 <= j < shorter.len() && shorter[j] == x;
                        assert(longer[j] == x);
                    }
                    if longer.contains(x) {
                        let j = choose|j: int| 0 <= j < longer.len() && longer[j] == x;
                        if j < i {
                            assert(shorter[j] == x);
                        }
                    }
                    if x == length {
                        assert(longer[i as int] == x);
                    }
                }
                assert(longer.to_set() =~= shorter.to_set().insert(length));
                assert(self.bucket_lengths() =~= old(self).bucket_lengths().union(longer.to_set()));
                assert forall|x: usize|
                    #![trigger self.has_bucket(x)]
                    #![trigger self.bucket(x)]
                    if longer.contains(x) {
                        self.has_bucket(x) && is_new_writer(
                            self.bucket(x),
                            old(self).bucket_path(x),
                            old(self).buffer_size(),
                        )
                    } else {
                        self.has_bucket(x) == old(self).has_bucket(x) && self.bucket(x) == old(self).bucket(x)
                    } by {
                    if x != length {
                        assert(self.has_bucket(x) == before.has_bucket(x));
                        assert(self.bucket(x) == before.bucket(x));
                    }
                }
            }
            i = i + 1;
        }
        proof {
            assert(lengths@.take(i as int) == lengths@);
        }
    }

    /// Write a line to the bucket of `length`; without such a bucket
    /// nothing is written.
    pub fn write_line(&mut self, line: &str, length: usize)
        requires
            old(self).well_formed(),
        ensures
            final(self).well_formed(),
            final(self).same_settings(old(self)),
            final(self).bucket_lengths() == old(self).bucket_lengths(),
            forall|other: usize| final(self).has_bucket(other) == old(self).has_bucket(other),
            forall|other: usize|
                other != length ==> #[trigger] final(self).bucket(other) == old(self).bucket(other),
            !old(self).has_bucket(length) ==> final(self).bucket(length) == old(self).bucket(length),
            old(self).has_bucket(length) ==> {
                &&& final(self).bucket(length).lines() == old(self).bucket(length).lines().push(line@)
                &&& final(self).bucket(length).content() == old(self).bucket(length).content()
                    + line_bytes(line@)
                &&& final(self).bucket(length).pending() == old(self).bucket(length).pending()
                    + line_bytes(line@)
                &&& final(self).bucket(length).only_lines() == old(self).bucket(length).only_lines()
                &&& final(self).bucket(length).path_text() == old(self).bucket(length).path_text()
                &&& final(self).bucket(length).buffer_size() == old(self).bucket(length).buffer_size()
            },
    {
        match self.writers.remove(&length) {
            Some(writer) => {
                let mut writer = writer;
                writer.write_line(line);
                self.writers.insert(length, writer);
                proof {
                    assert(self.writers@.dom() =~= old(self).writers@.dom());
                }
            },
            None => {
                proof {
                    assert(self.writers@ =~= old(self).writers@);
                }
            },
        }
    }

    /// Get or create a writer for a specific length
    pub fn get_or_create(&mut self, length: usize) -> (writer: &SyncOutputWriter)
        requires
            old(self).well_formed(),
        ensures
            final(self).well_formed(),
            final(self).same_settings(old(self)),
            final(self).has_bucket(length),
            writer.writer() == final(self).bucket(length),
            final(self).bucket_lengths() == old(self).bucket_lengths().insert(length),
            forall|other: usize|
                other != length ==> final(self).has_bucket(other) == old(self).has_bucket(other)
                    && final(self).bucket(other) == old(self).bucket(other),
            if old(self).has_bucket(length) {
                final(self).bucket(length) == old(self).bucket(length)
            } else {
                is_new_writer(final(self).bucket(length), old(self).bucket_path(length), old(self).buffer_size())
            },
    {
        if !self.writers.contains_key(&length) {
            self.open_bucket(length);
        } else {
            proof {
                assert(self.bucket_lengths() =~= old(self).bucket_lengths().insert(length));
            }
        }
        match self.writers.get(&length) {
            Some(writer) => writer,
            None => vstd::pervasive::unreached(),
        }
    }

    /// The lengths that have a bucket, in increasing order.
    pub fn lengths(&self) -> (lengths: Vec<usize>)
        requires
            self.well_formed(),
        ensures
            strictly_increasing(lengths@),
            lengths@.to_set() == self.bucket_lengths(),
    {
        let mut keys: Vec<usize> = Vec::new();
        for key in iter: self.writers.keys()
            invariant
                keys@.len() == iter.index(),
                forall|j: int| 0 <= j < keys@.len() ==> keys@[j] == *iter.seq()[j],
        {
            keys.push(*key);
        }
        proof {
            let all = vstd::std_specs::hash::spec_keys_iter(&self.writers).remaining();
            assert(keys@ =~= all.unref());
        }
        sorted_lengths(&keys)
    }

    /// Whether a flush of the bucket of `length` is due.
    pub fn needs_flush(&self, length: usize) -> (due: bool)
        requires
            self.well_formed(),
        ensures
            due == (self.has_bucket(length) && self.bucket(length).flush_due()),
    {
        match self.writers.get(&length) {
            Some(writer) => writer.needs_flush(),
            None => false,
        }
    }

    /// Hands over the pending bytes of the bucket of `length`; nothing
    /// where there is no such bucket.
    pub fn flush(&mut self, length: usize) -> (bytes: Vec<u8>)
        requires
            old(self).well_formed(),
        ensures
            final(self).well_formed(),
            final(self).same_settings(old(self)),
            final(self).bucket_lengths() == old(self).bucket_lengths(),
            forall|other: usize| final(self).has_bucket(other) == old(self).has_bucket(other),
            forall|other: usize|
                other != length ==> #[trigger] final(self).bucket(other) == old(self).bucket(other),
            if old(self).has_bucket(length) {
                &&& bytes@ == old(self).bucket(length).pending()
                &&& final(self).bucket(length).pending() == Seq::<u8>::empty()
                &&& final(self).bucket(length).content() == old(self).bucket(length).content()
                &&& final(self).bucket(length).lines() == old(self).bucket(length).lines()
                &&& final(self).bucket(length).only_lines() == old(self).bucket(length).only_lines()
                &&& final(self).bucket(length).path_text() == old(self).bucket(length).path_text()
                &&& final(self).bucket(length).buffer_size() == old(self).bucket(length).buffer_size()
            } else {
                bytes@ == Seq::<u8>::empty() && final(self).bucket(length) == old(self).bucket(length)
            },
    {
        match self.writers.remove(&length) {
            Some(writer) => {
                let mut writer = writer;
                let bytes: Vec<u8> = writer.flush();
                self.writers.insert(length, writer);
                proof {
                    assert(self.writers@.dom() =~= old(self).writers@.dom());
                }
                bytes
            },
            None => {
                proof {
                    assert(self.writers@ =~= old(self).writers@);
                }
                Vec::new()
            },
        }
    }

    /// Flush all writers: the pending bytes of every bucket, by increasing
    /// length.
    pub fn flush_all(&mut self) -> (chunks: Vec<(usize, Vec<u8>)>)
        requires
            old(self).well_formed(),
        ensures
            final(self).well_formed(),
            final(self).same_settings(old(self)),
            final(self).bucket_lengths() == old(self).bucket_lengths(),
            forall|length: usize| final(self).has_bucket(length) == old(self).has_bucket(length),
            forall|length: usize|
                #![trigger final(self).bucket(length)]
                old(self).has_bucket(length) ==> {
                    &&& final(self).bucket(length).pending() == Seq::<u8>::empty()
                    &&& final(self).bucket(length).content() == old(self).bucket(length).content()
                    &&& final(self).bucket(length).lines() == old(self).bucket(length).lines()
                    &&& final(self).bucket(length).only_lines() == old(self).bucket(length).only_lines()
                    &&& final(self).bucket(length).path_text() == old(self).bucket(length).path_text()
                    &&& final(self).bucket(length).buffer_size() == old(self).bucket(
                        length,
                    ).buffer_size()
                },
            chunks@.len() == old(self).bucket_lengths().len(),
            forall|i: int, j: int| 0 <= i < j < chunks@.len() ==> chunks@[i].0 < chunks@[j].0,
            forall|i: int|
                0 <= i < chunks@.len() ==> old(self).has_bucket((#[trigger] chunks@[i]).0)
                    && chunks@[i].1@ == old(self).bucket(chunks@[i].0).pending(),
    {
        let lengths: Vec<usize> = self.lengths();
        let mut chunks: Vec<(usize, Vec<u8>)> = Vec::new();
        let mut i: usize = 0;
        proof {
            lengths@.unique_seq_to_set();
            lemma_increasing_is_unique(lengths@);
        }
        while i < lengths.len()
            invariant
                i <= lengths@.len(),
                strictly_increasing(lengths@),
                lengths@.to_set() == old(self).bucket_lengths(),
                lengths@.len() == old(self).bucket_lengths().len(),
                self.well_formed(),
                self.same_settings(old(self)),
                self.bucket_lengths() == old(self).bucket_lengths(),
                forall|length: usize| self.has_bucket(length) == old(self).has_bucket(length),
                chunks@.len() == i,
                forall|k: int| 0 <= k < i ==> (#[trigger] chunks@[k]).0 == lengths@[k],
                forall|k: int|
                    0 <= k < i ==> (#[trigger] chunks@[k]).1@ == old(self).bucket(lengths@[k]).pending(),
                forall|k: int|
                    #![trigger lengths@[k]]
                    0 <= k < i ==> {
                        let length = lengths@[k];
                        &&& self.bucket(length).pending() == Seq::<u8>::empty()
                        &&& self.bucket(length).content() == old(self).bucket(length).content()
                        &&& self.bucket(length).lines() == old(self).bucket(length).lines()
                        &&& self.bucket(length).only_lines() == old(self).bucket(length).only_lines()
                        &&& self.bucket(length).path_text() == old(self).bucket(length).path_text()
                        &&& self.bucket(length).buffer_size() == old(self).bucket(length).buffer_size()
                    },
                forall|k: int|
                    i <= k < lengths@.len() ==> self.bucket(#[trigger] lengths@[k]) == old(self).bucket(
                        lengths@[k],
                    ),
            decreases lengths@.len() - i,
        {
            let ghost before = *self;
            let length: usize = lengths[i];
            proof {
                assert(lengths@.to_set().contains(length));
            }
            let bytes: Vec<u8> = self.flush(length);
            chunks.push((length, bytes));
            proof {
                assert forall|k: int|
                    #![trigger lengths@[k]]
                    0 <= k < i + 1 implies {
                    let l = lengths@[k];
                    &&& self.bucket(l).pending() == Seq::<u8>::empty()
                    &&& self.bucket(l).content() == old(self).bucket(l).content()
                    &&& self.bucket(l).lines() == old(self).bucket(l).lines()
                    &&& self.bucket(l).only_lines() == old(self).bucket(l).only_lines()
                    &&& self.bucket(l).path_text() == old(self).bucket(l).path_text()
                    &&& self.bucket(l).buffer_size() == old(self).bucket(l).buffer_size()
                } by {
                    if k < i {
                        assert(lengths@[k] < lengths@[i as int]);
                        assert(self.bucket(lengths@[k]) == before.bucket(lengths@[k]));
                    }
                }
                assert forall|k: int| i + 1 <= k < lengths@.len() implies self.bucket(
                    #[trigger] lengths@[k],
                ) == old(self).bucket(lengths@[k]) by {
                    assert(lengths@[i as int] < lengths@[k]);
                    assert(self.bucket(lengths@[k]) == before.bucket(lengths@[k]));
                }
            }
            i = i + 1;
        }
        proof {
            assert forall|length: usize|
                #![trigger self.bucket(length)]
                old(self).has_bucket(length) implies {
                &&& self.bucket(length).pending() == Seq::<u8>::empty()
                &&& self.bucket(length).content() == old(self).bucket(length).content()
                &&& self.bucket(length).lines() == old(self).bucket(length).lines()
                &&& self.bucket(length).only_lines() == old(self).bucket(length).only_lines()
                &&& self.bucket(length).path_text() == old(self).bucket(length).path_text()
                &&& self.bucket(length).buffer_size() == old(self).bucket(length).buffer_size()
            } by {
                assert(lengths@.to_set().contains(length));
                let k = choose|k: int| 0 <= k < lengths@.len() && lengths@[k] == length;
                assert(lengths@[k] == length);
            }
            assert forall|a: int| 0 <= a < chunks@.len() implies old(self).has_bucket(
                (#[trigger] chunks@[a]).0,
            ) && chunks@[a].1@ == old(self).bucket(chunks@[a].0).pending() by {
                assert(lengths@.to_set().contains(lengths@[a]));
            }
        }
        chunks
    }

    /// Get statistics for all outputs: for each bucket its length, the
    /// lines written and the bytes written, by increasing length.
    pub fn get_stats(&self) -> (stats: Vec<(usize, u64, u64)>)
        requires
            self.well_formed(),
        ensures
            stats@.len() == self.bucket_lengths().len(),
            forall|i: int, j: int| 0 <= i < j < stats@.len() ==> stats@[i].0 < stats@[j].0,
            forall|i: int|
                0 <= i < stats@.len() ==> {
                    let entry = #[trigger] stats@[i];
                    &&& self.has_bucket(entry.0)
                    &&& entry.1 == wrapped(self.bucket(entry.0).lines().len())
                    &&& entry.2 == wrapped(self.bucket(entry.0).content().len())
                },
            forall|length: usize|
                self.has_bucket(length) ==> exists|i: int|
                    0 <= i < stats@.len() && (#[trigger] stats@[i]).0 == length,
    {
        let lengths: Vec<usize> = self.lengths();
        let mut stats: Vec<(usize, u64, u64)> = Vec::new();
        let mut i: usize = 0;
        proof {
            lengths@.unique_seq_to_set();
            lemma_increasing_is_unique(lengths@);
        }
        while i < lengths.len()
            invariant
                i <= lengths@.len(),
                self.well_formed(),
                strictly_increasing(lengths@),
                lengths@.to_set() == self.bucket_lengths(),
                stats@.len() == i,
                forall|k: int|
                    0 <= k < i ==> {
                        let entry = #[trigger] stats@[k];
                        &&& entry.0 == lengths@[k]
                        &&& self.has_bucket(entry.0)
                        &&& entry.1 == wrapped(self.bucket(entry.0).lines().len())
                        &&& entry.2 == wrapped(self.bucket(entry.0).content().len())
                    },
            decreases lengths@.len() - i,
        {
            let length: usize = lengths[i];
            proof {
                assert(lengths@.to_set().contains(length));
            }
            match self.writers.get(&length) {
                Some(writer) => {
                    stats.push((length, writer.lines_written(), writer.bytes_written()));
                },
                None => {
                    proof {
                        assert(false);
                    }
                },
            }
            i = i + 1;
        }
        proof {
            assert forall|length: usize| self.has_bucket(length) implies exists|a: int|
                0 <= a < stats@.len() && (#[trigger] stats@[a]).0 == length by {
                assert(lengths@.to_set().contains(length));
                let k = choose|k: int| 0 <= k < lengths@.len() && lengths@[k] == length;
                assert(stats@[k].0 == length);
            }
        }
        stats
    }

    /// Get output paths: for each bucket its length and its path, by
    /// increasing length.
    pub fn get_paths(&self) -> (paths: Vec<(usize, String)>)
        requires
            self.well_formed(),
        ensures
            paths@.len() == self.bucket_lengths().len(),
            forall|i: int, j: int| 0 <= i < j < paths@.len() ==> paths@[i].0 < paths@[j].0,
            forall|i: int|
                0 <= i < paths@.len() ==> {
                    let entry = #[trigger] paths@[i];
                    &&& self.has_bucket(entry.0)
                    &&& entry.1@ == self.bucket(entry.0).path_text()
                },
            forall|length: usize|
                self.has_bucket(length) ==> exists|i: int|
                    0 <= i < paths@.len() && (#[trigger] paths@[i]).0 == length,
    {
        let lengths: Vec<usize> = self.lengths();
        let mut paths: Vec<(usize, String)> = Vec::new();
        let mut i: usize = 0;
        proof {
            lengths@.unique_seq_to_set();
            lemma_increasing_is_unique(lengths@);
        }
        while i < lengths.len()
            invariant
                i <= lengths@.len(),
                self.well_formed(),
                strictly_increasing(lengths@),
                lengths@.to_set() == self.bucket_lengths(),
                paths@.len() == i,
                forall|k: int|
                    0 <= k < i ==> {
                        let entry = #[trigger] paths@[k];
                        &&& entry.0 == lengths@[k]
                        &&& self.has_bucket(entry.0)
                        &&& entry.1@ == self.bucket(entry.0).path_text()
                    },
            decreases lengths@.len() - i,
        {
            let length: usize = lengths[i];
            proof {
                assert(lengths@.to_set().contains(length));
            }
            match self.writers.get(&length) {
                Some(writer) => {
                    paths.push((length, writer.path()));
                },
                None => {
                    proof {
                        assert(false);
                    }
                },
            }
            i = i + 1;
        }
        proof {
            assert forall|length: usize| self.has_bucket(length) implies exists|a: int|
                0 <= a < paths@.len() && (#[trigger] paths@[a]).0 == length by {
                assert(lengths@.to_set().contains(length));
                let k = choose|k: int| 0 <= k < lengths@.len() && lengths@[k] == length;
                assert(paths@[k].0 == length);
            }
        }
        paths
    }
}

/// A list in strictly increasing order holds no value twice.
pub proof fn lemma_increasing_is_unique(list: Seq<usize>)
    requires
        strictly_increasing(list),
    ensures
        list.no_duplicates(),
{
}


/// What a flush hands over.
pub enum Flushed {
    /// The pending bytes of the single output.
    Single(Vec<u8>),
    /// The pending bytes of every bucket, by increasing length.
    Multi(Vec<(usize, Vec<u8>)>),
}

/// Output mode for the processor
pub enum OutputMode {
    /// Single file for all output
    Single(SingleOutputManager),
    /// Multiple files by length
    Multi(MultiOutputManager),
}

impl OutputMode {
    pub open spec fn well_formed(&self) -> bool {
        match self {
            OutputMode::Single(manager) => manager.writer().well_formed(),
            OutputMode::Multi(manager) => manager.well_formed(),
        }
    }

    /// Create single output mode
    pub fn single(path: String, buffer_size: usize) -> (mode: Self)
        ensures
            mode matches OutputMode::Single(manager) && is_new_writer(manager.writer(), path@, buffer_size),
    {
        OutputMode::Single(SingleOutputManager::new(path, buffer_size))
    }

    /// Create multi output mode, with a new bucket for each length
    pub fn multi(output_dir: String, prefix: &str, lengths: &[usize], buffer_size: usize) -> (mode: Self)
        ensures
            mode matches OutputMode::Multi(manager) && {
                &&& manager.well_formed()
                &&& manager.output_dir() == output_dir@
                &&& manager.prefix() == prefix@
                &&& manager.buffer_size() == buffer_size
                &&& manager.bucket_lengths() == lengths@.to_set()
                &&& forall|length: usize|
                    #![trigger manager.has_bucket(length)]
                    #![trigger manager.bucket(length)]
                    if lengths@.contains(length) {
                        manager.has_bucket(length) && is_new_writer(
                            manager.bucket(length),
                            manager.bucket_path(length),
                            buffer_size,
                        )
                    } else {
                        !manager.has_bucket(length)
                    }
            },
    {
        let mut manager = MultiOutputManager::new(output_dir, prefix, buffer_size);
        manager.init_lengths(lengths);
        proof {
            assert(manager.bucket_lengths() =~= lengths@.to_set());
        }
        OutputMode::Multi(manager)
    }

    /// Write a line (routes to appropriate file in multi mode)
    pub fn write_line(&mut self, line: &str, length: usize)
        requires
            old(self).well_formed(),
        ensures
            final(self).well_formed(),
            match (*old(self), *final(self)) {
                (OutputMode::Single(before), OutputMode::Single(after)) => {
                    &&& after.writer().lines() == before.writer().lines().push(line@)
                    &&& after.writer().content() == before.writer().content() + line_bytes(line@)
                    &&& after.writer().pending() == before.writer().pending() + line_bytes(line@)
                    &&& after.writer().only_lines() == before.writer().only_lines()
                    &&& after.writer().path_text() == before.writer().path_text()
                    &&& after.writer().buffer_size() == before.writer().buffer_size()
                },
                (OutputMode::Multi(before), OutputMode::Multi(after)) => {
                    &&& after.same_settings(&before)
                    &&& after.bucket_lengths() == before.bucket_lengths()
                    &&& forall|other: usize|
                        other != length ==> #[trigger] after.bucket(other) == before.bucket(other)
                    &&& if before.has_bucket(length) {
                        &&& after.bucket(length).lines() == before.bucket(length).lines().push(line@)
                        &&& after.bucket(length).content() == before.bucket(length).content()
                            + line_bytes(line@)
                        &&& after.bucket(length).pending() == before.bucket(length).pending()
                            + line_bytes(line@)
                        &&& after.bucket(length).only_lines() == before.bucket(length).only_lines()
                        &&& after.bucket(length).path_text() == before.bucket(length).path_text()
                        &&& after.bucket(length).buffer_size() == before.bucket(length).buffer_size()
                    } else {
                        after.bucket(length) == before.bucket(length)
                    }
                },
                _ => false,
            },
    {
        match self {
            OutputMode::Single(manager) => manager.write_line(line),
            OutputMode::Multi(manager) => manager.write_line(line, length),
        }
    }

    /// Flush all outputs
    pub fn flush(&mut self) -> (flushed: Flushed)
        requires
            old(self).well_formed(),
        ensures
            final(self).well_formed(),
            match (*old(self), *final(self), flushed) {
                (OutputMode::Single(before), OutputMode::Single(after), Flushed::Single(bytes)) => {
                    &&& bytes@ == before.writer().pending()
                    &&& after.writer().pending() == Seq::<u8>::empty()
                    &&& after.writer().content() == before.writer().content()
                    &&& after.writer().lines() == before.writer().lines()
                    &&& after.writer().only_lines() == before.writer().only_lines()
                    &&& after.writer().path_text() == before.writer().path_text()
                    &&& after.writer().buffer_size() == before.writer().buffer_size()
                },
                (OutputMode::Multi(before), OutputMode::Multi(after), Flushed::Multi(chunks)) => {
                    &&& after.same_settings(&before)
                    &&& after.bucket_lengths() == before.bucket_lengths()
                    &&& chunks@.len() == before.bucket_lengths().len()
                    &&& forall|i: int, j: int| 0 <= i < j < chunks@.len() ==> chunks@[i].0 < chunks@[j].0
                    &&& forall|i: int|
                        0 <= i < chunks@.len() ==> before.has_bucket((#[trigger] chunks@[i]).0)
                            && chunks@[i].1@ == before.bucket(chunks@[i].0).pending()
                    &&& forall|length: usize|
                        #![trigger after.bucket(length)]
                        before.has_bucket(length) ==> {
                            &&& after.bucket(length).pending() == Seq::<u8>::empty()
                            &&& after.bucket(length).content() == before.bucket(length).content()
                            &&& after.bucket(length).lines() == before.bucket(length).lines()
                            &&& after.bucket(length).only_lines() == before.bucket(length).only_lines()
                            &&& after.bucket(length).path_text() == before.bucket(length).path_text()
                            &&& after.bucket(length).buffer_size() == before.bucket(
                                length,
                            ).buffer_size()
                        }
                },
                _ => false,
            },
    {
        match self {
            OutputMode::Single(manager) => Flushed::Single(manager.flush()),
            OutputMode::Multi(manager) => Flushed::Multi(manager.flush_all()),
        }
    }
}

} // verus!
