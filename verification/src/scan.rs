//! The scan of the lines of a file: each line is stripped of its
//! terminator, filtered, checked against the engine of its bucket and, if it
//! is new, written. The model of a scan over a sequence of lines stands
//! beside the functions that perform it.

use crate::dedup::{DedupKind, Deduplicator};
use crate::encoding::{LineError, MmapLineIterator};
use crate::filter::{FilterConfig, MultiLengthRouter, SingleLengthFilter};
use crate::output::{
    lemma_grew_by_line, lemma_grew_from_itself, lemma_grew_from_twice, line_bytes, MultiOutputManager,
    SingleOutputManager,
};
use crate::progress::ProcessingStats;
use crate::text::{line_without_terminator, trim_line_end};
use vstd::prelude::*;

verus! {

/// What became of a line.
#[derive(Debug, Clone, Copy, PartialEq, Eq, Structural)]
pub enum LineOutcome {
    /// Empty once its terminator was removed: not counted.
    Skipped,
    /// Could not be decoded.
    Failed,
    /// Refused by the filter.
    Rejected,
    /// Accepted by the filter and recognized by the engine.
    Duplicate,
    /// Accepted, new, and written.
    Written,
}

/// A filter that accepts or rejects a word.
pub trait WordFilter {
    /// Whether the filter accepts `word`.
    spec fn passes(&self, word: Seq<char>) -> bool;

    /// Decides on `word`.
    fn check(&self, word: &str) -> (accepted: bool)
        ensures
            accepted == self.passes(word@),
    ;
}

impl WordFilter for FilterConfig {
    open spec fn passes(&self, word: Seq<char>) -> bool {
        self.accepts(word)
    }

    fn check(&self, word: &str) -> (accepted: bool) {
        self.matches(word)
    }
}

impl WordFilter for SingleLengthFilter {
    open spec fn passes(&self, word: Seq<char>) -> bool {
        self.accepts(word)
    }

    fn check(&self, word: &str) -> (accepted: bool) {
        self.matches(word)
    }
}

/// A counter advanced by `steps`, wrapping around at 2^64.
#[verifier::opaque]
pub open spec fn advanced(counter: u64, steps: nat) -> u64 {
    ((counter + steps) % 0x1_0000_0000_0000_0000) as u64
}

/// The statistics after lines with the given counts were seen.
pub open spec fn stats_advanced(
    stats: ProcessingStats,
    lines: nat,
    matched: nat,
    duplicates: nat,
    errors: nat,
) -> ProcessingStats {
    ProcessingStats {
        total_lines: advanced(stats.total_lines, lines),
        matched_lines: advanced(stats.matched_lines, matched),
        duplicate_lines: advanced(stats.duplicate_lines, duplicates),
        error_lines: advanced(stats.error_lines, errors),
        ..stats
    }
}

/// What a scan has seen and done so far, for one bucket.
pub struct ScanState {
    /// The words that the engine recognizes.
    pub seen: Set<Seq<char>>,
    /// The words written, in order.
    pub emitted: Seq<Seq<char>>,
    /// The lines counted: those not empty.
    pub lines: nat,
    /// The lines that the filter accepted.
    pub matched: nat,
    /// The accepted lines that the engine recognized.
    pub duplicates: nat,
    /// The lines that could not be decoded.
    pub errors: nat,
}

/// The state in which a scan starts.
pub open spec fn scan_start(seen: Set<Seq<char>>, emitted: Seq<Seq<char>>) -> ScanState {
    ScanState { seen, emitted, lines: 0, matched: 0, duplicates: 0, errors: 0 }
}

/// What becomes of a line in a given state.
pub open spec fn line_outcome<F: WordFilter>(
    filter: &F,
    seen: Set<Seq<char>>,
    line: Result<Seq<char>, LineError>,
) -> LineOutcome {
    match line {
        Err(_) => LineOutcome::Failed,
        Ok(raw) => {
            let word = line_without_terminator(raw);
            if word.len() == 0 {
                LineOutcome::Skipped
            } else if !filter.passes(word) {
                LineOutcome::Rejected
            } else if seen.contains(word) {
                LineOutcome::Duplicate
            } else {
                LineOutcome::Written
            }
        },
    }
}

/// The state after one more line. An engine that remembers (`exact`) then
/// recognizes the word of every accepted line; one that does not, keeps
/// recognizing what it did.
pub open spec fn scan_step<F: WordFilter>(
    filter: &F,
    exact: bool,
    state: ScanState,
    line: Result<Seq<char>, LineError>,
) -> ScanState {
    match line_outcome(filter, state.seen, line) {
        LineOutcome::Failed => ScanState { errors: state.errors + 1, ..state },
        LineOutcome::Skipped => state,
        LineOutcome::Rejected => ScanState { lines: state.lines + 1, ..state },
        LineOutcome::Duplicate => ScanState {
            lines: state.lines + 1,
            matched: state.matched + 1,
            duplicates: state.duplicates + 1,
            ..state
        },
        LineOutcome::Written => ScanState {
            lines: state.lines + 1,
            matched: state.matched + 1,
            emitted: state.emitted.push(line_without_terminator(line->Ok_0)),
            seen: if exact {
                state.seen.insert(line_without_terminator(line->Ok_0))
            } else {
                state.seen
            },
            ..state
        },
    }
}

/// The state after all of `lines`, in order.
pub open spec fn scan_all<F: WordFilter>(
    filter: &F,
    exact: bool,
    start: ScanState,
    lines: Seq<Result<Seq<char>, LineError>>,
) -> ScanState
    decreases lines.len(),
{
    if lines.len() == 0 {
        start
    } else {
        scan_step(filter, exact, scan_all(filter, exact, start, lines.drop_last()), lines.last())
    }
}

/// Whether the filter accepts the word of a line: the line is decoded, it
/// is not empty without its terminator, and the filter passes it.
pub open spec fn is_accepted<F: WordFilter>(filter: &F, line: Result<Seq<char>, LineError>) -> bool {
    line matches Ok(raw) && line_without_terminator(raw).len() > 0 && filter.passes(
        line_without_terminator(raw),
    )
}

/// The words of the lines that the filter accepts, in the order of the
/// lines.
pub open spec fn accepted_words<F: WordFilter>(
    filter: &F,
    lines: Seq<Result<Seq<char>, LineError>>,
) -> Seq<Seq<char>>
    decreases lines.len(),
{
    if lines.len() == 0 {
        Seq::empty()
    } else if is_accepted(filter, lines.last()) {
        accepted_words(filter, lines.drop_last()).push(line_without_terminator(lines.last()->Ok_0))
    } else {
        accepted_words(filter, lines.drop_last())
    }
}

/// Whether `part` is made of elements of `whole`, in their order.
pub open spec fn is_subsequence(part: Seq<Seq<char>>, whole: Seq<Seq<char>>) -> bool
    decreases whole.len(),
{
    if part.len() == 0 {
        true
    } else if whole.len() == 0 {
        false
    } else {
        (part.last() == whole.last() && is_subsequence(part.drop_last(), whole.drop_last()))
            || is_subsequence(part, whole.drop_last())
    }
}

/// A bucket as a scan sees it: what its engine recognizes, what the call
/// has counted, and the lines of its output, if it has one.
pub struct BucketView {
    /// The words that the engine recognizes.
    pub seen: Set<Seq<char>>,
    /// The lines counted by the call: those not empty.
    pub lines: nat,
    /// The lines that could not be decoded.
    pub errors: nat,
    /// The lines that belong to the bucket.
    pub matched: nat,
    /// Those of them that the engine recognized.
    pub duplicates: nat,
    /// Those of them that were written.
    pub written: nat,
    /// The lines of the output of the bucket, if it has one.
    pub output: Option<Seq<Seq<char>>>,
}

/// What one line does to what an engine recognizes. Nothing is forgotten,
/// and a line that the filter does not accept changes nothing. The word of
/// an accepted line is recognized afterwards, unless the engine remembers
/// nothing; an exact engine comes to recognize that word and no other.
pub open spec fn seen_step_holds<F: WordFilter>(
    filter: &F,
    kind: DedupKind,
    line: Result<Seq<char>, LineError>,
    before: Set<Seq<char>>,
    after: Set<Seq<char>>,
) -> bool {
    let outcome = line_outcome(filter, before, line);
    let word = line_without_terminator(line->Ok_0);
    &&& before.subset_of(after)
    &&& !is_accepted(filter, line) ==> after == before
    &&& match kind {
        DedupKind::Exact => after == if outcome == LineOutcome::Written {
            before.insert(word)
        } else {
            before
        },
        DedupKind::PassThrough => after == before,
        DedupKind::Probabilistic => is_accepted(filter, line) ==> after.contains(word),
    }
}

/// Whether an engine that recognizes `seen` recognizes each of `words`.
pub open spec fn all_recognized(words: Seq<Seq<char>>, seen: Set<Seq<char>>) -> bool {
    forall|i: int| 0 <= i < words.len() ==> seen.contains(#[trigger] words[i])
}

/// Whether the words that an output gained are new: none was recognized
/// when the scan began, each is recognized now, and none occurs twice.
pub open spec fn fresh_words(
    start_seen: Set<Seq<char>>,
    seen: Set<Seq<char>>,
    gained: Seq<Seq<char>>,
) -> bool {
    &&& forall|i: int|
        0 <= i < gained.len() ==> !start_seen.contains(#[trigger] gained[i]) && seen.contains(
            gained[i],
        )
    &&& forall|i: int, j: int|
        #![trigger gained[i], gained[j]]
        0 <= i < j < gained.len() ==> gained[i] != gained[j]
}

/// What the engine recognized before line `i` of a scan, where `seens[i]`
/// is what it recognized after line `i`.
pub open spec fn seen_before(
    start_seen: Set<Seq<char>>,
    seens: Seq<Set<Seq<char>>>,
    i: int,
) -> Set<Seq<char>> {
    if i == 0 {
        start_seen
    } else {
        seens[i - 1]
    }
}

/// Whether `seens` can be what an engine of the kind recognized after each
/// of `lines`, one after the other.
pub open spec fn history_fits<F: WordFilter>(
    filter: &F,
    kind: DedupKind,
    start_seen: Set<Seq<char>>,
    seens: Seq<Set<Seq<char>>>,
    lines: Seq<Result<Seq<char>, LineError>>,
) -> bool {
    &&& seens.len() == lines.len()
    &&& forall|i: int|
        0 <= i < lines.len() ==> seen_step_holds(
            filter,
            kind,
            #[trigger] lines[i],
            seen_before(start_seen, seens, i),
            seens[i],
        )
}

/// The state after `lines` where the engine recognized `seens[i]` after
/// line `i`: each line has the outcome of `line_outcome` against what the
/// engine recognized before it.
pub open spec fn replay<F: WordFilter>(
    filter: &F,
    start_seen: Set<Seq<char>>,
    start_lines: Seq<Seq<char>>,
    seens: Seq<Set<Seq<char>>>,
    lines: Seq<Result<Seq<char>, LineError>>,
) -> ScanState
    decreases lines.len(),
{
    if lines.len() == 0 {
        scan_start(start_seen, start_lines)
    } else {
        let before = replay(
            filter,
            start_seen,
            start_lines,
            seens.take(lines.len() - 1),
            lines.drop_last(),
        );
        ScanState { seen: seens[lines.len() - 1], ..scan_step(filter, false, before, lines.last()) }
    }
}

/// Whether a bucket stands as the replay of the consumed lines says, with
/// `seens` as what its engine recognized after each line.
pub open spec fn follows_history<F: WordFilter>(
    filter: &F,
    kind: DedupKind,
    start_seen: Set<Seq<char>>,
    start_output: Option<Seq<Seq<char>>>,
    consumed: Seq<Result<Seq<char>, LineError>>,
    seens: Seq<Set<Seq<char>>>,
    now: BucketView,
) -> bool {
    let start_lines = match start_output {
        Some(lines) => lines,
        None => Seq::empty(),
    };
    let state = replay(filter, start_seen, start_lines, seens, consumed);
    &&& history_fits(filter, kind, start_seen, seens, consumed)
    &&& now.seen == state.seen
    &&& now.lines == state.lines
    &&& now.errors == state.errors
    &&& now.matched == state.matched
    &&& now.duplicates == state.duplicates
    &&& start_lines.len() + now.written == state.emitted.len()
    &&& now.output matches Some(lines) ==> lines == state.emitted
}

/// What one line does to a bucket, whatever the kind of its engine: the
/// outcome is that of the line against what the engine recognizes, the
/// counts go up by it, a written word is appended to the output, and the
/// engine comes to recognize as its kind says.
pub open spec fn bucket_step_holds<F: WordFilter>(
    filter: &F,
    kind: DedupKind,
    line: Result<Seq<char>, LineError>,
    before: BucketView,
    after: BucketView,
) -> bool {
    let outcome = line_outcome(filter, before.seen, line);
    let word = line_without_terminator(line->Ok_0);
    &&& after.lines == before.lines + if outcome == LineOutcome::Failed || outcome
        == LineOutcome::Skipped {
        0nat
    } else {
        1nat
    }
    &&& after.errors == before.errors + if outcome == LineOutcome::Failed {
        1nat
    } else {
        0nat
    }
    &&& after.matched == before.matched + if outcome == LineOutcome::Duplicate || outcome
        == LineOutcome::Written {
        1nat
    } else {
        0nat
    }
    &&& after.duplicates == before.duplicates + if outcome == LineOutcome::Duplicate {
        1nat
    } else {
        0nat
    }
    &&& after.written == before.written + if outcome == LineOutcome::Written {
        1nat
    } else {
        0nat
    }
    &&& seen_step_holds(filter, kind, line, before.seen, after.seen)
    &&& after.output == match before.output {
        Some(lines) => Some(
            if outcome == LineOutcome::Written {
                lines.push(word)
            } else {
                lines
            },
        ),
        None => None::<Seq<Seq<char>>>,
    }
}

/// Whether a bucket stands, after the lines consumed, as the model of the
/// scan says, given what its engine recognized and what its output held
/// when the call began.
///
/// For an engine of every kind, the bucket stands as the replay of the
/// consumed lines says, for some history of what the engine recognized
/// that fits its kind: each line was written, dropped as a duplicate,
/// rejected, skipped or counted as an error as `line_outcome` says of it
/// and of what the engine recognized just before. Further, and again for
/// an engine of every kind: the lines counted, the errors and the
/// lines matched are those of the model; every matched line was written or
/// dropped as a duplicate; and what the output gained are words of
/// consumed lines that the filter accepts, in the order of the lines. For
/// an engine that remembers, exact or probabilistic: it now recognizes the
/// word of every accepted line, no word that the output gained was
/// recognized when the scan began, and none was gained twice. For an
/// engine that is not probabilistic, what the engine recognizes, the
/// duplicates and the output itself are those of the model.
pub open spec fn bucket_follows<F: WordFilter>(
    filter: &F,
    kind: DedupKind,
    start_seen: Set<Seq<char>>,
    start_output: Option<Seq<Seq<char>>>,
    consumed: Seq<Result<Seq<char>, LineError>>,
    now: BucketView,
) -> bool {
    let start_lines = match start_output {
        Some(lines) => lines,
        None => Seq::empty(),
    };
    let model = scan_all(filter, kind == DedupKind::Exact, scan_start(start_seen, start_lines), consumed);
    &&& exists|seens: Seq<Set<Seq<char>>>|
        follows_history(filter, kind, start_seen, start_output, consumed, seens, now)
    &&& now.lines == model.lines
    &&& now.errors == model.errors
    &&& now.matched == model.matched
    &&& now.matched == accepted_words(filter, consumed).len()
    &&& now.written + now.duplicates == now.matched
    &&& start_seen.subset_of(now.seen)
    &&& kind != DedupKind::PassThrough ==> all_recognized(accepted_words(filter, consumed), now.seen)
    &&& kind != DedupKind::Probabilistic ==> {
        &&& now.seen == model.seen
        &&& now.duplicates == model.duplicates
        &&& start_lines.len() + now.written == model.emitted.len()
    }
    &&& match (start_output, now.output) {
        (Some(before), Some(after)) => {
            &&& after.len() == before.len() + now.written
            &&& after.take(before.len() as int) == before
            &&& is_subsequence(after.skip(before.len() as int), accepted_words(filter, consumed))
            &&& kind != DedupKind::PassThrough ==> fresh_words(
                start_seen,
                now.seen,
                after.skip(before.len() as int),
            )
            &&& kind != DedupKind::Probabilistic ==> after == model.emitted
        },
        (None, None) => true,
        _ => false,
    }
}

/// A part stays a part when the whole gains an element.
pub proof fn lemma_subsequence_of_longer(part: Seq<Seq<char>>, whole: Seq<Seq<char>>, word: Seq<char>)
    requires
        is_subsequence(part, whole),
    ensures
        is_subsequence(part, whole.push(word)),
{
    assert(whole.push(word).drop_last() == whole);
}

/// A part stays a part when both gain the same element.
pub proof fn lemma_subsequence_grows(part: Seq<Seq<char>>, whole: Seq<Seq<char>>, word: Seq<char>)
    requires
        is_subsequence(part, whole),
    ensures
        is_subsequence(part.push(word), whole.push(word)),
{
    assert(whole.push(word).drop_last() == whole);
    assert(part.push(word).drop_last() == part);
}

/// New words stay new when the engine comes to recognize more.
pub proof fn lemma_fresh_words_kept(
    start_seen: Set<Seq<char>>,
    seen_before: Set<Seq<char>>,
    seen_after: Set<Seq<char>>,
    gained: Seq<Seq<char>>,
)
    requires
        fresh_words(start_seen, seen_before, gained),
        seen_before.subset_of(seen_after),
    ensures
        fresh_words(start_seen, seen_after, gained),
{
}

/// New words with one more, which the engine did not recognize and now
/// does, are new.
pub proof fn lemma_fresh_words_grow(
    start_seen: Set<Seq<char>>,
    seen_before: Set<Seq<char>>,
    seen_after: Set<Seq<char>>,
    gained: Seq<Seq<char>>,
    word: Seq<char>,
)
    requires
        fresh_words(start_seen, seen_before, gained),
        start_seen.subset_of(seen_before),
        seen_before.subset_of(seen_after),
        !seen_before.contains(word),
        seen_after.contains(word),
    ensures
        fresh_words(start_seen, seen_after, gained.push(word)),
{
    let longer = gained.push(word);
    assert forall|i: int| 0 <= i < longer.len() implies !start_seen.contains(#[trigger] longer[i])
        && seen_after.contains(longer[i]) by {
        if i < gained.len() {
            assert(longer[i] == gained[i]);
        }
    }
    assert forall|i: int, j: int|
        #![trigger longer[i], longer[j]]
        0 <= i < j < longer.len() implies longer[i] != longer[j] by {
        assert(longer[i] == gained[i]);
        if j < gained.len() {
            assert(longer[j] == gained[j]);
        }
    }
}

/// A bucket that stands as a replay says before a line, and to which the
/// line does what `bucket_step_holds` says, stands as the replay with one
/// more line says.
pub proof fn lemma_follows_history_step<F: WordFilter>(
    filter: &F,
    kind: DedupKind,
    start_seen: Set<Seq<char>>,
    start_output: Option<Seq<Seq<char>>>,
    consumed: Seq<Result<Seq<char>, LineError>>,
    seens: Seq<Set<Seq<char>>>,
    line: Result<Seq<char>, LineError>,
    before: BucketView,
    after: BucketView,
)
    requires
        follows_history(filter, kind, start_seen, start_output, consumed, seens, before),
        bucket_step_holds(filter, kind, line, before, after),
    ensures
        follows_history(
            filter,
            kind,
            start_seen,
            start_output,
            consumed.push(line),
            seens.push(after.seen),
            after,
        ),
{
    let longer = consumed.push(line);
    let history = seens.push(after.seen);
    let count = consumed.len() as int;
    assert(longer.drop_last() == consumed);
    assert(longer.last() == line);
    assert(history.take(count) == seens);
    assert(seen_before(start_seen, history, count) == before.seen);
    assert forall|i: int| 0 <= i < longer.len() implies seen_step_holds(
        filter,
        kind,
        #[trigger] longer[i],
        seen_before(start_seen, history, i),
        history[i],
    ) by {
        if i < count {
            assert(longer[i] == consumed[i]);
            assert(history[i] == seens[i]);
            assert(seen_before(start_seen, history, i) == seen_before(start_seen, seens, i));
        }
    }
}

/// A bucket that stands as the model says before a line, and to which the
/// line does what `bucket_step_holds` says, stands as the model says after
/// it.
pub proof fn lemma_bucket_follows_step<F: WordFilter>(
    filter: &F,
    kind: DedupKind,
    start_seen: Set<Seq<char>>,
    start_output: Option<Seq<Seq<char>>>,
    consumed: Seq<Result<Seq<char>, LineError>>,
    line: Result<Seq<char>, LineError>,
    before: BucketView,
    after: BucketView,
)
    requires
        bucket_follows(filter, kind, start_seen, start_output, consumed, before),
        bucket_step_holds(filter, kind, line, before, after),
    ensures
        bucket_follows(filter, kind, start_seen, start_output, consumed.push(line), after),
{
    let longer = consumed.push(line);
    assert(longer.drop_last() == consumed);
    assert(longer.last() == line);
    let seens = choose|seens: Seq<Set<Seq<char>>>|
        follows_history(filter, kind, start_seen, start_output, consumed, seens, before);
    lemma_follows_history_step(
        filter,
        kind,
        start_seen,
        start_output,
        consumed,
        seens,
        line,
        before,
        after,
    );
    let start_lines = match start_output {
        Some(lines) => lines,
        None => Seq::empty(),
    };
    let exact = kind == DedupKind::Exact;
    let model = scan_all(filter, exact, scan_start(start_seen, start_lines), consumed);
    let next = scan_all(filter, exact, scan_start(start_seen, start_lines), longer);
    assert(next == scan_step(filter, exact, model, line));
    let outcome = line_outcome(filter, before.seen, line);
    let modelled = line_outcome(filter, model.seen, line);
    let word = line_without_terminator(line->Ok_0);
    let words = accepted_words(filter, consumed);
    assert(is_accepted(filter, line) == (outcome == LineOutcome::Duplicate || outcome
        == LineOutcome::Written));
    assert(is_accepted(filter, line) == (modelled == LineOutcome::Duplicate || modelled
        == LineOutcome::Written));
    assert((outcome == LineOutcome::Failed) == (modelled == LineOutcome::Failed));
    assert((outcome == LineOutcome::Skipped) == (modelled == LineOutcome::Skipped));
    if kind != DedupKind::PassThrough {
        let longer_words = accepted_words(filter, longer);
        assert forall|i: int| 0 <= i < longer_words.len() implies after.seen.contains(
            #[trigger] longer_words[i],
        ) by {
            if i < words.len() {
                assert(longer_words[i] == words[i]);
                assert(before.seen.contains(words[i]));
            }
        }
    }
    if let (Some(held), Some(had)) = (start_output, before.output) {
        let gained = had.skip(held.len() as int);
        if outcome == LineOutcome::Written {
            assert(had.push(word).skip(held.len() as int) == gained.push(word));
            assert(had.push(word).take(held.len() as int) == had.take(held.len() as int));
            lemma_subsequence_grows(gained, words, word);
            if kind != DedupKind::PassThrough {
                lemma_fresh_words_grow(start_seen, before.seen, after.seen, gained, word);
            }
        } else {
            if outcome == LineOutcome::Duplicate {
                lemma_subsequence_of_longer(gained, words, word);
            }
            if kind != DedupKind::PassThrough {
                lemma_fresh_words_kept(start_seen, before.seen, after.seen, gained);
            }
        }
    }
}

/// A bucket stands as the model says when nothing is consumed and nothing
/// counted.
pub proof fn lemma_bucket_follows_start<F: WordFilter>(
    filter: &F,
    kind: DedupKind,
    start_seen: Set<Seq<char>>,
    start_output: Option<Seq<Seq<char>>>,
)
    ensures
        bucket_follows(
            filter,
            kind,
            start_seen,
            start_output,
            Seq::empty(),
            BucketView {
                seen: start_seen,
                lines: 0,
                errors: 0,
                matched: 0,
                duplicates: 0,
                written: 0,
                output: start_output,
            },
        ),
{
    if let Some(held) = start_output {
        assert(held.take(held.len() as int) == held);
    }
    assert(follows_history(
        filter,
        kind,
        start_seen,
        start_output,
        Seq::empty(),
        Seq::empty(),
        BucketView {
            seen: start_seen,
            lines: 0,
            errors: 0,
            matched: 0,
            duplicates: 0,
            written: 0,
            output: start_output,
        },
    ));
}

/// What one call of a scan did.
#[derive(Debug, Clone, Copy, PartialEq, Eq, Structural)]
pub struct ScanReport {
    /// Whether the end of the data was reached. If not, the scan stopped
    /// because a flush of the output is due.
    pub finished: bool,
    /// The lines counted: those not empty.
    pub lines: u64,
    /// The lines that the filter accepted.
    pub matched: u64,
    /// The accepted lines dropped as duplicates.
    pub duplicates: u64,
    /// The lines written.
    pub written: u64,
    /// The lines that could not be decoded.
    pub errors: u64,
}

/// The lines that lie between two positions of a line source.
pub open spec fn consumed_lines(before: MmapLineIterator, after: MmapLineIterator) -> Seq<
    Result<Seq<char>, LineError>,
> {
    before.remaining().take(before.remaining().len() - after.remaining().len())
}


/// What the handling of one line guarantees: how the statistics, the engine
/// and the output stand after it, for the outcome it had.
pub open spec fn line_step_holds<D: Deduplicator>(
    line: Seq<char>,
    outcome: LineOutcome,
    stats_before: ProcessingStats,
    stats_after: ProcessingStats,
    dedup_before: &D,
    dedup_after: &D,
    output_before: SingleOutputManager,
    output_after: SingleOutputManager,
) -> bool {
    let word = line_without_terminator(line);
    &&& stats_after == stats_advanced(
        stats_before,
        if outcome == LineOutcome::Skipped {
            0
        } else {
            1
        },
        if outcome == LineOutcome::Duplicate || outcome == LineOutcome::Written {
            1
        } else {
            0
        },
        if outcome == LineOutcome::Duplicate {
            1
        } else {
            0
        },
        0,
    )
    &&& dedup_after.well_formed()
    &&& dedup_after.kind() == dedup_before.kind()
    &&& dedup_before.recognized().subset_of(dedup_after.recognized())
    &&& outcome == LineOutcome::Skipped || outcome == LineOutcome::Rejected ==> *dedup_after
        == *dedup_before
    &&& dedup_before.kind() == DedupKind::Exact ==> dedup_after.recognized() == if outcome
        == LineOutcome::Written {
        dedup_before.recognized().insert(word)
    } else {
        dedup_before.recognized()
    }
    &&& dedup_before.kind() == DedupKind::PassThrough ==> dedup_after.recognized()
        == dedup_before.recognized()
    &&& dedup_before.kind() != DedupKind::PassThrough && (outcome == LineOutcome::Duplicate
        || outcome == LineOutcome::Written) ==> dedup_after.recognized().contains(word)
    &&& output_after.writer().well_formed()
    &&& output_after.writer().only_lines() == output_before.writer().only_lines()
    &&& output_after.writer().path_text() == output_before.writer().path_text()
    &&& output_after.writer().buffer_size() == output_before.writer().buffer_size()
    &&& output_after.writer().lines() == if outcome == LineOutcome::Written {
        output_before.writer().lines().push(word)
    } else {
        output_before.writer().lines()
    }
    &&& output_after.writer().pending() == if outcome == LineOutcome::Written {
        output_before.writer().pending() + line_bytes(word)
    } else {
        output_before.writer().pending()
    }
    &&& output_after.writer().content() == if outcome == LineOutcome::Written {
        output_before.writer().content() + line_bytes(word)
    } else {
        output_before.writer().content()
    }
    &&& outcome != LineOutcome::Written ==> output_after == output_before
}

/// Handles one line: removes a single trailing line terminator, skips the
/// line if nothing is left, asks the filter, then the engine, and writes
/// the word if it is new.
pub fn process_line<F: WordFilter, D: Deduplicator>(
    stats: &mut ProcessingStats,
    line: &str,
    filter: &F,
    dedup: &mut D,
    output: &mut SingleOutputManager,
) -> (outcome: LineOutcome)
    requires
        old(dedup).well_formed(),
        old(output).writer().well_formed(),
    ensures
        outcome == line_outcome(filter, old(dedup).recognized(), Ok::<Seq<char>, LineError>(line@)),
        line_step_holds(
            line@,
            outcome,
            *old(stats),
            *final(stats),
            old(dedup),
            final(dedup),
            *old(output),
            *final(output),
        ),
{
    let word: &str = trim_line_end(line);
    if word.is_empty() {
        proof {
            lemma_advanced_zero(*stats);
        }
        return LineOutcome::Skipped;
    }
    proof {
        lemma_advanced_one();
    }
    stats.add_line();
    if !filter.check(word) {
        return LineOutcome::Rejected;
    }
    stats.add_match();
    if dedup.insert(word) {
        output.write_line(word);
        LineOutcome::Written
    } else {
        stats.add_duplicate();
        proof {
            if old(dedup).kind() == DedupKind::Exact {
                assert(old(dedup).recognized().insert(word@) =~= old(dedup).recognized());
            }
        }
        LineOutcome::Duplicate
    }
}

/// What a scan of a single output guarantees: how the line source, the
/// statistics, the engine and the output stand after the call, given how
/// they stood before. The scan ends at the end of the data or where a
/// flush is due; it stops without a line consumed only where the caller
/// left bytes pending. The one bucket stands as `bucket_follows` says, and
/// the bytes of the output, pending and in all, are those it held followed
/// by the bytes of the lines it gained.
pub open spec fn single_scan_holds<F: WordFilter, D: Deduplicator>(
    filter: &F,
    lines_before: MmapLineIterator,
    lines_after: MmapLineIterator,
    stats_before: ProcessingStats,
    stats_after: ProcessingStats,
    dedup_before: &D,
    dedup_after: &D,
    output_before: SingleOutputManager,
    output_after: SingleOutputManager,
    report: ScanReport,
) -> bool {
    let consumed = consumed_lines(lines_before, lines_after);
    let written_before = output_before.writer().lines();
    let written_after = output_after.writer().lines();
    &&& lines_after.well_formed()
    &&& lines_after.data() == lines_before.data()
    &&& lines_after.encoding_text() == lines_before.encoding_text()
    &&& lines_before.remaining() == consumed + lines_after.remaining()
    &&& report.finished ==> lines_after.remaining().len() == 0
    &&& !report.finished ==> output_after.writer().flush_due()
    &&& !report.finished && consumed.len() == 0 ==> output_before.writer().pending().len() > 0
    &&& stats_after == stats_advanced(
        stats_before,
        report.lines as nat,
        report.matched as nat,
        report.duplicates as nat,
        report.errors as nat,
    )
    &&& report.written + report.duplicates == report.matched
    &&& report.matched <= report.lines
    &&& report.lines + report.errors <= consumed.len()
    &&& written_after.len() == written_before.len() + report.written
    &&& dedup_after.well_formed()
    &&& dedup_after.kind() == dedup_before.kind()
    &&& dedup_before.recognized().subset_of(dedup_after.recognized())
    &&& output_after.writer().well_formed()
    &&& output_after.writer().grew_from(&output_before.writer())
    &&& output_after.writer().only_lines() == output_before.writer().only_lines()
    &&& output_after.writer().path_text() == output_before.writer().path_text()
    &&& output_after.writer().buffer_size() == output_before.writer().buffer_size()
    &&& bucket_follows(
        filter,
        dedup_before.kind(),
        dedup_before.recognized(),
        Some(written_before),
        consumed,
        single_view(dedup_after, output_after, report),
    )
}

/// The one bucket of a scan of a single output, as the engine, the output
/// and the report of the call show it.
pub open spec fn single_view<D: Deduplicator>(
    dedup: &D,
    output: SingleOutputManager,
    report: ScanReport,
) -> BucketView {
    BucketView {
        seen: dedup.recognized(),
        lines: report.lines as nat,
        errors: report.errors as nat,
        matched: report.matched as nat,
        duplicates: report.duplicates as nat,
        written: report.written as nat,
        output: Some(output.writer().lines()),
    }
}

/// The text or the error of a decoded line.
pub open spec fn line_view(result: Result<String, LineError>) -> Result<Seq<char>, LineError> {
    match result {
        Ok(text) => Ok(text@),
        Err(e) => Err(e),
    }
}

/// Whether the counts of a report agree with each other: every matched
/// line was written or dropped as a duplicate, and only counted lines
/// match.
pub open spec fn report_balanced(report: ScanReport) -> bool {
    report.written + report.duplicates == report.matched && report.matched <= report.lines
}

fn handle_line<F: WordFilter, D: Deduplicator>(
    stats: &mut ProcessingStats,
    result: Result<String, LineError>,
    filter: &F,
    dedup: &mut D,
    output: &mut SingleOutputManager,
    report: &mut ScanReport,
)
    requires
        old(dedup).well_formed(),
        old(output).writer().well_formed(),
        report_balanced(*old(report)),
        old(report).lines < u64::MAX,
        old(report).errors < u64::MAX,
    ensures
        final(report).finished == old(report).finished,
        report_balanced(*final(report)),
        final(report).lines + final(report).errors <= old(report).lines + old(report).errors + 1,
        final(report).lines >= old(report).lines,
        final(report).matched >= old(report).matched,
        final(report).duplicates >= old(report).duplicates,
        final(report).written >= old(report).written,
        final(report).errors >= old(report).errors,
        *final(stats) == stats_advanced(
            *old(stats),
            (final(report).lines - old(report).lines) as nat,
            (final(report).matched - old(report).matched) as nat,
            (final(report).duplicates - old(report).duplicates) as nat,
            (final(report).errors - old(report).errors) as nat,
        ),
        final(output).writer().lines().len() == old(output).writer().lines().len()
            + final(report).written - old(report).written,
        final(dedup).well_formed(),
        final(dedup).kind() == old(dedup).kind(),
        old(dedup).recognized().subset_of(final(dedup).recognized()),
        final(output).writer().well_formed(),
        final(output).writer().grew_from(&old(output).writer()),
        final(output).writer().only_lines() == old(output).writer().only_lines(),
        final(output).writer().path_text() == old(output).writer().path_text(),
        final(output).writer().buffer_size() == old(output).writer().buffer_size(),
        bucket_step_holds(
            filter,
            old(dedup).kind(),
            line_view(result),
            single_view(old(dedup), *old(output), *old(report)),
            single_view(final(dedup), *final(output), *final(report)),
        ),
{
    proof {
        lemma_advanced_one();
    }
    match result {
        Err(_) => {
            stats.add_error();
            report.errors = report.errors + 1;
        },
        Ok(text) => {
            let outcome = process_line(stats, text.as_str(), filter, dedup, output);
            match outcome {
                LineOutcome::Skipped => {},
                LineOutcome::Failed => {},
                LineOutcome::Rejected => {
                    report.lines = report.lines + 1;
                },
                LineOutcome::Duplicate => {
                    report.lines = report.lines + 1;
                    report.matched = report.matched + 1;
                    report.duplicates = report.duplicates + 1;
                },
                LineOutcome::Written => {
                    report.lines = report.lines + 1;
                    report.matched = report.matched + 1;
                    report.written = report.written + 1;
                },
            }
            proof {
                if outcome == LineOutcome::Written {
                    lemma_grew_by_line(
                        old(output).writer(),
                        output.writer(),
                        line_without_terminator(text@),
                    );
                }
            }
        },
    }
    proof {
        if *output == *old(output) {
            lemma_grew_from_itself(output.writer());
        }
    }
}

/// Scans the lines of a source for a single output, until the data ends or
/// a flush of the output is due. Each line is handled as `process_line`
/// says; a line that cannot be decoded is counted as an error and left out.
pub fn scan_lines<F: WordFilter, D: Deduplicator>(
    stats: &mut ProcessingStats,
    lines: &mut MmapLineIterator,
    filter: &F,
    dedup: &mut D,
    output: &mut SingleOutputManager,
) -> (report: ScanReport)
    requires
        old(lines).well_formed(),
        old(dedup).well_formed(),
        old(output).writer().well_formed(),
    ensures
        single_scan_holds(
            filter,
            *old(lines),
            *final(lines),
            *old(stats),
            *final(stats),
            old(dedup),
            final(dedup),
            *old(output),
            *final(output),
            report,
        ),
{
    let mut report = ScanReport {
        finished: false,
        lines: 0,
        matched: 0,
        duplicates: 0,
        written: 0,
        errors: 0,
    };
    let size: usize = lines.size();
    let mut done: bool = false;
    let ghost mut consumed: Seq<Result<Seq<char>, LineError>> = Seq::empty();
    proof {
        assert(old(lines).remaining() =~= consumed + lines.remaining());
        lemma_advanced_one();
        lines.lemma_offset_in_data();
        lemma_bucket_follows_start(
            filter,
            old(dedup).kind(),
            old(dedup).recognized(),
            Some(old(output).writer().lines()),
        );
        lemma_grew_from_itself(output.writer());
    }
    while !done
        invariant
            lines.well_formed(),
            lines.data() == old(lines).data(),
            lines.encoding_text() == old(lines).encoding_text(),
            size == lines.data().len(),
            old(lines).offset() <= lines.offset() <= size,
            old(lines).remaining() == consumed + lines.remaining(),
            consumed.len() <= lines.offset() - old(lines).offset(),
            report.finished ==> lines.remaining().len() == 0,
            report.finished ==> done,
            done && !report.finished ==> output.writer().flush_due(),
            consumed.len() == 0 ==> *output == *old(output),
            *stats == stats_advanced(
                *old(stats),
                report.lines as nat,
                report.matched as nat,
                report.duplicates as nat,
                report.errors as nat,
            ),
            report_balanced(report),
            report.lines + report.errors <= consumed.len(),
            output.writer().lines().len() == old(output).writer().lines().len() + report.written,
            dedup.well_formed(),
            dedup.kind() == old(dedup).kind(),
            old(dedup).recognized().subset_of(dedup.recognized()),
            output.writer().well_formed(),
            output.writer().grew_from(&old(output).writer()),
            output.writer().only_lines() == old(output).writer().only_lines(),
            output.writer().path_text() == old(output).writer().path_text(),
            output.writer().buffer_size() == old(output).writer().buffer_size(),
            bucket_follows(
                filter,
                old(dedup).kind(),
                old(dedup).recognized(),
                Some(old(output).writer().lines()),
                consumed,
                single_view(dedup, *output, report),
            ),
        decreases size - lines.offset() + (if done { 0int } else { 1int }),
    {
        if output.needs_flush() {
            done = true;
        } else {
            let ghost lines_before = *lines;
            let ghost stats_before = *stats;
            let ghost report_before = report;
            let ghost view_before = single_view(dedup, *output, report);
            let ghost output_before = *output;
            match lines.next_line() {
                None => {
                    report.finished = true;
                    done = true;
                },
                Some(result) => {
                    let ghost line = lines_before.remaining()[0];
                    proof {
                        lines.lemma_offset_in_data();
                        assert(line_view(result) == line);
                        assert(old(lines).remaining() =~= consumed.push(line) + lines.remaining());
                        assert(consumed.push(line).drop_last() == consumed);
                        assert(consumed.push(line).last() == line);
                    }
                    handle_line(stats, result, filter, dedup, output, &mut report);
                    proof {
                        lemma_stats_advanced_twice(
                            *old(stats),
                            report_before.lines as nat,
                            report_before.matched as nat,
                            report_before.duplicates as nat,
                            report_before.errors as nat,
                            (report.lines - report_before.lines) as nat,
                            (report.matched - report_before.matched) as nat,
                            (report.duplicates - report_before.duplicates) as nat,
                            (report.errors - report_before.errors) as nat,
                        );
                        lemma_bucket_follows_step(
                            filter,
                            old(dedup).kind(),
                            old(dedup).recognized(),
                            Some(old(output).writer().lines()),
                            consumed,
                            line,
                            view_before,
                            single_view(dedup, *output, report),
                        );
                        lemma_grew_from_twice(
                            old(output).writer(),
                            output_before.writer(),
                            output.writer(),
                        );
                        consumed = consumed.push(line);
                    }
                },
            }
        }
    }
    proof {
        let rest = lines.remaining();
        assert(consumed_lines(*old(lines), *lines) =~= consumed) by {
            assert((consumed + rest).take(consumed.len() as int) =~= consumed);
        }
    }
    report
}


/// The router seen from one bucket: a filter that accepts the words routed
/// to that bucket.
pub struct BucketFilter<'a> {
    pub router: &'a MultiLengthRouter,
    pub index: usize,
}

impl<'a> WordFilter for BucketFilter<'a> {
    open spec fn passes(&self, word: Seq<char>) -> bool {
        self.router.bucket(word) == Some(self.index)
    }

    fn check(&self, word: &str) -> (accepted: bool) {
        match self.router.route(word) {
            Some(index) => index == self.index,
            None => false,
        }
    }
}

/// Whether position `i` is the first one of `lengths` that holds its
/// length: lines of that length go to bucket `i`.
pub open spec fn is_first_of(lengths: Seq<usize>, i: int) -> bool {
    0 <= i < lengths.len() && forall|j: int| 0 <= j < i ==> lengths[j] != lengths[i]
}

/// What one call of a scan did for one bucket.
#[derive(Debug, Clone, Copy, PartialEq, Eq, Structural)]
pub struct BucketReport {
    /// The lines routed to the bucket.
    pub matched: u64,
    /// The routed lines dropped as duplicates.
    pub duplicates: u64,
    /// The lines written to the bucket.
    pub written: u64,
}

/// What one call of a scan with several buckets did.
#[derive(Debug)]
pub struct MultiScanReport {
    /// The length of the bucket whose flush is due, if the scan stopped for
    /// one; none if the end of the data was reached.
    pub flush_due: Option<usize>,
    /// The lines counted: those not empty.
    pub lines: u64,
    /// The lines that could not be decoded.
    pub errors: u64,
    /// The lines routed to a bucket.
    pub matched: u64,
    /// The routed lines dropped as duplicates.
    pub duplicates: u64,
    /// The lines written.
    pub written: u64,
    /// The same counts for each bucket, in the order of the router.
    pub buckets: Vec<BucketReport>,
}

/// The counts of all buckets together.
pub open spec fn bucket_totals(buckets: Seq<BucketReport>) -> (nat, nat, nat)
    decreases buckets.len(),
{
    if buckets.len() == 0 {
        (0, 0, 0)
    } else {
        let rest = bucket_totals(buckets.drop_last());
        let last = buckets.last();
        (
            rest.0 + last.matched as nat,
            rest.1 + last.duplicates as nat,
            rest.2 + last.written as nat,
        )
    }
}

/// Buckets that have counted nothing count nothing together.
pub proof fn lemma_bucket_totals_zero(buckets: Seq<BucketReport>)
    requires
        forall|i: int|
            0 <= i < buckets.len() ==> #[trigger] buckets[i] == (BucketReport {
                matched: 0,
                duplicates: 0,
                written: 0,
            }),
    ensures
        bucket_totals(buckets) == (0nat, 0nat, 0nat),
    decreases buckets.len(),
{
    if buckets.len() > 0 {
        lemma_bucket_totals_zero(buckets.drop_last());
    }
}

/// When the counts of one bucket change, the totals change by as much.
pub proof fn lemma_bucket_totals_update(buckets: Seq<BucketReport>, at: int, tally: BucketReport)
    requires
        0 <= at < buckets.len(),
    ensures
        bucket_totals(buckets.update(at, tally)).0 + buckets[at].matched == bucket_totals(buckets).0
            + tally.matched,
        bucket_totals(buckets.update(at, tally)).1 + buckets[at].duplicates == bucket_totals(buckets).1
            + tally.duplicates,
        bucket_totals(buckets.update(at, tally)).2 + buckets[at].written == bucket_totals(buckets).2
            + tally.written,
    decreases buckets.len(),
{
    let changed = buckets.update(at, tally);
    if at == buckets.len() - 1 {
        assert(changed.drop_last() == buckets.drop_last());
    } else {
        assert(changed.drop_last() == buckets.drop_last().update(at, tally));
        lemma_bucket_totals_update(buckets.drop_last(), at, tally);
    }
}

impl MultiScanReport {
    /// Whether the counts agree with each other, in all and for each
    /// bucket: every routed line was written or dropped as a duplicate,
    /// the counts in all are the sums of those of the buckets, and no
    /// bucket counts more than all together.
    pub open spec fn balanced(&self) -> bool {
        &&& self.written + self.duplicates == self.matched
        &&& self.matched <= self.lines
        &&& bucket_totals(self.buckets@) == (
            self.matched as nat,
            self.duplicates as nat,
            self.written as nat,
        )
        &&& forall|i: int|
            0 <= i < self.buckets@.len() ==> {
                let bucket = #[trigger] self.buckets@[i];
                &&& bucket.written + bucket.duplicates == bucket.matched
                &&& bucket.matched <= self.matched
                &&& bucket.duplicates <= self.duplicates
                &&& bucket.written <= self.written
            }
    }
}

/// Whether every engine of a list is well formed.
pub open spec fn engines_formed<D: Deduplicator>(dedups: Seq<D>) -> bool {
    forall|i: int| 0 <= i < dedups.len() ==> (#[trigger] dedups[i]).well_formed()
}

/// Whether a list of engines came from another by insertions only: the
/// same engines in kind, each recognizing what it did before.
pub open spec fn engines_grown<D: Deduplicator>(before: Seq<D>, after: Seq<D>) -> bool {
    &&& after.len() == before.len()
    &&& forall|i: int|
        0 <= i < before.len() ==> {
            &&& (#[trigger] after[i]).kind() == before[i].kind()
            &&& before[i].recognized().subset_of(after[i].recognized())
        }
}

/// Whether the buckets of an output manager are those of another, with the
/// same settings, each grown by lines written: a bucket holds the lines it
/// held and then those it gained, and its bytes, pending and in all, are
/// those it held followed by the bytes of the lines gained. A bucket that
/// gained no line holds the bytes that it held.
pub open spec fn same_buckets(before: MultiOutputManager, after: MultiOutputManager) -> bool {
    &&& after.same_settings(&before)
    &&& after.bucket_lengths() == before.bucket_lengths()
    &&& forall|length: usize| after.has_bucket(length) == before.has_bucket(length)
    &&& forall|length: usize|
        #![trigger after.bucket(length)]
        before.has_bucket(length) ==> {
            &&& after.bucket(length).path_text() == before.bucket(length).path_text()
            &&& after.bucket(length).buffer_size() == before.bucket(length).buffer_size()
            &&& after.bucket(length).only_lines() == before.bucket(length).only_lines()
            &&& after.bucket(length).grew_from(&before.bucket(length))
        }
}

/// Whether the buckets of lengths that the router does not know are left
/// as they were.
pub open spec fn unrouted_kept(
    router: &MultiLengthRouter,
    before: MultiOutputManager,
    after: MultiOutputManager,
) -> bool {
    forall|length: usize|
        #![trigger after.bucket(length)]
        !router.bucket_lengths().contains(length) ==> after.bucket(length) == before.bucket(length)
}

/// An output manager has the buckets of itself.
pub proof fn lemma_same_buckets_itself(output: MultiOutputManager)
    ensures
        same_buckets(output, output),
{
    assert forall|length: usize| #![trigger output.bucket(length)] output.has_bucket(length) implies
        output.bucket(length).grew_from(&output.bucket(length)) by {
        lemma_grew_from_itself(output.bucket(length));
    }
}

/// An output manager has the buckets of another after a line was written
/// to one of its buckets.
pub proof fn lemma_same_buckets_after_line(
    before: MultiOutputManager,
    after: MultiOutputManager,
    length: usize,
    line: Seq<char>,
)
    requires
        after.same_settings(&before),
        after.bucket_lengths() == before.bucket_lengths(),
        forall|other: usize| after.has_bucket(other) == before.has_bucket(other),
        forall|other: usize| other != length ==> #[trigger] after.bucket(other) == before.bucket(other),
        !before.has_bucket(length) ==> after.bucket(length) == before.bucket(length),
        before.has_bucket(length) ==> {
            &&& after.bucket(length).lines() == before.bucket(length).lines().push(line)
            &&& after.bucket(length).content() == before.bucket(length).content() + line_bytes(line)
            &&& after.bucket(length).pending() == before.bucket(length).pending() + line_bytes(line)
            &&& after.bucket(length).only_lines() == before.bucket(length).only_lines()
            &&& after.bucket(length).path_text() == before.bucket(length).path_text()
            &&& after.bucket(length).buffer_size() == before.bucket(length).buffer_size()
        },
    ensures
        same_buckets(before, after),
{
    assert forall|other: usize| #![trigger after.bucket(other)] before.has_bucket(other) implies {
        &&& after.bucket(other).path_text() == before.bucket(other).path_text()
        &&& after.bucket(other).buffer_size() == before.bucket(other).buffer_size()
        &&& after.bucket(other).only_lines() == before.bucket(other).only_lines()
        &&& after.bucket(other).grew_from(&before.bucket(other))
    } by {
        if other == length {
            lemma_grew_by_line(before.bucket(length), after.bucket(length), line);
        } else {
            lemma_grew_from_itself(before.bucket(other));
        }
    }
}

/// Having the buckets of another carries over two steps.
pub proof fn lemma_same_buckets_twice(
    first: MultiOutputManager,
    second: MultiOutputManager,
    third: MultiOutputManager,
)
    requires
        same_buckets(first, second),
        same_buckets(second, third),
    ensures
        same_buckets(first, third),
{
    assert forall|length: usize| #![trigger third.bucket(length)] first.has_bucket(length) implies {
        &&& third.bucket(length).path_text() == first.bucket(length).path_text()
        &&& third.bucket(length).buffer_size() == first.bucket(length).buffer_size()
        &&& third.bucket(length).only_lines() == first.bucket(length).only_lines()
        &&& third.bucket(length).grew_from(&first.bucket(length))
    } by {
        assert(second.has_bucket(length));
        let middle = second.bucket(length);
        assert(middle.grew_from(&first.bucket(length)));
        lemma_grew_from_twice(first.bucket(length), middle, third.bucket(length));
    }
}

/// The lines of the output of bucket `i`, if it has one: the output of a
/// length belongs to the first bucket of that length.
pub open spec fn bucket_output(lengths: Seq<usize>, i: int, output: MultiOutputManager) -> Option<
    Seq<Seq<char>>,
> {
    if is_first_of(lengths, i) && output.has_bucket(lengths[i]) {
        Some(output.bucket(lengths[i]).lines())
    } else {
        None
    }
}

/// Bucket `i` of a scan with several buckets, as its engine, the output
/// and the report of the call show it.
pub open spec fn routed_view<D: Deduplicator>(
    lengths: Seq<usize>,
    i: int,
    dedup: D,
    output: MultiOutputManager,
    report: MultiScanReport,
) -> BucketView {
    BucketView {
        seen: dedup.recognized(),
        lines: report.lines as nat,
        errors: report.errors as nat,
        matched: report.buckets@[i].matched as nat,
        duplicates: report.buckets@[i].duplicates as nat,
        written: report.buckets@[i].written as nat,
        output: bucket_output(lengths, i, output),
    }
}

/// What a line does to the scan with several buckets: to every bucket what
/// `bucket_step_holds` says, with the router seen from that bucket as the
/// filter; and an engine whose bucket the line does not belong to is left
/// as it was.
pub open spec fn routed_step_holds<D: Deduplicator>(
    router: &MultiLengthRouter,
    line: Result<Seq<char>, LineError>,
    dedups_before: Seq<D>,
    dedups_after: Seq<D>,
    output_before: MultiOutputManager,
    output_after: MultiOutputManager,
    report_before: MultiScanReport,
    report_after: MultiScanReport,
) -> bool {
    let lengths = router.bucket_lengths();
    forall|i: int|
        #![trigger dedups_after[i]]
        0 <= i < lengths.len() ==> {
            &&& bucket_step_holds(
                &BucketFilter { router, index: i as usize },
                dedups_before[i].kind(),
                line,
                routed_view(lengths, i, dedups_before[i], output_before, report_before),
                routed_view(lengths, i, dedups_after[i], output_after, report_after),
            )
            &&& !is_accepted(&BucketFilter { router, index: i as usize }, line) ==> dedups_after[i]
                == dedups_before[i]
        }
}

/// The first position of a length is the bucket of the words of that
/// length.
pub proof fn lemma_bucket_is_first(router: &MultiLengthRouter, word: Seq<char>, index: usize)
    requires
        router.bucket_lengths().len() <= usize::MAX,
        router.bucket(word) == Some(index),
    ensures
        is_first_of(router.bucket_lengths(), index as int),
        router.bucket_lengths()[index as int] == word.len(),
{
    crate::filter::lemma_bucket_of(router.bucket_lengths(), word.len());
}

/// A line that belongs to no bucket, or to none at all, leaves every
/// bucket as it was but for the lines and errors counted.
proof fn lemma_step_without_bucket<D: Deduplicator>(
    router: &MultiLengthRouter,
    line: Result<Seq<char>, LineError>,
    dedups: Seq<D>,
    output: MultiOutputManager,
    report_before: MultiScanReport,
    report_after: MultiScanReport,
)
    requires
        line matches Ok(raw) ==> line_without_terminator(raw).len() > 0 ==> router.bucket(
            line_without_terminator(raw),
        ) is None,
        report_after.buckets@ == report_before.buckets@,
        report_after.lines == report_before.lines + if line matches Ok(raw) && line_without_terminator(
            raw,
        ).len() > 0 {
            1nat
        } else {
            0nat
        },
        report_after.errors == report_before.errors + if line is Err {
            1nat
        } else {
            0nat
        },
    ensures
        routed_step_holds(router, line, dedups, dedups, output, output, report_before, report_after),
{
    let lengths = router.bucket_lengths();
    assert forall|i: int| #![trigger dedups[i]] 0 <= i < lengths.len() implies bucket_step_holds(
        &BucketFilter { router, index: i as usize },
        dedups[i].kind(),
        line,
        routed_view(lengths, i, dedups[i], output, report_before),
        routed_view(lengths, i, dedups[i], output, report_after),
    ) by {
        let filter = BucketFilter { router, index: i as usize };
        if let Ok(raw) = line {
            assert(line_without_terminator(raw).len() > 0 ==> !filter.passes(
                line_without_terminator(raw),
            ));
        }
    }
}

/// What the step of a line that belongs to bucket `index` does to the
/// bucket at position `i`, given what the engine of the bucket and the
/// output did.
proof fn lemma_step_with_bucket<D: Deduplicator>(
    router: &MultiLengthRouter,
    line: Result<Seq<char>, LineError>,
    index: usize,
    i: int,
    fresh: bool,
    dedup_before: D,
    dedup_after: D,
    output_before: MultiOutputManager,
    output_after: MultiOutputManager,
    report_before: MultiScanReport,
    report_after: MultiScanReport,
)
    requires
        router.bucket_lengths().len() <= usize::MAX,
        0 <= i < router.bucket_lengths().len(),
        report_before.buckets@.len() == router.bucket_lengths().len(),
        line is Ok,
        line_without_terminator(line->Ok_0).len() > 0,
        router.bucket(line_without_terminator(line->Ok_0)) == Some(index),
        report_after.lines == report_before.lines + 1,
        report_after.errors == report_before.errors,
        report_after.buckets@ == report_before.buckets@.update(
            index as int,
            report_after.buckets@[index as int],
        ),
        forall|length: usize| output_after.has_bucket(length) == output_before.has_bucket(length),
        forall|length: usize|
            length != router.bucket_lengths()[index as int] ==> #[trigger] output_after.bucket(length)
                == output_before.bucket(length),
        i != index ==> dedup_after == dedup_before,
        i == index ==> {
            let word = line_without_terminator(line->Ok_0);
            let lengths = router.bucket_lengths();
            let before = report_before.buckets@[i];
            let after = report_after.buckets@[i];
            &&& fresh == !dedup_before.recognized().contains(word)
            &&& dedup_after.kind() == dedup_before.kind()
            &&& dedup_before.recognized().subset_of(dedup_after.recognized())
            &&& dedup_before.kind() == DedupKind::Exact ==> dedup_after.recognized()
                == dedup_before.recognized().insert(word)
            &&& dedup_before.kind() == DedupKind::PassThrough ==> dedup_after.recognized()
                == dedup_before.recognized()
            &&& dedup_before.kind() != DedupKind::PassThrough ==> dedup_after.recognized().contains(
                word,
            )
            &&& after.matched == before.matched + 1
            &&& after.written == before.written + if fresh {
                1nat
            } else {
                0nat
            }
            &&& after.duplicates == before.duplicates + if fresh {
                0nat
            } else {
                1nat
            }
            &&& output_before.has_bucket(lengths[i]) ==> output_after.bucket(lengths[i]).lines() == if fresh {
                output_before.bucket(lengths[i]).lines().push(word)
            } else {
                output_before.bucket(lengths[i]).lines()
            }
        },
    ensures
        bucket_step_holds(
            &BucketFilter { router, index: i as usize },
            dedup_before.kind(),
            line,
            routed_view(router.bucket_lengths(), i, dedup_before, output_before, report_before),
            routed_view(router.bucket_lengths(), i, dedup_after, output_after, report_after),
        ),
        !is_accepted(&BucketFilter { router, index: i as usize }, line) ==> dedup_after
            == dedup_before,
{
    let lengths = router.bucket_lengths();
    let word = line_without_terminator(line->Ok_0);
    let filter = BucketFilter { router, index: i as usize };
    lemma_bucket_is_first(router, word, index);
    if i == index {
        assert(filter.passes(word));
        if dedup_before.kind() == DedupKind::Exact && !fresh {
            assert(dedup_before.recognized().insert(word) =~= dedup_before.recognized());
        }
    } else {
        assert(i as usize != index);
        assert(!filter.passes(word));
        assert(report_after.buckets@[i] == report_before.buckets@[i]);
        if is_first_of(lengths, i) {
            if i < index {
                assert(lengths[i] != lengths[index as int]);
            } else {
                assert(lengths[index as int] != lengths[i]);
            }
        }
    }
}

fn handle_routed_line<D: Deduplicator>(
    stats: &mut ProcessingStats,
    result: Result<String, LineError>,
    router: &MultiLengthRouter,
    dedups: &mut Vec<D>,
    output: &mut MultiOutputManager,
    report: &mut MultiScanReport,
)
    requires
        old(dedups)@.len() == router.bucket_lengths().len(),
        old(report).buckets@.len() == router.bucket_lengths().len(),
        engines_formed(old(dedups)@),
        old(output).well_formed(),
        old(report).balanced(),
        old(report).flush_due is None,
        old(report).lines < u64::MAX,
        old(report).errors < u64::MAX,
    ensures
        final(report).buckets@.len() == old(report).buckets@.len(),
        final(report).balanced(),
        final(report).lines + final(report).errors <= old(report).lines + old(report).errors + 1,
        final(report).lines >= old(report).lines,
        final(report).matched >= old(report).matched,
        final(report).duplicates >= old(report).duplicates,
        final(report).written >= old(report).written,
        final(report).errors >= old(report).errors,
        *final(stats) == stats_advanced(
            *old(stats),
            (final(report).lines - old(report).lines) as nat,
            (final(report).matched - old(report).matched) as nat,
            (final(report).duplicates - old(report).duplicates) as nat,
            (final(report).errors - old(report).errors) as nat,
        ),
        final(report).flush_due matches Some(length) ==> final(output).has_bucket(length)
            && final(output).bucket(length).flush_due() && final(report).written > old(report).written,
        engines_formed(final(dedups)@),
        engines_grown(old(dedups)@, final(dedups)@),
        final(output).well_formed(),
        same_buckets(*old(output), *final(output)),
        unrouted_kept(router, *old(output), *final(output)),
        routed_step_holds(
            router,
            line_view(result),
            old(dedups)@,
            final(dedups)@,
            *old(output),
            *final(output),
            *old(report),
            *final(report),
        ),
{
    proof {
        lemma_advanced_one();
        lemma_advanced_zero(*stats);
        lemma_same_buckets_itself(*output);
        assert(dedups.len() == router.bucket_lengths().len());
    }
    let ghost lengths = router.bucket_lengths();
    let ghost line = line_view(result);
    let ghost mut routed: Option<(usize, bool)> = None;
    match result {
        Err(_) => {
            stats.add_error();
            report.errors = report.errors + 1;
        },
        Ok(text) => {
            let word: &str = trim_line_end(text.as_str());
            if !word.is_empty() {
                stats.add_line();
                report.lines = report.lines + 1;
                match router.route(word) {
                    None => {},
                    Some(index) => {
                        stats.add_match();
                        report.matched = report.matched + 1;
                        let mut tally: BucketReport = report.buckets[index];
                        tally.matched = tally.matched + 1;
                        let fresh: bool = dedups[index].insert(word);
                        if fresh {
                            let length: usize = router.lengths()[index];
                            output.write_line(word, length);
                            report.written = report.written + 1;
                            tally.written = tally.written + 1;
                            if output.needs_flush(length) {
                                report.flush_due = Some(length);
                            }
                            proof {
                                lemma_same_buckets_after_line(*old(output), *output, length, word@);
                            }
                        } else {
                            stats.add_duplicate();
                            report.duplicates = report.duplicates + 1;
                            tally.duplicates = tally.duplicates + 1;
                        }
                        report.buckets.set(index, tally);
                        proof {
                            lemma_bucket_totals_update(old(report).buckets@, index as int, tally);
                            assert(lengths.contains(lengths[index as int]));
                            routed = Some((index, fresh));
                        }
                    },
                }
            }
        },
    }
    proof {
        match routed {
            None => {
                lemma_step_without_bucket(
                    router,
                    line,
                    old(dedups)@,
                    *old(output),
                    *old(report),
                    *report,
                );
            },
            Some((index, fresh)) => {
                assert forall|i: int|
                    #![trigger dedups@[i]]
                    0 <= i < lengths.len() implies {
                    &&& bucket_step_holds(
                        &BucketFilter { router, index: i as usize },
                        old(dedups)@[i].kind(),
                        line,
                        routed_view(lengths, i, old(dedups)@[i], *old(output), *old(report)),
                        routed_view(lengths, i, dedups@[i], *output, *report),
                    )
                    &&& !is_accepted(&BucketFilter { router, index: i as usize }, line) ==> dedups@[i]
                        == old(dedups)@[i]
                } by {
                    lemma_step_with_bucket(
                        router,
                        line,
                        index,
                        i,
                        fresh,
                        old(dedups)@[i],
                        dedups@[i],
                        *old(output),
                        *output,
                        *old(report),
                        *report,
                    );
                }
            },
        }
    }
}

/// What a scan with several buckets guarantees: how the line source, the
/// statistics, the engines and the output stand after the call, given how
/// they stood before. Every bucket stands as `bucket_follows` says, with
/// the router seen from that bucket as the filter, whether the output has
/// a bucket for its length or not; the engine of a position that is not
/// the first of its length is never asked. The bytes of every bucket of
/// the output are those it held followed by the bytes of the lines it
/// gained, as `same_buckets` says; a bucket of a length that the router
/// does not know is left as it was.
pub open spec fn multi_scan_holds<D: Deduplicator>(
    router: &MultiLengthRouter,
    lines_before: MmapLineIterator,
    lines_after: MmapLineIterator,
    stats_before: ProcessingStats,
    stats_after: ProcessingStats,
    dedups_before: Seq<D>,
    dedups_after: Seq<D>,
    output_before: MultiOutputManager,
    output_after: MultiOutputManager,
    report: MultiScanReport,
) -> bool {
    let consumed = consumed_lines(lines_before, lines_after);
    let lengths = router.bucket_lengths();
    &&& lines_after.well_formed()
    &&& lines_after.data() == lines_before.data()
    &&& lines_after.encoding_text() == lines_before.encoding_text()
    &&& lines_before.remaining() == consumed + lines_after.remaining()
    &&& report.flush_due is None ==> lines_after.remaining().len() == 0
    &&& report.flush_due matches Some(length) ==> output_after.has_bucket(length) && output_after.bucket(
        length,
    ).flush_due()
    &&& report.flush_due is Some ==> report.written > 0
    &&& stats_after == stats_advanced(
        stats_before,
        report.lines as nat,
        report.matched as nat,
        report.duplicates as nat,
        report.errors as nat,
    )
    &&& report.balanced()
    &&& report.buckets@.len() == lengths.len()
    &&& report.lines + report.errors <= consumed.len()
    &&& engines_formed(dedups_after)
    &&& engines_grown(dedups_before, dedups_after)
    &&& output_after.well_formed()
    &&& same_buckets(output_before, output_after)
    &&& unrouted_kept(router, output_before, output_after)
    &&& forall|i: int|
        #![trigger dedups_after[i]]
        0 <= i < lengths.len() ==> {
            &&& bucket_follows(
                &BucketFilter { router, index: i as usize },
                dedups_before[i].kind(),
                dedups_before[i].recognized(),
                bucket_output(lengths, i, output_before),
                consumed,
                routed_view(lengths, i, dedups_after[i], output_after, report),
            )
            &&& !is_first_of(lengths, i) ==> dedups_after[i] == dedups_before[i]
        }
}

/// Scans the lines of a source for several buckets, until the data ends or
/// a flush of a bucket is due. A line is handled as in `process_line`, with
/// the engine of its bucket and the output of its length.
pub fn scan_routed_lines<D: Deduplicator>(
    stats: &mut ProcessingStats,
    lines: &mut MmapLineIterator,
    router: &MultiLengthRouter,
    dedups: &mut Vec<D>,
    output: &mut MultiOutputManager,
) -> (report: MultiScanReport)
    requires
        old(lines).well_formed(),
        old(dedups)@.len() == router.bucket_lengths().len(),
        engines_formed(old(dedups)@),
        old(output).well_formed(),
    ensures
        multi_scan_holds(
            router,
            *old(lines),
            *final(lines),
            *old(stats),
            *final(stats),
            old(dedups)@,
            final(dedups)@,
            *old(output),
            *final(output),
            report,
        ),
{
    let bucket_count: usize = dedups.len();
    let mut tallies: Vec<BucketReport> = Vec::new();
    let mut k: usize = 0;
    while k < bucket_count
        invariant
            k <= bucket_count,
            tallies@.len() == k,
            forall|i: int|
                0 <= i < k ==> #[trigger] tallies@[i] == (BucketReport {
                    matched: 0,
                    duplicates: 0,
                    written: 0,
                }),
        decreases bucket_count - k,
    {
        tallies.push(BucketReport { matched: 0, duplicates: 0, written: 0 });
        k = k + 1;
    }
    proof {
        lemma_bucket_totals_zero(tallies@);
    }
    let mut report = MultiScanReport {
        flush_due: None,
        lines: 0,
        errors: 0,
        matched: 0,
        duplicates: 0,
        written: 0,
        buckets: tallies,
    };
    let size: usize = lines.size();
    let mut done: bool = false;
    let ghost lengths = router.bucket_lengths();
    let ghost mut consumed: Seq<Result<Seq<char>, LineError>> = Seq::empty();
    proof {
        assert(old(lines).remaining() =~= consumed + lines.remaining());
        lemma_advanced_one();
        lines.lemma_offset_in_data();
        lemma_same_buckets_itself(*output);
        assert forall|i: int|
            #![trigger dedups@[i]]
            0 <= i < lengths.len() implies bucket_follows(
            &BucketFilter { router, index: i as usize },
            old(dedups)@[i].kind(),
            old(dedups)@[i].recognized(),
            bucket_output(lengths, i, *old(output)),
            consumed,
            routed_view(lengths, i, dedups@[i], *output, report),
        ) by {
            lemma_bucket_follows_start(
                &BucketFilter { router, index: i as usize },
                old(dedups)@[i].kind(),
                old(dedups)@[i].recognized(),
                bucket_output(lengths, i, *old(output)),
            );
        }
    }
    while !done
        invariant
            lengths == router.bucket_lengths(),
            lengths.len() == bucket_count,
            lines.well_formed(),
            lines.data() == old(lines).data(),
            lines.encoding_text() == old(lines).encoding_text(),
            size == lines.data().len(),
            old(lines).offset() <= lines.offset() <= size,
            old(lines).remaining() == consumed + lines.remaining(),
            consumed.len() <= lines.offset() - old(lines).offset(),
            !done ==> report.flush_due is None,
            done && report.flush_due is None ==> lines.remaining().len() == 0,
            report.flush_due matches Some(length) ==> output.has_bucket(length) && output.bucket(
                length,
            ).flush_due(),
            report.flush_due is Some ==> report.written > 0,
            *stats == stats_advanced(
                *old(stats),
                report.lines as nat,
                report.matched as nat,
                report.duplicates as nat,
                report.errors as nat,
            ),
            report.balanced(),
            report.buckets@.len() == lengths.len(),
            dedups@.len() == lengths.len(),
            report.lines + report.errors <= consumed.len(),
            engines_formed(dedups@),
            engines_grown(old(dedups)@, dedups@),
            output.well_formed(),
            same_buckets(*old(output), *output),
            unrouted_kept(router, *old(output), *output),
            forall|i: int|
                #![trigger dedups@[i]]
                0 <= i < lengths.len() ==> {
                    &&& bucket_follows(
                        &BucketFilter { router, index: i as usize },
                        old(dedups)@[i].kind(),
                        old(dedups)@[i].recognized(),
                        bucket_output(lengths, i, *old(output)),
                        consumed,
                        routed_view(lengths, i, dedups@[i], *output, report),
                    )
                    &&& !is_first_of(lengths, i) ==> dedups@[i] == old(dedups)@[i]
                },
        decreases size - lines.offset() + (if done { 0int } else { 1int }),
    {
        let ghost lines_before = *lines;
        let ghost report_before = report;
        let ghost dedups_before = dedups@;
        let ghost output_before = *output;
        match lines.next_line() {
            None => {
                done = true;
            },
            Some(result) => {
                let ghost line = lines_before.remaining()[0];
                proof {
                    lines.lemma_offset_in_data();
                    assert(line_view(result) == line);
                    assert(old(lines).remaining() =~= consumed.push(line) + lines.remaining());
                    assert(consumed.push(line).drop_last() == consumed);
                    assert(consumed.push(line).last() == line);
                }
                handle_routed_line(stats, result, router, dedups, output, &mut report);
                if report.flush_due.is_some() {
                    done = true;
                }
                proof {
                    lemma_stats_advanced_twice(
                        *old(stats),
                        report_before.lines as nat,
                        report_before.matched as nat,
                        report_before.duplicates as nat,
                        report_before.errors as nat,
                        (report.lines - report_before.lines) as nat,
                        (report.matched - report_before.matched) as nat,
                        (report.duplicates - report_before.duplicates) as nat,
                        (report.errors - report_before.errors) as nat,
                    );
                    assert forall|i: int|
                        #![trigger dedups@[i]]
                        0 <= i < lengths.len() implies {
                        &&& bucket_follows(
                            &BucketFilter { router, index: i as usize },
                            old(dedups)@[i].kind(),
                            old(dedups)@[i].recognized(),
                            bucket_output(lengths, i, *old(output)),
                            consumed.push(line),
                            routed_view(lengths, i, dedups@[i], *output, report),
                        )
                        &&& !is_first_of(lengths, i) ==> dedups@[i] == old(dedups)@[i]
                    } by {
                        let filter = BucketFilter { router, index: i as usize };
                        let earlier = dedups_before[i];
                        assert(earlier.kind() == old(dedups)@[i].kind());
                        lemma_bucket_follows_step(
                            &filter,
                            old(dedups)@[i].kind(),
                            old(dedups)@[i].recognized(),
                            bucket_output(lengths, i, *old(output)),
                            consumed,
                            line,
                            routed_view(lengths, i, earlier, output_before, report_before),
                            routed_view(lengths, i, dedups@[i], *output, report),
                        );
                        if !is_first_of(lengths, i) && is_accepted(&filter, line) {
                            lemma_bucket_is_first(
                                router,
                                line_without_terminator(line->Ok_0),
                                i as usize,
                            );
                        }
                    }
                    assert(engines_grown(old(dedups)@, dedups@)) by {
                        assert forall|i: int| 0 <= i < old(dedups)@.len() implies {
                            &&& (#[trigger] dedups@[i]).kind() == old(dedups)@[i].kind()
                            &&& old(dedups)@[i].recognized().subset_of(dedups@[i].recognized())
                        } by {
                            assert(dedups_before[i].kind() == old(dedups)@[i].kind());
                            assert(old(dedups)@[i].recognized().subset_of(
                                dedups_before[i].recognized(),
                            ));
                            assert(dedups_before[i].recognized().subset_of(dedups@[i].recognized()));
                        }
                    }
                    lemma_same_buckets_twice(*old(output), output_before, *output);
                    assert(unrouted_kept(router, *old(output), *output)) by {
                        assert forall|length: usize|
                            #![trigger output.bucket(length)]
                            !lengths.contains(length) implies output.bucket(length) == old(
                            output,
                        ).bucket(length) by {
                            assert(output_before.bucket(length) == old(output).bucket(length));
                        }
                    }
                    consumed = consumed.push(line);
                }
            },
        }
    }
    proof {
        let rest = lines.remaining();
        assert(consumed_lines(*old(lines), *lines) =~= consumed) by {
            assert((consumed + rest).take(consumed.len() as int) =~= consumed);
        }
    }
    report
}

/// In any scan, every line that the filter accepted was written or dropped
/// as a duplicate: the lines written are the matched lines less the
/// duplicates, and never more than the matched lines.
pub proof fn lemma_written_is_matched_less_duplicates<F: WordFilter>(
    filter: &F,
    exact: bool,
    start: ScanState,
    lines: Seq<Result<Seq<char>, LineError>>,
)
    ensures
        ({
            let end = scan_all(filter, exact, start, lines);
            &&& end.emitted.len() >= start.emitted.len()
            &&& end.matched >= start.matched
            &&& end.duplicates >= start.duplicates
            &&& end.emitted.len() - start.emitted.len() == (end.matched - start.matched) - (end.duplicates
                - start.duplicates)
            &&& end.emitted.len() - start.emitted.len() <= end.matched - start.matched
        }),
    decreases lines.len(),
{
    if lines.len() > 0 {
        lemma_written_is_matched_less_duplicates(filter, exact, start, lines.drop_last());
    }
}

/// Two scans of the same lines with filters that accept the same words,
/// from the same start, end alike: a run repeated on the same input with
/// the same configuration writes the same output.
pub proof fn lemma_same_input_same_output<F: WordFilter, G: WordFilter>(
    first: &F,
    second: &G,
    exact: bool,
    start: ScanState,
    lines: Seq<Result<Seq<char>, LineError>>,
)
    requires
        forall|word: Seq<char>| first.passes(word) == second.passes(word),
    ensures
        scan_all(first, exact, start, lines) == scan_all(second, exact, start, lines),
    decreases lines.len(),
{
    if lines.len() > 0 {
        lemma_same_input_same_output(first, second, exact, start, lines.drop_last());
    }
}

/// A single-length filter and a general filter that are set up with the
/// same one length and the same pattern scan alike: from the same start
/// they end with the same words written in the same order, the same words
/// recognized and the same counts.
pub proof fn lemma_single_length_scans_alike(
    config: &FilterConfig,
    single: &SingleLengthFilter,
    exact: bool,
    start: ScanState,
    lines: Seq<Result<Seq<char>, LineError>>,
)
    requires
        config.lengths matches Some(lengths) && lengths@ == set![single.length()],
        crate::filter::same_pattern(config.pattern, single.pattern()),
    ensures
        scan_all(config, exact, start, lines) == scan_all(single, exact, start, lines),
{
    assert forall|word: Seq<char>| config.passes(word) == single.passes(word) by {
        crate::filter::lemma_single_length_agrees(*config, *single, word);
    }
    lemma_same_input_same_output(config, single, exact, start, lines);
}

/// Two runs over the same lines with general filters that are set up alike
/// write the same bytes: what a scan writes does not depend on anything
/// else, such as the keys that an engine draws for its hashes.
pub proof fn lemma_same_setup_same_bytes(
    first: &FilterConfig,
    second: &FilterConfig,
    exact: bool,
    lines: Seq<Result<Seq<char>, LineError>>,
)
    requires
        first.lengths is Some == second.lengths is Some,
        first.lengths matches Some(lengths) ==> lengths@ == second.lengths->0@,
        crate::filter::same_pattern(first.pattern, second.pattern),
    ensures
        crate::output::written_bytes(
            scan_all(first, exact, scan_start(Set::empty(), Seq::empty()), lines).emitted,
        ) == crate::output::written_bytes(
            scan_all(second, exact, scan_start(Set::empty(), Seq::empty()), lines).emitted,
        ),
{
    assert forall|word: Seq<char>| first.passes(word) == second.passes(word) by {
        crate::filter::lemma_same_setup_same_decision(*first, *second, word);
    }
    lemma_same_input_same_output(
        first,
        second,
        exact,
        scan_start(Set::empty(), Seq::empty()),
        lines,
    );
}

/// A scan that reached the end of the data consumed every line that was
/// left.
pub proof fn lemma_finished_scan_consumed_all<F: WordFilter, D: Deduplicator>(
    filter: &F,
    lines_before: MmapLineIterator,
    lines_after: MmapLineIterator,
    stats_before: ProcessingStats,
    stats_after: ProcessingStats,
    dedup_before: &D,
    dedup_after: &D,
    output_before: SingleOutputManager,
    output_after: SingleOutputManager,
    report: ScanReport,
)
    requires
        single_scan_holds(
            filter,
            lines_before,
            lines_after,
            stats_before,
            stats_after,
            dedup_before,
            dedup_after,
            output_before,
            output_after,
            report,
        ),
        report.finished,
    ensures
        consumed_lines(lines_before, lines_after) == lines_before.remaining(),
{
    let consumed = consumed_lines(lines_before, lines_after);
    assert(lines_after.remaining() =~= Seq::empty());
    assert(consumed + lines_after.remaining() =~= consumed);
}

/// Two calls of a scan that consume the same lines, with filters that
/// accept the same words and with engines of the same kind, exact or
/// pass-through, that recognize the same words when the calls begin, do
/// the same: they write the same lines, and so the same bytes, after what
/// the outputs held, end with engines that recognize the same words, and
/// report the same counts.
pub proof fn lemma_scans_alike<F: WordFilter, G: WordFilter, D: Deduplicator, E: Deduplicator>(
    first_filter: &F,
    second_filter: &G,
    lines_before: MmapLineIterator,
    first_lines: MmapLineIterator,
    second_lines: MmapLineIterator,
    first_stats: (ProcessingStats, ProcessingStats),
    second_stats: (ProcessingStats, ProcessingStats),
    first_dedup: (&D, &D),
    second_dedup: (&E, &E),
    first_output: (SingleOutputManager, SingleOutputManager),
    second_output: (SingleOutputManager, SingleOutputManager),
    first_report: ScanReport,
    second_report: ScanReport,
)
    requires
        forall|word: Seq<char>| first_filter.passes(word) == second_filter.passes(word),
        single_scan_holds(
            first_filter,
            lines_before,
            first_lines,
            first_stats.0,
            first_stats.1,
            first_dedup.0,
            first_dedup.1,
            first_output.0,
            first_output.1,
            first_report,
        ),
        single_scan_holds(
            second_filter,
            lines_before,
            second_lines,
            second_stats.0,
            second_stats.1,
            second_dedup.0,
            second_dedup.1,
            second_output.0,
            second_output.1,
            second_report,
        ),
        consumed_lines(lines_before, first_lines) == consumed_lines(lines_before, second_lines),
        first_report.finished == second_report.finished,
        first_dedup.0.kind() == second_dedup.0.kind(),
        first_dedup.0.kind() != DedupKind::Probabilistic,
        first_dedup.0.recognized() == second_dedup.0.recognized(),
        first_output.0.writer().lines() == second_output.0.writer().lines(),
        first_output.0.writer().pending() == second_output.0.writer().pending(),
        first_output.0.writer().content() == second_output.0.writer().content(),
    ensures
        first_output.1.writer().lines() == second_output.1.writer().lines(),
        first_output.1.writer().pending() == second_output.1.writer().pending(),
        first_output.1.writer().content() == second_output.1.writer().content(),
        first_dedup.1.recognized() == second_dedup.1.recognized(),
        first_report == second_report,
{
    let consumed = consumed_lines(lines_before, first_lines);
    let kind = first_dedup.0.kind();
    let start = scan_start(first_dedup.0.recognized(), first_output.0.writer().lines());
    lemma_same_input_same_output(
        first_filter,
        second_filter,
        kind == DedupKind::Exact,
        start,
        consumed,
    );
}

/// A scan with a single-length filter and a scan with a general filter
/// that is set up with the same one length and the same pattern do the
/// same, under the conditions of `lemma_scans_alike`.
pub proof fn lemma_single_length_calls_alike<D: Deduplicator, E: Deduplicator>(
    config: &FilterConfig,
    single: &SingleLengthFilter,
    lines_before: MmapLineIterator,
    first_lines: MmapLineIterator,
    second_lines: MmapLineIterator,
    first_stats: (ProcessingStats, ProcessingStats),
    second_stats: (ProcessingStats, ProcessingStats),
    first_dedup: (&D, &D),
    second_dedup: (&E, &E),
    first_output: (SingleOutputManager, SingleOutputManager),
    second_output: (SingleOutputManager, SingleOutputManager),
    first_report: ScanReport,
    second_report: ScanReport,
)
    requires
        config.lengths matches Some(lengths) && lengths@ == set![single.length()],
        crate::filter::same_pattern(config.pattern, single.pattern()),
        single_scan_holds(
            config,
            lines_before,
            first_lines,
            first_stats.0,
            first_stats.1,
            first_dedup.0,
            first_dedup.1,
            first_output.0,
            first_output.1,
            first_report,
        ),
        single_scan_holds(
            single,
            lines_before,
            second_lines,
            second_stats.0,
            second_stats.1,
            second_dedup.0,
            second_dedup.1,
            second_output.0,
            second_output.1,
            second_report,
        ),
        consumed_lines(lines_before, first_lines) == consumed_lines(lines_before, second_lines),
        first_report.finished == second_report.finished,
        first_dedup.0.kind() == second_dedup.0.kind(),
        first_dedup.0.kind() != DedupKind::Probabilistic,
        first_dedup.0.recognized() == second_dedup.0.recognized(),
        first_output.0.writer().lines() == second_output.0.writer().lines(),
        first_output.0.writer().pending() == second_output.0.writer().pending(),
        first_output.0.writer().content() == second_output.0.writer().content(),
    ensures
        first_output.1.writer().lines() == second_output.1.writer().lines(),
        first_output.1.writer().pending() == second_output.1.writer().pending(),
        first_output.1.writer().content() == second_output.1.writer().content(),
        first_dedup.1.recognized() == second_dedup.1.recognized(),
        first_report == second_report,
{
    assert forall|word: Seq<char>| config.passes(word) == single.passes(word) by {
        crate::filter::lemma_single_length_agrees(*config, *single, word);
    }
    lemma_scans_alike(
        config,
        single,
        lines_before,
        first_lines,
        second_lines,
        first_stats,
        second_stats,
        first_dedup,
        second_dedup,
        first_output,
        second_output,
        first_report,
        second_report,
    );
}

/// Two calls of a scan with several buckets that consume the same lines,
/// with the same router and with engines of the same kinds, exact or
/// pass-through, that recognize the same words when the calls begin, do
/// the same: every bucket gains the same lines, and so the same bytes,
/// after what it held; the engines end recognizing the same words; and
/// the counts of the buckets, and those of all together, are the same.
pub proof fn lemma_routed_scans_alike<D: Deduplicator, E: Deduplicator>(
    router: &MultiLengthRouter,
    lines_before: MmapLineIterator,
    first_lines: MmapLineIterator,
    second_lines: MmapLineIterator,
    first_stats: (ProcessingStats, ProcessingStats),
    second_stats: (ProcessingStats, ProcessingStats),
    first_dedups: (Seq<D>, Seq<D>),
    second_dedups: (Seq<E>, Seq<E>),
    first_output: (MultiOutputManager, MultiOutputManager),
    second_output: (MultiOutputManager, MultiOutputManager),
    first_report: MultiScanReport,
    second_report: MultiScanReport,
)
    requires
        multi_scan_holds(
            router,
            lines_before,
            first_lines,
            first_stats.0,
            first_stats.1,
            first_dedups.0,
            first_dedups.1,
            first_output.0,
            first_output.1,
            first_report,
        ),
        multi_scan_holds(
            router,
            lines_before,
            second_lines,
            second_stats.0,
            second_stats.1,
            second_dedups.0,
            second_dedups.1,
            second_output.0,
            second_output.1,
            second_report,
        ),
        consumed_lines(lines_before, first_lines) == consumed_lines(lines_before, second_lines),
        first_dedups.0.len() == router.bucket_lengths().len(),
        second_dedups.0.len() == router.bucket_lengths().len(),
        forall|i: int|
            #![trigger first_dedups.0[i]]
            0 <= i < router.bucket_lengths().len() ==> {
                &&& first_dedups.0[i].kind() == second_dedups.0[i].kind()
                &&& first_dedups.0[i].kind() != DedupKind::Probabilistic
                &&& first_dedups.0[i].recognized() == second_dedups.0[i].recognized()
            },
        forall|length: usize|
            #![trigger first_output.0.bucket(length)]
            {
                &&& first_output.0.has_bucket(length) == second_output.0.has_bucket(length)
                &&& first_output.0.has_bucket(length) ==> {
                    &&& first_output.0.bucket(length).lines() == second_output.0.bucket(length).lines()
                    &&& first_output.0.bucket(length).pending() == second_output.0.bucket(
                        length,
                    ).pending()
                    &&& first_output.0.bucket(length).content() == second_output.0.bucket(
                        length,
                    ).content()
                }
            },
    ensures
        forall|i: int|
            #![trigger first_dedups.1[i]]
            0 <= i < router.bucket_lengths().len() ==> {
                let length = router.bucket_lengths()[i];
                &&& first_dedups.1[i].recognized() == second_dedups.1[i].recognized()
                &&& is_first_of(router.bucket_lengths(), i) && first_output.0.has_bucket(length) ==> {
                    &&& first_output.1.bucket(length).lines() == second_output.1.bucket(length).lines()
                    &&& first_output.1.bucket(length).pending() == second_output.1.bucket(
                        length,
                    ).pending()
                    &&& first_output.1.bucket(length).content() == second_output.1.bucket(
                        length,
                    ).content()
                }
            },
        first_report.buckets@ == second_report.buckets@,
        first_report.matched == second_report.matched,
        first_report.duplicates == second_report.duplicates,
        first_report.written == second_report.written,
        router.bucket_lengths().len() > 0 ==> first_report.lines == second_report.lines
            && first_report.errors == second_report.errors,
{
    let lengths = router.bucket_lengths();
    assert forall|i: int| 0 <= i < lengths.len() implies first_report.buckets@[i]
        == second_report.buckets@[i] && first_report.lines == second_report.lines
        && first_report.errors == second_report.errors && first_dedups.1[i].recognized()
        == second_dedups.1[i].recognized() by {
        let filter = BucketFilter { router, index: i as usize };
        let kind = first_dedups.0[i].kind();
        let consumed = consumed_lines(lines_before, first_lines);
        assert(second_dedups.0[i].kind() == kind);
        assert(first_output.0.bucket(lengths[i]) == first_output.0.bucket(lengths[i]));
        assert(bucket_output(lengths, i, first_output.0) == bucket_output(
            lengths,
            i,
            second_output.0,
        ));
        assert(bucket_follows(
            &filter,
            kind,
            first_dedups.0[i].recognized(),
            bucket_output(lengths, i, first_output.0),
            consumed,
            routed_view(lengths, i, first_dedups.1[i], first_output.1, first_report),
        ));
        assert(bucket_follows(
            &filter,
            kind,
            first_dedups.0[i].recognized(),
            bucket_output(lengths, i, first_output.0),
            consumed,
            routed_view(lengths, i, second_dedups.1[i], second_output.1, second_report),
        ));
    }
    assert(first_report.buckets@ =~= second_report.buckets@);
    assert forall|i: int|
        #![trigger first_dedups.1[i]]
        0 <= i < lengths.len() && is_first_of(lengths, i) && first_output.0.has_bucket(
            lengths[i],
        ) implies first_output.1.bucket(lengths[i]).lines() == second_output.1.bucket(
        lengths[i],
    ).lines() && first_output.1.bucket(lengths[i]).pending() == second_output.1.bucket(
        lengths[i],
    ).pending() && first_output.1.bucket(lengths[i]).content() == second_output.1.bucket(
        lengths[i],
    ).content() by {
        let length = lengths[i];
        let filter = BucketFilter { router, index: i as usize };
        let kind = first_dedups.0[i].kind();
        let consumed = consumed_lines(lines_before, first_lines);
        assert(second_dedups.0[i].kind() == kind);
        assert(first_output.0.bucket(length) == first_output.0.bucket(length));
        assert(bucket_follows(
            &filter,
            kind,
            first_dedups.0[i].recognized(),
            bucket_output(lengths, i, first_output.0),
            consumed,
            routed_view(lengths, i, first_dedups.1[i], first_output.1, first_report),
        ));
        assert(bucket_follows(
            &filter,
            kind,
            first_dedups.0[i].recognized(),
            bucket_output(lengths, i, first_output.0),
            consumed,
            routed_view(lengths, i, second_dedups.1[i], second_output.1, second_report),
        ));
        assert(first_output.1.bucket(length).grew_from(&first_output.0.bucket(length)));
        assert(second_output.1.bucket(length).grew_from(&second_output.0.bucket(length)));
    }
}

/// An exact engine that starts empty ends a scan recognizing exactly the
/// words written, and no word is written twice.
pub proof fn lemma_exact_scan_writes_once<F: WordFilter>(
    filter: &F,
    lines: Seq<Result<Seq<char>, LineError>>,
)
    ensures
        ({
            let end = scan_all(filter, true, scan_start(Set::empty(), Seq::empty()), lines);
            &&& end.seen == end.emitted.to_set()
            &&& end.emitted.no_duplicates()
            &&& forall|i: int| 0 <= i < end.emitted.len() ==> filter.passes(#[trigger] end.emitted[i])
        }),
    decreases lines.len(),
{
    let start = scan_start(Set::<Seq<char>>::empty(), Seq::<Seq<char>>::empty());
    if lines.len() == 0 {
        assert(start.emitted.to_set() =~= Set::<Seq<char>>::empty());
    } else {
        lemma_exact_scan_writes_once(filter, lines.drop_last());
        let before = scan_all(filter, true, start, lines.drop_last());
        let end = scan_all(filter, true, start, lines);
        if end.emitted.len() > before.emitted.len() {
            let word = end.emitted.last();
            assert(end.emitted == before.emitted.push(word));
            assert(!before.emitted.contains(word)) by {
                assert(!before.emitted.to_set().contains(word));
            }
            assert(end.emitted.to_set() =~= before.emitted.to_set().insert(word)) by {
                assert forall|x: Seq<char>| end.emitted.to_set().contains(x)
                    == before.emitted.to_set().insert(word).contains(x) by {
                    if end.emitted.contains(x) {
                        let j = choose|j: int| 0 <= j < end.emitted.len() && end.emitted[j] == x;
                        if j < before.emitted.len() {
                            assert(before.emitted[j] == x);
                        }
                    }
                    if before.emitted.contains(x) {
                        let j = choose|j: int| 0 <= j < before.emitted.len() && before.emitted[j] == x;
                        assert(end.emitted[j] == x);
                    }
                    if x == word {
                        assert(end.emitted[end.emitted.len() - 1] == x);
                    }
                }
            }
            assert forall|i: int, j: int|
                0 <= i < end.emitted.len() && 0 <= j < end.emitted.len() && i != j implies end.emitted[i]
                != end.emitted[j] by {
                if i < before.emitted.len() && j < before.emitted.len() {
                } else if i < before.emitted.len() {
                    assert(before.emitted.contains(before.emitted[i]));
                } else {
                    assert(before.emitted.contains(before.emitted[j]));
                }
            }
        }
    }
}

/// A counter advanced by nothing keeps its value.
pub proof fn lemma_advanced_zero(stats: ProcessingStats)
    ensures
        stats_advanced(stats, 0, 0, 0, 0) == stats,
{
    reveal(advanced);
}

/// One wrapping step is an advance by one, and an advance by nothing
/// changes nothing.
pub proof fn lemma_advanced_one()
    ensures
        forall|counter: u64| #[trigger] counter.wrapping_add(1) == advanced(counter, 1),
        forall|counter: u64| #[trigger] advanced(counter, 0) == counter,
{
    reveal(advanced);
}

/// A wrapping addition is an advance by the number added.
pub proof fn lemma_advanced_add(counter: u64, steps: u64)
    ensures
        counter.wrapping_add(steps) == advanced(counter, steps as nat),
{
    reveal(advanced);
}

/// Advancing a counter twice is advancing it by the sum.
pub proof fn lemma_advanced_twice(counter: u64, first: nat, second: nat)
    ensures
        advanced(advanced(counter, first), second) == advanced(counter, first + second),
{
    reveal(advanced);
}

/// Advancing statistics twice is advancing them by the sums.
pub proof fn lemma_stats_advanced_twice(
    stats: ProcessingStats,
    lines: nat,
    matched: nat,
    duplicates: nat,
    errors: nat,
    more_lines: nat,
    more_matched: nat,
    more_duplicates: nat,
    more_errors: nat,
)
    ensures
        stats_advanced(
            stats_advanced(stats, lines, matched, duplicates, errors),
            more_lines,
            more_matched,
            more_duplicates,
            more_errors,
        ) == stats_advanced(
            stats,
            lines + more_lines,
            matched + more_matched,
            duplicates + more_duplicates,
            errors + more_errors,
        ),
{
    lemma_advanced_twice(stats.total_lines, lines, more_lines);
    lemma_advanced_twice(stats.matched_lines, matched, more_matched);
    lemma_advanced_twice(stats.duplicate_lines, duplicates, more_duplicates);
    lemma_advanced_twice(stats.error_lines, errors, more_errors);
}

} // verus!
