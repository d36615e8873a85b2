//! Core processing engine: the configuration of a run, the choice of its
//! plan and mode, the set-up of filters, engines and outputs, and the
//! statistics that the scans of its files advance.

use crate::cli::{
    extension_list, strictly_increasing, texts_of, typed_lengths_outcome, typed_size_outcome, Args,
    LengthError, LengthFault, SizeError, SizeFault,
};
use crate::dedup::{
    cpu_count, sharded_for, shards_for, DedupEngine, DedupKind, Deduplicator, NoOpDeduplicator,
};
use crate::encoding::{LineError, MmapLineIterator};
use crate::filter::{FilterConfig, MultiLengthRouter, PatternError, SingleLengthFilter};
use crate::output::{MultiOutputManager, SingleOutputManager};
use crate::progress::ProcessingStats;
use crate::scan::{
    advanced, engines_formed, lemma_advanced_add, lemma_advanced_one, lemma_advanced_twice, line_outcome,
    line_step_holds, multi_scan_holds, single_scan_holds, LineOutcome, MultiScanReport, ScanReport,
    WordFilter,
};
use crate::text::split_on;
use vstd::prelude::*;
use vstd::string::StringExecFns;

verus! {

/// Processor configuration
pub struct ProcessorConfig {
    pub lengths: Option<Vec<usize>>,
    pub pattern: Option<String>,
    pub single_file: bool,
    pub output_dir: String,
    pub output_name: String,
    pub recursive: bool,
    pub no_dedup: bool,
    pub buffer_size: usize,
    pub extensions: Vec<String>,
    pub dry_run: bool,
    pub quiet: bool,
    pub verbose: bool,
    pub sort_output: bool,
}

/// Why the options of a run were refused.
#[derive(Debug)]
pub enum ConfigError {
    /// The length specification is malformed.
    Length(LengthError),
    /// The buffer size is malformed.
    Size(SizeError),
}

impl ConfigError {
    /// A one-line description of the error.
    pub fn message(&self) -> (text: String)
        ensures
            text@ == match self {
                ConfigError::Length(e) => e.message_text(),
                ConfigError::Size(e) => e.message_text(),
            },
    {
        match self {
            ConfigError::Length(e) => e.message(),
            ConfigError::Size(e) => e.message(),
        }
    }
}

/// Why the options of a run cannot be used.
#[derive(Debug)]
pub enum ArgsError {
    /// The input path does not exist.
    MissingInput { path: String },
    /// Neither a length nor a pattern is given.
    NoFilter,
    /// The pattern is malformed.
    Pattern(PatternError),
    /// The length specification is malformed.
    Length(LengthError),
}

impl ArgsError {
    /// The text of `message`.
    pub open spec fn message_text(&self) -> Seq<char> {
        match self {
            ArgsError::MissingInput { path } => "Input path does not exist: \""@ + path@ + "\""@,
            ArgsError::NoFilter => "At least one filter must be specified: --length or --pattern"@,
            ArgsError::Pattern(e) => e.message_text(),
            ArgsError::Length(e) => e.message_text(),
        }
    }

    /// A one-line description of the error.
    pub fn message(&self) -> (text: String)
        ensures
            text@ == self.message_text(),
    {
        match self {
            ArgsError::MissingInput { path } => {
                let mut text: String = String::from_str("Input path does not exist: \"");
                text.append(path.as_str());
                text.append("\"");
                text
            },
            ArgsError::NoFilter => String::from_str(
                "At least one filter must be specified: --length or --pattern",
            ),
            ArgsError::Pattern(e) => e.message(),
            ArgsError::Length(e) => e.message(),
        }
    }
}

/// Validates the options of a run, given whether the input path exists.
/// The checks are made in this order, and the first that fails is the
/// error: the input exists; a length or a pattern is given; the pattern, if
/// any, compiles; the length specification, if any, is well formed.
pub fn validate_args(args: &Args, input_exists: bool) -> (result: Result<(), ArgsError>)
    ensures
        match result {
            Ok(_) => {
                &&& input_exists
                &&& args.length is Some || args.pattern is Some
                &&& args.pattern matches Some(p) ==> crate::filter::pattern_compiles(p@)
                &&& args.length matches Some(text) ==> typed_lengths_outcome(text@) is Ok
            },
            Err(ArgsError::MissingInput { path }) => !input_exists && path@ == args.input@,
            Err(ArgsError::NoFilter) => input_exists && args.length is None && args.pattern is None,
            Err(ArgsError::Pattern(e)) => {
                &&& input_exists
                &&& args.pattern matches Some(p) && !crate::filter::pattern_compiles(p@) && e.pattern@
                    == p@
            },
            Err(ArgsError::Length(e)) => {
                &&& input_exists
                &&& args.pattern matches Some(p) ==> crate::filter::pattern_compiles(p@)
                &&& args.length matches Some(text) && typed_lengths_outcome(text@) == Err::<
                    Set<usize>,
                    LengthFault,
                >(e.fault())
            },
        },
{
    if !input_exists {
        return Err(ArgsError::MissingInput { path: args.input.clone() });
    }
    if args.length.is_none() && args.pattern.is_none() {
        return Err(ArgsError::NoFilter);
    }
    if let Some(pattern) = &args.pattern {
        match crate::filter::validate_pattern(pattern.as_str()) {
            Ok(_) => {},
            Err(e) => {
                return Err(ArgsError::Pattern(e));
            },
        }
    }
    if args.length.is_some() {
        match args.parse_lengths() {
            Ok(_) => {},
            Err(e) => {
                return Err(ArgsError::Length(e));
            },
        }
    }
    Ok(())
}

/// How the lines of a run are filtered and where they go.
#[derive(Debug, Clone, Copy, PartialEq, Eq, Structural)]
pub enum ProcessingMode {
    /// One output for all lines, filtered by the general filter.
    SingleOutput,
    /// One output, filtered by the single-length filter for this length.
    SingleLength(usize),
    /// One output for each length.
    MultiLength,
}

/// The mode of a run: a combined output if one is asked for or no lengths
/// are given; otherwise the single-length mode for exactly one length, and
/// one bucket for each length for any other number of them.
pub open spec fn mode_for(single_file: bool, lengths: Option<Seq<usize>>) -> ProcessingMode {
    if single_file {
        ProcessingMode::SingleOutput
    } else {
        match lengths {
            Some(list) => if list.len() == 1 {
                ProcessingMode::SingleLength(list[0])
            } else {
                ProcessingMode::MultiLength
            },
            None => ProcessingMode::SingleOutput,
        }
    }
}

/// What a run does once its input files are known.
#[derive(Debug, Clone, Copy, PartialEq, Eq, Structural)]
pub enum RunPlan {
    /// No file was found: nothing is configured or scanned, and the run
    /// ends with a warning.
    NothingToDo,
    /// A dry run: the planned actions are reported, and nothing is
    /// configured, scanned or written.
    DryRun,
    /// The files are scanned in this mode.
    Scan(ProcessingMode),
}

/// The plan of a run: without files there is nothing to do; a dry run only
/// reports; otherwise the files are scanned in the mode of the
/// configuration.
pub open spec fn plan_for(
    file_count: nat,
    dry_run: bool,
    single_file: bool,
    lengths: Option<Seq<usize>>,
) -> RunPlan {
    if file_count == 0 {
        RunPlan::NothingToDo
    } else if dry_run {
        RunPlan::DryRun
    } else {
        RunPlan::Scan(mode_for(single_file, lengths))
    }
}

/// The lengths of an optional list.
pub open spec fn lengths_view(lengths: Option<Vec<usize>>) -> Option<Seq<usize>> {
    match lengths {
        Some(list) => Some(list@),
        None => None,
    }
}

/// The text of an optional string.
pub open spec fn text_view(text: Option<String>) -> Option<Seq<char>> {
    match text {
        Some(t) => Some(t@),
        None => None,
    }
}

fn clone_text(text: &Option<String>) -> (copy: Option<String>)
    ensures
        text_view(copy) == text_view(*text),
{
    match text {
        Some(t) => Some(t.clone()),
        None => None,
    }
}

impl ProcessorConfig {
    /// The configuration that the options stand for. The length
    /// specification is read first, then the buffer size; the first of
    /// them that is malformed is the error.
    pub fn from_args(args: &Args) -> (result: Result<Self, ConfigError>)
        ensures
            match result {
                Ok(config) => {
                    &&& text_view(config.pattern) == text_view(args.pattern)
                    &&& config.single_file == args.single_file
                    &&& config.output_name@ == args.output_name@
                    &&& config.recursive == args.recursive
                    &&& config.no_dedup == args.no_dedup
                    &&& config.dry_run == args.dry_run
                    &&& config.quiet == args.quiet
                    &&& config.verbose == args.verbose
                    &&& config.sort_output == args.sort
                    &&& config.output_dir@ == match args.output {
                        Some(path) => path@,
                        None => seq!['.'],
                    }
                    &&& texts_of(config.extensions@) == extension_list(split_on(args.extensions@, ','))
                    &&& typed_size_outcome(args.buffer_size@) == Ok::<usize, SizeFault>(
                        config.buffer_size,
                    )
                    &&& match args.length {
                        None => config.lengths is None,
                        Some(text) => typed_lengths_outcome(text@) matches Ok(set)
                            && config.lengths matches Some(list) && strictly_increasing(list@)
                            && list@.to_set() == set,
                    }
                },
                Err(ConfigError::Length(e)) => args.length matches Some(text) && typed_lengths_outcome(
                    text@,
                ) == Err::<Set<usize>, LengthFault>(e.fault()),
                Err(ConfigError::Size(e)) => {
                    &&& args.length matches Some(text) ==> typed_lengths_outcome(text@) is Ok
                    &&& typed_size_outcome(args.buffer_size@) == Err::<usize, SizeFault>(e.fault())
                },
            },
    {
        let lengths: Option<Vec<usize>> = match args.parse_lengths() {
            Ok(lengths) => lengths,
            Err(e) => {
                return Err(ConfigError::Length(e));
            },
        };
        let buffer_size: usize = match args.parse_buffer_size() {
            Ok(size) => size,
            Err(e) => {
                return Err(ConfigError::Size(e));
            },
        };
        Ok(
            ProcessorConfig {
                lengths,
                pattern: clone_text(&args.pattern),
                single_file: args.single_file,
                output_dir: args.get_output_dir(),
                output_name: args.output_name.clone(),
                recursive: args.recursive,
                no_dedup: args.no_dedup,
                buffer_size,
                extensions: args.get_extensions(),
                dry_run: args.dry_run,
                quiet: args.quiet,
                verbose: args.verbose,
                sort_output: args.sort,
            },
        )
    }

    /// The mode of the run.
    pub fn mode(&self) -> (mode: ProcessingMode)
        ensures
            mode == mode_for(self.single_file, lengths_view(self.lengths)),
    {
        if self.single_file {
            ProcessingMode::SingleOutput
        } else {
            match &self.lengths {
                Some(list) => if list.len() == 1 {
                    ProcessingMode::SingleLength(list[0])
                } else {
                    ProcessingMode::MultiLength
                },
                None => ProcessingMode::SingleOutput,
            }
        }
    }

    /// Whether a file with this extension, already in lower case, is to be
    /// processed.
    pub fn allows_extension(&self, extension: &str) -> (allowed: bool)
        ensures
            allowed == texts_of(self.extensions@).contains(extension@),
    {
        let ghost texts = texts_of(self.extensions@);
        let wanted: String = String::from_str(extension);
        let mut i: usize = 0;
        while i < self.extensions.len()
            invariant
                i <= self.extensions@.len(),
                wanted@ == extension@,
                texts == texts_of(self.extensions@),
                forall|j: int| 0 <= j < i ==> texts[j] != extension@,
            decreases self.extensions@.len() - i,
        {
            if self.extensions[i] == wanted {
                proof {
                    assert(texts[i as int] == extension@);
                }
                return true;
            }
            i = i + 1;
        }
        false
    }
}

/// The sum of the sizes of the files, saturating at `u64::MAX`.
pub open spec fn total_size_of(sizes: Seq<u64>) -> nat
    decreases sizes.len(),
{
    if sizes.len() == 0 {
        0
    } else {
        let sum = total_size_of(sizes.drop_last()) + sizes.last();
        if sum > u64::MAX {
            u64::MAX as nat
        } else {
            sum as nat
        }
    }
}

/// The sum of the sizes.
pub open spec fn sum_of(sizes: Seq<u64>) -> nat
    decreases sizes.len(),
{
    if sizes.len() == 0 {
        0
    } else {
        sum_of(sizes.drop_last()) + sizes.last() as nat
    }
}

/// The sizes of a list of files.
pub open spec fn sizes_of(files: Seq<(String, u64)>) -> Seq<u64> {
    Seq::new(files.len(), |i: int| files[i].1)
}

/// The total size of the files of a run.
pub fn total_size(files: &[(String, u64)]) -> (total: u64)
    ensures
        total == total_size_of(sizes_of(files@)),
{
    let mut total: u64 = 0;
    let mut i: usize = 0;
    proof {
        assert(sizes_of(files@).take(0) == Seq::<u64>::empty());
    }
    while i < files.len()
        invariant
            i <= files@.len(),
            total == total_size_of(sizes_of(files@).take(i as int)),
        decreases files@.len() - i,
    {
        proof {
            let sizes = sizes_of(files@);
            assert(sizes.take(i + 1).drop_last() == sizes.take(i as int));
            assert(sizes.take(i + 1).last() == files@[i as int].1);
        }
        total = total.saturating_add(files[i].1);
        i = i + 1;
    }
    proof {
        assert(sizes_of(files@).take(i as int) == sizes_of(files@));
    }
    total
}

/// The number of words expected in `total_size` bytes, at ten bytes for a
/// word, shared among `buckets` buckets.
pub open spec fn estimated_words(total_size: u64, buckets: usize) -> usize {
    let words = total_size as int / 10 / (buckets as int);
    if words > usize::MAX {
        usize::MAX
    } else {
        words as usize
    }
}

/// Computes `estimated_words`.
pub fn estimate_words(total_size: u64, buckets: usize) -> (words: usize)
    requires
        buckets >= 1,
    ensures
        words == estimated_words(total_size, buckets),
{
    let words: u64 = total_size / 10 / (buckets as u64);
    if words > usize::MAX as u64 {
        usize::MAX
    } else {
        words as usize
    }
}

/// Main processor
pub struct Processor {
    config: ProcessorConfig,
    stats: ProcessingStats,
}

impl Processor {
    /// The configuration of the run.
    pub closed spec fn config(&self) -> ProcessorConfig {
        self.config
    }

    /// The statistics so far.
    pub closed spec fn statistics(&self) -> ProcessingStats {
        self.stats
    }

    pub fn new(config: ProcessorConfig) -> (processor: Self)
        ensures
            processor.config() == config,
            processor.statistics() == ProcessingStats::zero(),
    {
        Processor { config, stats: ProcessingStats::new() }
    }

    /// Get the configuration of the run
    pub fn settings(&self) -> (config: &ProcessorConfig)
        ensures
            *config == self.config(),
    {
        &self.config
    }

    /// Get processing statistics
    pub fn stats(&self) -> (stats: ProcessingStats)
        ensures
            stats == self.statistics(),
    {
        self.stats
    }

    /// Counts the files found, with their sizes.
    pub fn add_files(&mut self, files: &[(String, u64)])
        ensures
            final(self).config() == old(self).config(),
            final(self).statistics() == (ProcessingStats {
                total_files: advanced(old(self).statistics().total_files, files@.len()),
                total_bytes: advanced(old(self).statistics().total_bytes, sum_of(sizes_of(files@))),
                ..old(self).statistics()
            }),
    {
        let mut i: usize = 0;
        proof {
            lemma_advanced_one();
            assert(sizes_of(files@).take(0) == Seq::<u64>::empty());
        }
        while i < files.len()
            invariant
                i <= files@.len(),
                self.config == old(self).config,
                self.stats == (ProcessingStats {
                    total_files: advanced(old(self).stats.total_files, i as nat),
                    total_bytes: advanced(
                        old(self).stats.total_bytes,
                        sum_of(sizes_of(files@).take(i as int)),
                    ),
                    ..old(self).stats
                }),
            decreases files@.len() - i,
        {
            let size: u64 = files[i].1;
            proof {
                let sizes = sizes_of(files@);
                assert(sizes.take(i + 1).drop_last() == sizes.take(i as int));
                assert(sizes.take(i + 1).last() == size);
                lemma_advanced_one();
                lemma_advanced_twice(old(self).stats.total_files, i as nat, 1);
                lemma_advanced_add(self.stats.total_bytes, size);
                lemma_advanced_twice(
                    old(self).stats.total_bytes,
                    sum_of(sizes.take(i as int)),
                    size as nat,
                );
            }
            self.stats.add_file(size);
            i = i + 1;
        }
        proof {
            assert(sizes_of(files@).take(i as int) == sizes_of(files@));
        }
    }

    /// Counts a file as done, with its size.
    pub fn complete_file(&mut self, size: u64)
        ensures
            final(self).config() == old(self).config(),
            final(self).statistics() == (ProcessingStats {
                processed_files: old(self).statistics().processed_files.wrapping_add(1),
                processed_bytes: old(self).statistics().processed_bytes.wrapping_add(size),
                ..old(self).statistics()
            }),
    {
        self.stats.complete_file(size);
    }

    /// The mode of the run.
    pub fn mode(&self) -> (mode: ProcessingMode)
        ensures
            mode == mode_for(self.config().single_file, lengths_view(self.config().lengths)),
    {
        self.config.mode()
    }

    /// The plan of the run for the number of files found.
    pub fn plan(&self, file_count: usize) -> (plan: RunPlan)
        ensures
            plan == plan_for(
                file_count as nat,
                self.config().dry_run,
                self.config().single_file,
                lengths_view(self.config().lengths),
            ),
    {
        if file_count == 0 {
            RunPlan::NothingToDo
        } else if self.config.dry_run {
            RunPlan::DryRun
        } else {
            RunPlan::Scan(self.config.mode())
        }
    }

    /// The engine for one bucket of a run over `total_size` bytes shared
    /// among `buckets` buckets: none that remembers if deduplication is
    /// off; otherwise an exact sharded one with `shard_factor` shards for
    /// each processor, sized for the words expected.
    pub fn make_dedup(&self, total_size: u64, buckets: usize, shard_factor: usize) -> (dedup: DedupEngine)
        requires
            buckets >= 1,
            shard_factor >= 1,
        ensures
            dedup.well_formed(),
            dedup.recognized() == Set::<Seq<char>>::empty(),
            dedup.count() == 0,
            dedup.kind() == if self.config().no_dedup {
                DedupKind::PassThrough
            } else {
                DedupKind::Exact
            },
            if self.config().no_dedup {
                dedup is NoOp
            } else {
                dedup matches DedupEngine::Sharded(engine) && exists|cpus: usize|
                    cpus >= 1 && engine.shard_count() == #[trigger] shards_for(cpus, shard_factor)
            },
    {
        if self.config.no_dedup {
            DedupEngine::NoOp(NoOpDeduplicator::new())
        } else {
            let words: usize = estimate_words(total_size, buckets);
            DedupEngine::Sharded(sharded_for(words, cpu_count(), shard_factor))
        }
    }

}

impl Processor {
    /// Handles one line: removes a single trailing line terminator, skips
    /// the line if nothing is left, asks the filter, then the engine, and
    /// writes the word if it is new.
    pub fn process_line<F: WordFilter, D: Deduplicator>(
        &mut self,
        line: &str,
        filter: &F,
        dedup: &mut D,
        output: &mut SingleOutputManager,
    ) -> (outcome: LineOutcome)
        requires
            old(dedup).well_formed(),
            old(output).writer().well_formed(),
        ensures
            final(self).config() == old(self).config(),
            outcome == line_outcome(
                filter,
                old(dedup).recognized(),
                Ok::<Seq<char>, LineError>(line@),
            ),
            line_step_holds(
                line@,
                outcome,
                old(self).statistics(),
                final(self).statistics(),
                old(dedup),
                final(dedup),
                *old(output),
                *final(output),
            ),
    {
        crate::scan::process_line(&mut self.stats, line, filter, dedup, output)
    }

    /// Process the lines of a file with the general filter, until the data
    /// ends or a flush of the output is due. Each line is handled as
    /// `process_line` says; a line that cannot be decoded is counted as an
    /// error and left out.
    pub fn process_file<D: Deduplicator>(
        &mut self,
        lines: &mut MmapLineIterator,
        filter: &FilterConfig,
        dedup: &mut D,
        output: &mut SingleOutputManager,
    ) -> (report: ScanReport)
        requires
            old(lines).well_formed(),
            old(dedup).well_formed(),
            old(output).writer().well_formed(),
        ensures
            final(self).config() == old(self).config(),
            single_scan_holds(
                filter,
                *old(lines),
                *final(lines),
                old(self).statistics(),
                final(self).statistics(),
                old(dedup),
                final(dedup),
                *old(output),
                *final(output),
                report,
            ),
    {
        crate::scan::scan_lines(&mut self.stats, lines, filter, dedup, output)
    }

    /// Process the lines of a file with the single-length filter, until the
    /// data ends or a flush of the output is due.
    pub fn process_file_single_length<D: Deduplicator>(
        &mut self,
        lines: &mut MmapLineIterator,
        filter: &SingleLengthFilter,
        dedup: &mut D,
        output: &mut SingleOutputManager,
    ) -> (report: ScanReport)
        requires
            old(lines).well_formed(),
            old(dedup).well_formed(),
            old(output).writer().well_formed(),
        ensures
            final(self).config() == old(self).config(),
            single_scan_holds(
                filter,
                *old(lines),
                *final(lines),
                old(self).statistics(),
                final(self).statistics(),
                old(dedup),
                final(dedup),
                *old(output),
                *final(output),
                report,
            ),
    {
        crate::scan::scan_lines(&mut self.stats, lines, filter, dedup, output)
    }

    /// Process the lines of a file with the router, until the data ends or
    /// a flush of a bucket is due. A line is handled as in `process_line`,
    /// with the engine of its bucket and the output of its length.
    pub fn process_file_multi_length<D: Deduplicator>(
        &mut self,
        lines: &mut MmapLineIterator,
        router: &MultiLengthRouter,
        dedups: &mut Vec<D>,
        output: &mut MultiOutputManager,
    ) -> (report: MultiScanReport)
        requires
            old(lines).well_formed(),
            old(dedups)@.len() == router.bucket_lengths().len(),
            engines_formed(old(dedups)@),
            old(output).well_formed(),
        ensures
            final(self).config() == old(self).config(),
            multi_scan_holds(
                router,
                *old(lines),
                *final(lines),
                old(self).statistics(),
                final(self).statistics(),
                old(dedups)@,
                final(dedups)@,
                *old(output),
                *final(output),
                report,
            ),
    {
        crate::scan::scan_routed_lines(&mut self.stats, lines, router, dedups, output)
    }
}

/// The prefix of the names of the output files of the length buckets.
pub const BUCKET_PREFIX: &'static str = "wordlist";

/// What a run with a single combined output works with.
pub struct SingleOutputRun {
    pub filter: FilterConfig,
    pub dedup: DedupEngine,
    pub output: SingleOutputManager,
}

/// What a run for a single length works with.
pub struct SingleLengthRun {
    pub filter: SingleLengthFilter,
    pub dedup: DedupEngine,
    pub output: SingleOutputManager,
}

/// What a run with one bucket for each length works with.
pub struct MultiLengthRun {
    pub router: MultiLengthRouter,
    pub dedups: Vec<DedupEngine>,
    pub output: MultiOutputManager,
}

fn copy_lengths(list: &Vec<usize>) -> (copy: Vec<usize>)
    ensures
        copy@ == list@,
{
    vstd::slice::slice_to_vec(list.as_slice())
}

/// Whether an engine is one that a run starts with: well formed, empty,
/// exact unless deduplication is off.
pub open spec fn is_start_engine(dedup: DedupEngine, no_dedup: bool) -> bool {
    &&& dedup.well_formed()
    &&& dedup.recognized() == Set::<Seq<char>>::empty()
    &&& dedup.count() == 0
    &&& dedup.kind() == if no_dedup {
        DedupKind::PassThrough
    } else {
        DedupKind::Exact
    }
}

impl Processor {
    fn pattern(&self) -> (pattern: Option<&str>)
        ensures
            match pattern {
                Some(p) => self.config.pattern matches Some(text) && p@ == text@,
                None => self.config.pattern is None,
            },
    {
        match &self.config.pattern {
            Some(text) => Some(text.as_str()),
            None => None,
        }
    }

    /// Sets up a run with a single combined output: the general filter of
    /// the configured lengths and pattern, one engine for all lines, and a
    /// new output named by the configuration. A malformed pattern is
    /// refused here, before any line is read.
    pub fn configure_single_output(&self, files: &[(String, u64)]) -> (result: Result<
        SingleOutputRun,
        PatternError,
    >)
        ensures
            result is Ok <==> (text_view(self.config().pattern) matches Some(p) ==> p.len() > 0
                ==> crate::filter::pattern_compiles(p)),
            result matches Ok(run) ==> {
                &&& is_start_engine(run.dedup, self.config().no_dedup)
                &&& crate::output::is_new_writer(
                    run.output.writer(),
                    crate::output::joined_path(self.config().output_dir@, self.config().output_name@),
                    self.config().buffer_size,
                )
                &&& match self.config().lengths {
                    Some(list) => run.filter.lengths matches Some(set) && set@ == list@.to_set(),
                    None => run.filter.lengths is None,
                }
                &&& match text_view(self.config().pattern) {
                    Some(p) if p.len() > 0 => run.filter.pattern matches Some(re)
                        && crate::filter::compiled_from(re, p),
                    _ => run.filter.pattern is None,
                }
            },
            result matches Err(e) ==> text_view(self.config().pattern) == Some(e.pattern@),
    {
        let lengths: Option<Vec<usize>> = match &self.config.lengths {
            Some(list) => Some(copy_lengths(list)),
            None => None,
        };
        let filter = match FilterConfig::new(lengths, self.pattern()) {
            Ok(filter) => filter,
            Err(e) => {
                return Err(e);
            },
        };
        let dedup = self.make_dedup(total_size(files), 1, 4);
        let path: String = crate::output::join_path(
            self.config.output_dir.as_str(),
            self.config.output_name.as_str(),
        );
        let output = SingleOutputManager::new(path, self.config.buffer_size);
        Ok(SingleOutputRun { filter, dedup, output })
    }

    /// Sets up a run for a single length: the single-length filter, one
    /// engine, and a new output named after the length.
    pub fn configure_single_length(&self, files: &[(String, u64)], length: usize) -> (result: Result<
        SingleLengthRun,
        PatternError,
    >)
        ensures
            result is Ok <==> (text_view(self.config().pattern) matches Some(p) ==> p.len() > 0
                ==> crate::filter::pattern_compiles(p)),
            result matches Ok(run) ==> {
                &&& is_start_engine(run.dedup, self.config().no_dedup)
                &&& crate::output::is_new_writer(
                    run.output.writer(),
                    crate::output::joined_path(
                        self.config().output_dir@,
                        crate::output::bucket_file_text("wordlist"@, length),
                    ),
                    self.config().buffer_size,
                )
                &&& run.filter.length() == length
                &&& match text_view(self.config().pattern) {
                    Some(p) if p.len() > 0 => run.filter.pattern() matches Some(re)
                        && crate::filter::compiled_from(re, p),
                    _ => run.filter.pattern() is None,
                }
            },
            result matches Err(e) ==> text_view(self.config().pattern) == Some(e.pattern@),
    {
        let filter = match SingleLengthFilter::new(length, self.pattern()) {
            Ok(filter) => filter,
            Err(e) => {
                return Err(e);
            },
        };
        let dedup = self.make_dedup(total_size(files), 1, 4);
        let name: String = crate::output::bucket_file_name(BUCKET_PREFIX, length);
        let path: String = crate::output::join_path(self.config.output_dir.as_str(), name.as_str());
        let output = SingleOutputManager::new(path, self.config.buffer_size);
        Ok(SingleLengthRun { filter, dedup, output })
    }

    /// Sets up a run with one bucket for each length: the router, one
    /// engine for each length, and a new output for each length, also for
    /// lengths that no line will have.
    pub fn configure_multi_length(&self, files: &[(String, u64)], lengths: &[usize]) -> (result: Result<
        MultiLengthRun,
        PatternError,
    >)
        ensures
            result is Ok <==> (text_view(self.config().pattern) matches Some(p) ==> p.len() > 0
                ==> crate::filter::pattern_compiles(p)),
            result matches Ok(run) ==> {
                &&& run.router.bucket_lengths() == lengths@
                &&& match text_view(self.config().pattern) {
                    Some(p) if p.len() > 0 => run.router.pattern() matches Some(re)
                        && crate::filter::compiled_from(re, p),
                    _ => run.router.pattern() is None,
                }
                &&& run.dedups@.len() == lengths@.len()
                &&& forall|i: int|
                    0 <= i < run.dedups@.len() ==> is_start_engine(
                        #[trigger] run.dedups@[i],
                        self.config().no_dedup,
                    )
                &&& run.output.well_formed()
                &&& run.output.output_dir() == self.config().output_dir@
                &&& run.output.prefix() == "wordlist"@
                &&& run.output.buffer_size() == self.config().buffer_size
                &&& run.output.bucket_lengths() == lengths@.to_set()
                &&& forall|length: usize|
                    #![trigger run.output.has_bucket(length)]
                    #![trigger run.output.bucket(length)]
                    if lengths@.contains(length) {
                        run.output.has_bucket(length) && crate::output::is_new_writer(
                            run.output.bucket(length),
                            run.output.bucket_path(length),
                            self.config().buffer_size,
                        )
                    } else {
                        !run.output.has_bucket(length)
                    }
            },
            result matches Err(e) ==> text_view(self.config().pattern) == Some(e.pattern@),
    {
        let router = match MultiLengthRouter::new(vstd::slice::slice_to_vec(lengths), self.pattern()) {
            Ok(router) => router,
            Err(e) => {
                return Err(e);
            },
        };
        let total: u64 = total_size(files);
        let mut dedups: Vec<DedupEngine> = Vec::new();
        let mut i: usize = 0;
        while i < lengths.len()
            invariant
                i <= lengths@.len(),
                dedups@.len() == i,
                forall|j: int|
                    0 <= j < i ==> is_start_engine(#[trigger] dedups@[j], self.config().no_dedup),
            decreases lengths@.len() - i,
        {
            dedups.push(self.make_dedup(total, lengths.len(), 2));
            i = i + 1;
        }
        let mut output = MultiOutputManager::new(
            self.config.output_dir.clone(),
            BUCKET_PREFIX,
            self.config.buffer_size,
        );
        output.init_lengths(lengths);
        proof {
            assert(output.bucket_lengths() =~= lengths@.to_set());
        }
        Ok(MultiLengthRun { router, dedups, output })
    }

    /// The names of the output files that the run would write, as a dry run
    /// lists them: the combined output, or one file for each length; none
    /// for a pattern alone.
    pub fn planned_outputs(&self) -> (names: Vec<String>)
        ensures
            texts_of(names@) == planned_names(
                self.config().single_file,
                self.config().output_name@,
                lengths_view(self.config().lengths),
            ),
    {
        let mut names: Vec<String> = Vec::new();
        if self.config.single_file {
            names.push(self.config.output_name.clone());
            proof {
                assert(texts_of(names@) == seq![self.config.output_name@]);
            }
        } else if let Some(lengths) = &self.config.lengths {
            let mut i: usize = 0;
            proof {
                assert(texts_of(names@) == bucket_names(lengths@.take(0)));
            }
            while i < lengths.len()
                invariant
                    i <= lengths@.len(),
                    texts_of(names@) == bucket_names(lengths@.take(i as int)),
                decreases lengths@.len() - i,
            {
                let ghost before = names@;
                let name: String = crate::output::bucket_file_name(BUCKET_PREFIX, lengths[i]);
                names.push(name);
                proof {
                    assert(lengths@.take(i + 1).drop_last() == lengths@.take(i as int));
                    assert(texts_of(names@) == texts_of(before).push(name@));
                }
                i = i + 1;
            }
            proof {
                assert(lengths@.take(i as int) == lengths@);
            }
        } else {
            proof {
                assert(texts_of(names@) == Seq::<Seq<char>>::empty());
            }
        }
        names
    }
}

/// The file names of the buckets of a list of lengths, in order.
pub open spec fn bucket_names(lengths: Seq<usize>) -> Seq<Seq<char>>
    decreases lengths.len(),
{
    if lengths.len() == 0 {
        Seq::empty()
    } else {
        bucket_names(lengths.drop_last()).push(
            crate::output::bucket_file_text("wordlist"@, lengths.last()),
        )
    }
}

/// The names of the output files of a run.
pub open spec fn planned_names(single_file: bool, output_name: Seq<char>, lengths: Option<Seq<usize>>) -> Seq<
    Seq<char>,
> {
    if single_file {
        seq![output_name]
    } else {
        match lengths {
            Some(list) => bucket_names(list),
            None => Seq::empty(),
        }
    }
}

} // verus!
