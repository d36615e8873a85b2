//! Membership engines: exact (single set or sharded), probabilistic (bit
//! filter) and pass-through.

use crate::bloom::BloomDeduplicator;
use crate::cli::DedupStrategy;
use crate::hashing::{fresh_hash_state, hash_text, text_hash};
use crate::string_set::{set_items, StringSet};
use vstd::prelude::*;
use vstd::set_lib::lemma_set_disjoint_lens;

verus! {

/// Counters of how many items a deduplication pass saw, kept and dropped.
/// Every counter wraps around at `u64::MAX`.
#[derive(Debug, Default)]
pub struct DedupStats {
    /// Total items processed
    pub total_processed: u64,
    /// Unique items found
    pub unique_count: u64,
    /// Duplicate items found
    pub duplicate_count: u64,
}

impl DedupStats {
    /// The total is the wrapped sum of the two other counters.
    pub open spec fn balanced(&self) -> bool {
        self.total_processed as int == (self.unique_count + self.duplicate_count) % 0x1_0000_0000_0000_0000
    }

    pub fn new() -> (stats: Self)
        ensures
            stats.total_processed == 0,
            stats.unique_count == 0,
            stats.duplicate_count == 0,
            stats.balanced(),
    {
        DedupStats { total_processed: 0, unique_count: 0, duplicate_count: 0 }
    }

    pub fn record_unique(&mut self)
        ensures
            final(self).total_processed == old(self).total_processed.wrapping_add(1),
            final(self).unique_count == old(self).unique_count.wrapping_add(1),
            final(self).duplicate_count == old(self).duplicate_count,
            old(self).balanced() ==> final(self).balanced(),
    {
        self.total_processed = self.total_processed.wrapping_add(1);
        self.unique_count = self.unique_count.wrapping_add(1);
    }

    pub fn record_duplicate(&mut self)
        ensures
            final(self).total_processed == old(self).total_processed.wrapping_add(1),
            final(self).duplicate_count == old(self).duplicate_count.wrapping_add(1),
            final(self).unique_count == old(self).unique_count,
            old(self).balanced() ==> final(self).balanced(),
    {
        self.total_processed = self.total_processed.wrapping_add(1);
        self.duplicate_count = self.duplicate_count.wrapping_add(1);
    }

    pub fn get_total(&self) -> (n: u64)
        ensures
            n == self.total_processed,
    {
        self.total_processed
    }

    pub fn get_unique(&self) -> (n: u64)
        ensures
            n == self.unique_count,
    {
        self.unique_count
    }

    pub fn get_duplicates(&self) -> (n: u64)
        ensures
            n == self.duplicate_count,
    {
        self.duplicate_count
    }
}

/// A count as a machine word: the count itself, or `usize::MAX` if that is
/// less.
pub open spec fn saturated(count: nat) -> usize {
    if count > usize::MAX {
        usize::MAX
    } else {
        count as usize
    }
}

/// How an engine answers for a value it was given before.
#[derive(Debug, Clone, Copy, PartialEq, Eq, Structural)]
pub enum DedupKind {
    /// Recognizes exactly the values inserted.
    Exact,
    /// Recognizes every value inserted, and possibly others.
    Probabilistic,
    /// Recognizes nothing.
    PassThrough,
}

/// A membership engine: tells first sightings of a value from later ones.
pub trait Deduplicator: Send + Sync {
    /// The engine's internal invariant.
    spec fn well_formed(&self) -> bool;

    /// Which guarantee the engine gives.
    spec fn kind(&self) -> DedupKind;

    /// The values that the engine reports as already seen.
    spec fn recognized(&self) -> Set<Seq<char>>;

    /// The number that `len` reports.
    spec fn count(&self) -> nat;

    /// Registers `item`. Returns true exactly when the engine did not
    /// recognize it before the call. No value is ever forgotten.
    fn insert(&mut self, item: &str) -> (fresh: bool)
        requires
            old(self).well_formed(),
        ensures
            final(self).well_formed(),
            final(self).kind() == old(self).kind(),
            fresh == !old(self).recognized().contains(item@),
            old(self).recognized().subset_of(final(self).recognized()),
            old(self).kind() == DedupKind::Exact ==> final(self).recognized() == old(self).recognized().insert(item@),
            old(self).kind() != DedupKind::PassThrough ==> final(self).recognized().contains(item@),
            old(self).kind() == DedupKind::PassThrough ==> final(self).recognized() == old(self).recognized(),
    ;

    /// Whether the engine recognizes `item`.
    fn contains(&self, item: &str) -> (found: bool)
        requires
            self.well_formed(),
        ensures
            found == self.recognized().contains(item@),
    ;

    /// The number of values accepted as unique, or `usize::MAX` if that
    /// is less. For an exact engine the number is that of the values
    /// recognized.
    fn len(&self) -> (n: usize)
        requires
            self.well_formed(),
        ensures
            n == saturated(self.count()),
            self.kind() == DedupKind::Exact ==> self.recognized().finite(),
            self.kind() == DedupKind::Exact ==> self.count() == self.recognized().len(),
    ;

    /// Whether `len` is zero.
    fn is_empty(&self) -> (empty: bool)
        requires
            self.well_formed(),
        ensures
            empty == (self.count() == 0),
    {
        self.len() == 0
    }

    /// Back to the state of a new engine.
    fn clear(&mut self)
        requires
            old(self).well_formed(),
        ensures
            final(self).well_formed(),
            final(self).kind() == old(self).kind(),
            final(self).recognized() == Set::<Seq<char>>::empty(),
            final(self).count() == 0,
    ;

    /// An estimate of the bytes the engine holds.
    fn memory_usage(&self) -> (bytes: usize)
        requires
            self.well_formed(),
    ;
}

/// The estimate of what a hash set of strings occupies: 64 bytes for each
/// item and 8 for each slot, saturating at `usize::MAX`.
pub open spec fn set_memory_estimate(len: nat, capacity: nat) -> nat {
    if len * 64 + capacity * 8 > usize::MAX {
        usize::MAX as nat
    } else {
        len * 64 + capacity * 8
    }
}

/// Computes `set_memory_estimate` for a set's length and capacity.
pub fn estimate_set_memory(len: usize, capacity: usize) -> (bytes: usize)
    ensures
        bytes == set_memory_estimate(len as nat, capacity as nat),
{
    let items: Option<usize> = len.checked_mul(64);
    let slots: Option<usize> = capacity.checked_mul(8);
    match (items, slots) {
        (Some(a), Some(b)) => a.saturating_add(b),
        _ => usize::MAX,
    }
}

/// Exact engine over one set of strings.
pub struct MemoryDeduplicator {
    set: StringSet,
}

impl MemoryDeduplicator {
    pub fn new() -> (dedup: Self)
        ensures
            dedup.well_formed(),
            dedup.recognized() == Set::<Seq<char>>::empty(),
            dedup.count() == 0,
    {
        MemoryDeduplicator { set: StringSet::new() }
    }

    /// An empty engine with room for `capacity` values, or for
    /// `RESERVE_LIMIT` values if that is less; it grows as values come.
    pub fn with_capacity(capacity: usize) -> (dedup: Self)
        ensures
            dedup.well_formed(),
            dedup.recognized() == Set::<Seq<char>>::empty(),
            dedup.count() == 0,
    {
        MemoryDeduplicator { set: StringSet::with_room(capacity) }
    }
}

impl Default for MemoryDeduplicator {
    fn default() -> (dedup: Self)
        ensures
            dedup.well_formed(),
            dedup.recognized() == Set::<Seq<char>>::empty(),
    {
        Self::new()
    }
}

impl Deduplicator for MemoryDeduplicator {
    closed spec fn well_formed(&self) -> bool {
        set_items(self.set).finite()
    }

    open spec fn kind(&self) -> DedupKind {
        DedupKind::Exact
    }

    closed spec fn recognized(&self) -> Set<Seq<char>> {
        set_items(self.set)
    }

    closed spec fn count(&self) -> nat {
        set_items(self.set).len()
    }

    fn insert(&mut self, item: &str) -> (fresh: bool)
        ensures
            final(self).count() == old(self).count() + (if fresh { 1nat } else { 0nat }),
    {
        self.set.insert(item)
    }

    fn contains(&self, item: &str) -> (found: bool) {
        self.set.contains(item)
    }

    fn len(&self) -> (n: usize) {
        assert(self.recognized().finite());
        assert(self.count() == self.recognized().len());
        self.set.len()
    }

    fn clear(&mut self) {
        self.set.clear();
    }

    fn memory_usage(&self) -> (bytes: usize)
        ensures
            exists|capacity: usize| bytes == set_memory_estimate(self.count(), capacity as nat),
    {
        let len: usize = self.set.len();
        let capacity: usize = self.set.capacity();
        let bytes: usize = estimate_set_memory(len, capacity);
        assert(bytes == set_memory_estimate(self.count(), capacity as nat));
        bytes
    }
}

/// Pass-through engine: every value is new, and only a wrapping counter of
/// the insertions is kept.
pub struct NoOpDeduplicator {
    count: u64,
}

impl NoOpDeduplicator {
    pub fn new() -> (dedup: Self)
        ensures
            dedup.well_formed(),
            dedup.count() == 0,
    {
        NoOpDeduplicator { count: 0 }
    }
}

impl Default for NoOpDeduplicator {
    fn default() -> (dedup: Self)
        ensures
            dedup.well_formed(),
            dedup.count() == 0,
    {
        Self::new()
    }
}

impl Deduplicator for NoOpDeduplicator {
    open spec fn well_formed(&self) -> bool {
        true
    }

    open spec fn kind(&self) -> DedupKind {
        DedupKind::PassThrough
    }

    open spec fn recognized(&self) -> Set<Seq<char>> {
        Set::empty()
    }

    closed spec fn count(&self) -> nat {
        self.count as nat
    }

    fn insert(&mut self, item: &str) -> (fresh: bool)
        ensures
            fresh,
            final(self).count() == (old(self).count() + 1) % 0x1_0000_0000_0000_0000,
    {
        self.count = self.count.wrapping_add(1);
        true
    }

    fn contains(&self, item: &str) -> (found: bool)
        ensures
            !found,
    {
        false
    }

    fn len(&self) -> (n: usize) {
        assert(self.kind() == DedupKind::PassThrough);
        if self.count > usize::MAX as u64 {
            usize::MAX
        } else {
            self.count as usize
        }
    }

    fn clear(&mut self) {
        self.count = 0;
    }

    fn memory_usage(&self) -> (bytes: usize)
        ensures
            bytes == 8,
    {
        8
    }
}

/// Exact engine over several sets: each value belongs to the one set that
/// its hash selects.
pub struct ShardedDeduplicator {
    shards: Vec<StringSet>,
    hasher: ahash::RandomState,
}

impl ShardedDeduplicator {
    /// The number of shards.
    pub closed spec fn shard_count(&self) -> nat {
        self.shards@.len()
    }

    /// The number of values that each shard holds.
    pub closed spec fn shard_lens(&self) -> Seq<nat> {
        Seq::new(self.shards@.len(), |i: int| set_items(self.shards@[i]).len())
    }

    /// The shard that owns `item`.
    pub closed spec fn shard_of(&self, item: Seq<char>) -> int {
        ((text_hash(self.hasher, item) as usize) as int) % (self.shards@.len() as int)
    }

    /// The values held by the shards before `limit`.
    closed spec fn seen_below(&self, limit: int) -> Set<Seq<char>> {
        Set::new(
            |item: Seq<char>|
                self.shard_of(item) < limit && set_items(self.shards@[self.shard_of(item)]).contains(
                    item,
                ),
        )
    }

    /// Every shard is finite and holds only values that it owns.
    closed spec fn shards_sound(&self) -> bool {
        &&& forall|i: int| 0 <= i < self.shards@.len() ==> (#[trigger] set_items(self.shards@[i])).finite()
        &&& forall|i: int, item: Seq<char>|
            0 <= i < self.shards@.len() && #[trigger] set_items(self.shards@[i]).contains(item)
                ==> self.shard_of(item) == i
    }

    proof fn lemma_shard_in_range(&self, item: Seq<char>)
        requires
            self.shards@.len() > 0,
        ensures
            0 <= self.shard_of(item) < self.shards@.len(),
    {
    }

    proof fn lemma_seen_below_step(&self, limit: int)
        requires
            self.shards@.len() > 0,
            self.shards_sound(),
            0 <= limit < self.shards@.len(),
            self.seen_below(limit).finite(),
        ensures
            self.seen_below(limit + 1).finite(),
            self.seen_below(limit + 1).len() == self.seen_below(limit).len() + set_items(
                self.shards@[limit],
            ).len(),
    {
        let below = self.seen_below(limit);
        let shard = set_items(self.shards@[limit]);
        assert(self.seen_below(limit + 1) =~= below.union(shard)) by {
            assert forall|item: Seq<char>| shard.contains(item) implies self.seen_below(
                limit + 1,
            ).contains(item) by {
                assert(self.shard_of(item) == limit);
            }
        }
        assert(below.disjoint(shard)) by {
            assert forall|item: Seq<char>| !(below.contains(item) && shard.contains(item)) by {
                if shard.contains(item) {
                    assert(self.shard_of(item) == limit);
                }
            }
        }
        assert(shard.finite());
        lemma_set_disjoint_lens(below, shard);
    }

    proof fn lemma_seen_below_grows(&self, low: int, high: int)
        requires
            self.shards@.len() > 0,
            self.shards_sound(),
            0 <= low <= high <= self.shards@.len(),
        ensures
            self.seen_below(low).finite(),
            self.seen_below(high).finite(),
            self.seen_below(low).len() <= self.seen_below(high).len(),
        decreases high,
    {
        if high == 0 {
            assert(self.seen_below(0) =~= Set::<Seq<char>>::empty());
        } else if low == high {
            self.lemma_seen_below_grows(0, high - 1);
            self.lemma_seen_below_step(high - 1);
        } else {
            self.lemma_seen_below_grows(low, high - 1);
            self.lemma_seen_below_step(high - 1);
        }
    }

    fn get_shard_index(&self, item: &str) -> (index: usize)
        requires
            self.shards@.len() > 0,
        ensures
            index == self.shard_of(item@),
            index < self.shards@.len(),
    {
        let hash: u64 = hash_text(&self.hasher, item);
        (hash as usize) % self.shards.len()
    }

    /// An engine of `num_shards` empty shards. With no shard at all the
    /// engine is not well formed, and no value can be given to it.
    pub fn new(num_shards: usize) -> (dedup: Self)
        ensures
            dedup.well_formed() <==> num_shards > 0,
            dedup.shard_count() == num_shards,
            dedup.well_formed() ==> dedup.recognized() == Set::<Seq<char>>::empty() && dedup.count()
                == 0,
    {
        let mut shards: Vec<StringSet> = Vec::new();
        let mut i: usize = 0;
        while i < num_shards
            invariant
                i <= num_shards,
                shards@.len() == i,
                forall|j: int| 0 <= j < i ==> #[trigger] set_items(shards@[j]) == Set::<Seq<char>>::empty(),
            decreases num_shards - i,
        {
            shards.push(StringSet::new());
            i = i + 1;
        }
        let dedup = ShardedDeduplicator { shards, hasher: fresh_hash_state() };
        proof {
            if num_shards > 0 {
                assert(dedup.recognized() =~= Set::<Seq<char>>::empty()) by {
                    assert forall|item: Seq<char>| !dedup.recognized().contains(item) by {
                        dedup.lemma_shard_in_range(item);
                    }
                }
            }
        }
        dedup
    }

    /// As `new`; each shard is made ready for `capacity_per_shard` values,
    /// or for `RESERVE_LIMIT` values if that is less.
    pub fn with_capacity(num_shards: usize, capacity_per_shard: usize) -> (dedup: Self)
        ensures
            dedup.well_formed() <==> num_shards > 0,
            dedup.shard_count() == num_shards,
            dedup.well_formed() ==> dedup.recognized() == Set::<Seq<char>>::empty() && dedup.count()
                == 0,
    {
        let mut shards: Vec<StringSet> = Vec::new();
        let mut i: usize = 0;
        while i < num_shards
            invariant
                i <= num_shards,
                shards@.len() == i,
                forall|j: int| 0 <= j < i ==> #[trigger] set_items(shards@[j]) == Set::<Seq<char>>::empty(),
            decreases num_shards - i,
        {
            shards.push(StringSet::with_room(capacity_per_shard));
            i = i + 1;
        }
        let dedup = ShardedDeduplicator { shards, hasher: fresh_hash_state() };
        proof {
            if num_shards > 0 {
                assert(dedup.recognized() =~= Set::<Seq<char>>::empty()) by {
                    assert forall|item: Seq<char>| !dedup.recognized().contains(item) by {
                        dedup.lemma_shard_in_range(item);
                    }
                }
            }
        }
        dedup
    }
}

impl Deduplicator for ShardedDeduplicator {
    closed spec fn well_formed(&self) -> bool {
        self.shards@.len() > 0 && self.shards_sound()
    }

    open spec fn kind(&self) -> DedupKind {
        DedupKind::Exact
    }

    closed spec fn recognized(&self) -> Set<Seq<char>> {
        self.seen_below(self.shards@.len() as int)
    }

    closed spec fn count(&self) -> nat {
        self.recognized().len()
    }

    fn insert(&mut self, item: &str) -> (fresh: bool)
        ensures
            final(self).shard_count() == old(self).shard_count(),
            final(self).count() == old(self).count() + (if fresh { 1nat } else { 0nat }),
    {
        let index: usize = self.get_shard_index(item);
        let fresh: bool = self.shards[index].insert(item);
        proof {
            let before = *old(self);
            let after = *self;
            assert(after.hasher == before.hasher);
            assert(after.shards@.len() == before.shards@.len());
            assert forall|i: int| 0 <= i < after.shards@.len() && i != index implies after.shards@[i]
                == before.shards@[i] by {}
            assert forall|other: Seq<char>| after.shard_of(other) == before.shard_of(other) by {}
            assert(after.shards_sound()) by {
                assert forall|i: int| 0 <= i < after.shards@.len() implies (#[trigger] set_items(
                    after.shards@[i],
                )).finite() by {
                    assert(set_items(before.shards@[i]).finite());
                }
                assert forall|i: int, other: Seq<char>|
                    0 <= i < after.shards@.len() && #[trigger] set_items(after.shards@[i]).contains(
                        other,
                    ) implies after.shard_of(other) == i by {
                    if i == index && other == item@ {
                    } else {
                        assert(set_items(before.shards@[i]).contains(other));
                    }
                }
            }
            assert(after.recognized() =~= before.recognized().insert(item@)) by {
                assert forall|other: Seq<char>|
                    after.recognized().contains(other) == before.recognized().insert(
                        item@,
                    ).contains(other) by {
                    before.lemma_shard_in_range(other);
                }
            }
            before.lemma_seen_below_grows(0, before.shards@.len() as int);
        }
        fresh
    }

    fn contains(&self, item: &str) -> (found: bool) {
        let index: usize = self.get_shard_index(item);
        self.shards[index].contains(item)
    }

    fn len(&self) -> (n: usize) {
        let mut total: usize = 0;
        let mut i: usize = 0;
        proof {
            assert(self.seen_below(0) =~= Set::<Seq<char>>::empty());
        }
        while i < self.shards.len()
            invariant
                self.well_formed(),
                i <= self.shards@.len(),
                self.seen_below(i as int).finite(),
                total == saturated(self.seen_below(i as int).len()),
            decreases self.shards@.len() - i,
        {
            let shard_len: usize = self.shards[i].len();
            proof {
                self.lemma_seen_below_step(i as int);
            }
            total = total.saturating_add(shard_len);
            i = i + 1;
        }
        proof {
            self.lemma_seen_below_grows(0, self.shards@.len() as int);
        }
        total
    }

    fn clear(&mut self) {
        let mut i: usize = 0;
        while i < self.shards.len()
            invariant
                self.shards@.len() == old(self).shards@.len(),
                self.hasher == old(self).hasher,
                self.shards@.len() > 0,
                i <= self.shards@.len(),
                forall|j: int| 0 <= j < i ==> #[trigger] set_items(self.shards@[j]) == Set::<Seq<char>>::empty(),
            decreases self.shards@.len() - i,
        {
            self.shards[i].clear();
            i = i + 1;
        }
        proof {
            assert(self.recognized() =~= Set::<Seq<char>>::empty()) by {
                assert forall|item: Seq<char>| !self.recognized().contains(item) by {
                    self.lemma_shard_in_range(item);
                }
            }
        }
    }

    fn memory_usage(&self) -> (bytes: usize)
        ensures
            exists|capacities: Seq<usize>|
                capacities.len() == self.shard_count() && bytes == #[trigger] shards_memory_estimate(
                    self.shard_lens(),
                    capacities,
                ),
    {
        let mut total: usize = 0;
        let mut i: usize = 0;
        let ghost mut capacities: Seq<usize> = Seq::empty();
        proof {
            assert(self.shard_lens().take(0) == Seq::<nat>::empty());
        }
        while i < self.shards.len()
            invariant
                i <= self.shards@.len(),
                capacities.len() == i,
                total == shards_memory_estimate(self.shard_lens().take(i as int), capacities),
            decreases self.shards@.len() - i,
        {
            let len: usize = self.shards[i].len();
            let capacity: usize = self.shards[i].capacity();
            proof {
                let lens = self.shard_lens();
                assert(lens.take(i + 1).drop_last() == lens.take(i as int));
                assert(lens.take(i + 1).last() == len);
                assert(capacities.push(capacity).drop_last() == capacities);
                capacities = capacities.push(capacity);
            }
            total = total.saturating_add(estimate_set_memory(len, capacity));
            i = i + 1;
        }
        proof {
            assert(self.shard_lens().take(i as int) == self.shard_lens());
        }
        total
    }
}

/// The estimate of what several hash sets of strings occupy: the sum of
/// their estimates, saturating at `usize::MAX`.
pub open spec fn shards_memory_estimate(lens: Seq<nat>, capacities: Seq<usize>) -> nat
    decreases lens.len(),
{
    if lens.len() == 0 || capacities.len() == 0 {
        0
    } else {
        let sum = shards_memory_estimate(lens.drop_last(), capacities.drop_last()) + set_memory_estimate(
            lens.last(),
            capacities.last() as nat,
        );
        if sum > usize::MAX {
            usize::MAX as nat
        } else {
            sum
        }
    }
}

/// `num_cpus::get`: the number of logical processors available, which is
/// at least one. The number depends on the machine.
#[verifier::external_body]
pub(crate) fn cpu_count() -> (cpus: usize)
    ensures
        cpus >= 1,
{
    num_cpus::get()
}

/// The number of shards for a number of processors: `factor` for each,
/// saturating at `usize::MAX`.
pub open spec fn shards_for(cpus: usize, factor: usize) -> usize {
    if cpus * factor > usize::MAX {
        usize::MAX
    } else {
        (cpus * factor) as usize
    }
}

/// Computes `shards_for`.
pub fn shard_count_for(cpus: usize, factor: usize) -> (shards: usize)
    ensures
        shards == shards_for(cpus, factor),
{
    match cpus.checked_mul(factor) {
        Some(shards) => shards,
        None => usize::MAX,
    }
}

/// A sharded exact engine sized for `expected_items` on a machine of
/// `cpus` processors, with `factor` shards for each processor.
pub fn sharded_for(expected_items: usize, cpus: usize, factor: usize) -> (dedup: ShardedDeduplicator)
    requires
        cpus >= 1,
        factor >= 1,
    ensures
        dedup.well_formed(),
        dedup.shard_count() == shards_for(cpus, factor),
        dedup.recognized() == Set::<Seq<char>>::empty(),
        dedup.count() == 0,
{
    let num_shards: usize = shard_count_for(cpus, factor);
    proof {
        assert(cpus * factor >= 1) by (nonlinear_arith)
            requires
                cpus >= 1,
                factor >= 1,
        ;
    }
    ShardedDeduplicator::with_capacity(num_shards, expected_items / num_shards)
}

/// One of the engines, chosen when a run is configured.
pub enum DedupEngine {
    Memory(MemoryDeduplicator),
    Sharded(ShardedDeduplicator),
    Bloom(BloomDeduplicator),
    NoOp(NoOpDeduplicator),
}

impl Deduplicator for DedupEngine {
    open spec fn well_formed(&self) -> bool {
        match self {
            DedupEngine::Memory(engine) => engine.well_formed(),
            DedupEngine::Sharded(engine) => engine.well_formed(),
            DedupEngine::Bloom(engine) => engine.well_formed(),
            DedupEngine::NoOp(engine) => engine.well_formed(),
        }
    }

    open spec fn kind(&self) -> DedupKind {
        match self {
            DedupEngine::Memory(engine) => engine.kind(),
            DedupEngine::Sharded(engine) => engine.kind(),
            DedupEngine::Bloom(engine) => engine.kind(),
            DedupEngine::NoOp(engine) => engine.kind(),
        }
    }

    open spec fn recognized(&self) -> Set<Seq<char>> {
        match self {
            DedupEngine::Memory(engine) => engine.recognized(),
            DedupEngine::Sharded(engine) => engine.recognized(),
            DedupEngine::Bloom(engine) => engine.recognized(),
            DedupEngine::NoOp(engine) => engine.recognized(),
        }
    }

    open spec fn count(&self) -> nat {
        match self {
            DedupEngine::Memory(engine) => engine.count(),
            DedupEngine::Sharded(engine) => engine.count(),
            DedupEngine::Bloom(engine) => engine.count(),
            DedupEngine::NoOp(engine) => engine.count(),
        }
    }

    fn insert(&mut self, item: &str) -> (fresh: bool) {
        match self {
            DedupEngine::Memory(engine) => engine.insert(item),
            DedupEngine::Sharded(engine) => engine.insert(item),
            DedupEngine::Bloom(engine) => engine.insert(item),
            DedupEngine::NoOp(engine) => engine.insert(item),
        }
    }

    fn contains(&self, item: &str) -> (found: bool) {
        match self {
            DedupEngine::Memory(engine) => engine.contains(item),
            DedupEngine::Sharded(engine) => engine.contains(item),
            DedupEngine::Bloom(engine) => engine.contains(item),
            DedupEngine::NoOp(engine) => engine.contains(item),
        }
    }

    fn len(&self) -> (n: usize) {
        let n: usize = match self {
            DedupEngine::Memory(engine) => engine.len(),
            DedupEngine::Sharded(engine) => engine.len(),
            DedupEngine::Bloom(engine) => engine.len(),
            DedupEngine::NoOp(engine) => engine.len(),
        };
        proof {
            match self {
                DedupEngine::Memory(engine) => {
                    assert(self.kind() == engine.kind() && self.recognized() == engine.recognized());
                },
                DedupEngine::Sharded(engine) => {
                    assert(self.kind() == engine.kind() && self.recognized() == engine.recognized());
                },
                DedupEngine::Bloom(engine) => {
                    assert(self.kind() == DedupKind::Probabilistic);
                },
                DedupEngine::NoOp(engine) => {
                    assert(self.kind() == DedupKind::PassThrough);
                },
            }
        }
        n
    }

    fn clear(&mut self) {
        match self {
            DedupEngine::Memory(engine) => engine.clear(),
            DedupEngine::Sharded(engine) => engine.clear(),
            DedupEngine::Bloom(engine) => engine.clear(),
            DedupEngine::NoOp(engine) => engine.clear(),
        }
    }

    fn memory_usage(&self) -> (bytes: usize)
        ensures
            match self {
                DedupEngine::Memory(engine) => exists|capacity: usize|
                    bytes == set_memory_estimate(engine.count(), capacity as nat),
                DedupEngine::Sharded(engine) => exists|capacities: Seq<usize>|
                    capacities.len() == engine.shard_count() && bytes
                        == #[trigger] shards_memory_estimate(engine.shard_lens(), capacities),
                DedupEngine::Bloom(engine) => bytes == engine.num_bits() / 8,
                DedupEngine::NoOp(engine) => bytes == 8,
            },
    {
        match self {
            DedupEngine::Memory(engine) => engine.memory_usage(),
            DedupEngine::Sharded(engine) => engine.memory_usage(),
            DedupEngine::Bloom(engine) => engine.memory_usage(),
            DedupEngine::NoOp(engine) => engine.memory_usage(),
        }
    }
}

/// Factory for creating deduplicators based on configuration: the sharded
/// exact engine with four shards for each processor, or the bit filter for
/// the size estimates given (see `BloomDeduplicator::with_estimates`).
pub fn create_deduplicator(
    strategy: DedupStrategy,
    expected_items: usize,
    memory_limit: usize,
    bloom_bits: usize,
    bloom_hashes: usize,
) -> (dedup: DedupEngine)
    requires
        strategy == DedupStrategy::Bloom ==> bloom_bits + 63 <= usize::MAX,
    ensures
        dedup.well_formed(),
        dedup.recognized() == Set::<Seq<char>>::empty(),
        dedup.count() == 0,
        match strategy {
            DedupStrategy::Memory => dedup matches DedupEngine::Sharded(engine) && exists|cpus: usize|
                cpus >= 1 && engine.shard_count() == #[trigger] shards_for(cpus, 4),
            DedupStrategy::Bloom => dedup matches DedupEngine::Bloom(filter) && filter.num_bits()
                == crate::bloom::words_for_bits(crate::bloom::bloom_bits_for(bloom_bits as nat)) * 64
                && filter.num_hashes() == crate::bloom::bloom_hashes_for(bloom_hashes as nat),
        },
{
    match strategy {
        DedupStrategy::Memory => DedupEngine::Sharded(sharded_for(expected_items, cpu_count(), 4)),
        DedupStrategy::Bloom => DedupEngine::Bloom(
            BloomDeduplicator::with_estimates(bloom_bits, bloom_hashes),
        ),
    }
}

/// The values that an exact engine recognizes after it was given `values`
/// in order, starting from `start`.
pub open spec fn inserted_all(start: Set<Seq<char>>, values: Seq<Seq<char>>) -> Set<Seq<char>>
    decreases values.len(),
{
    if values.len() == 0 {
        start
    } else {
        inserted_all(start, values.drop_last()).insert(values.last())
    }
}

/// Whether an exact engine that starts empty answers true to insertion
/// number `at` of `values`.
pub open spec fn fresh_at(values: Seq<Seq<char>>, at: int) -> bool {
    !inserted_all(Set::empty(), values.take(at)).contains(values[at])
}

/// How many insertions of `values` an exact engine that starts empty
/// answers with true.
pub open spec fn fresh_count(values: Seq<Seq<char>>) -> nat
    decreases values.len(),
{
    if values.len() == 0 {
        0
    } else {
        fresh_count(values.drop_last()) + if fresh_at(values, values.len() - 1) {
            1nat
        } else {
            0nat
        }
    }
}

/// For any sequence of insertions into an exact engine that starts empty:
/// the engine ends up recognizing exactly the values given; an insertion is
/// answered with true exactly when its value was not given before, so true
/// comes once for each distinct value; and the number of distinct values is
/// what the engine then counts.
pub proof fn lemma_exact_run(values: Seq<Seq<char>>)
    ensures
        inserted_all(Set::empty(), values) == values.to_set(),
        values.to_set().finite(),
        forall|at: int|
            0 <= at < values.len() ==> (#[trigger] fresh_at(values, at) <==> forall|before: int|
                0 <= before < at ==> values[before] != values[at]),
        fresh_count(values) == values.to_set().len(),
    decreases values.len(),
{
    if values.len() == 0 {
        assert(values.to_set() =~= Set::<Seq<char>>::empty());
    } else {
        let shorter = values.drop_last();
        let last = values.last();
        lemma_exact_run(shorter);
        lemma_exact_run_on(values);
        lemma_exact_run_on(shorter);
        assert(values.to_set() == shorter.to_set().insert(last));
        assert forall|at: int| 0 <= at < values.len() implies (#[trigger] fresh_at(values, at)
            <==> forall|before: int| 0 <= before < at ==> values[before] != values[at]) by {
            let prefix = values.take(at);
            lemma_exact_run_prefix(values, at);
            if prefix.to_set().contains(values[at]) {
                let j = choose|j: int| 0 <= j < prefix.len() && prefix[j] == values[at];
                assert(values[j] == values[at]);
            }
            if exists|before: int| 0 <= before < at && values[before] == values[at] {
                let before = choose|before: int| 0 <= before < at && values[before] == values[at];
                assert(prefix[before] == values[at]);
            }
        }
        assert(values.take(values.len() - 1) == shorter);
        assert(fresh_at(values, values.len() - 1) == !shorter.to_set().contains(last));
    }
}

proof fn lemma_exact_run_prefix(values: Seq<Seq<char>>, at: int)
    requires
        0 <= at <= values.len(),
    ensures
        inserted_all(Set::empty(), values.take(at)) == values.take(at).to_set(),
    decreases values.len() - at,
{
    if at < values.len() {
        lemma_exact_run_prefix(values, at + 1);
        assert(values.take(at + 1).drop_last() == values.take(at));
        lemma_exact_run_on(values.take(at));
    } else {
        assert(values.take(at) == values);
        lemma_exact_run_on(values);
    }
}

proof fn lemma_exact_run_on(values: Seq<Seq<char>>)
    ensures
        inserted_all(Set::empty(), values) == values.to_set(),
    decreases values.len(),
{
    if values.len() == 0 {
        assert(values.to_set() =~= Set::<Seq<char>>::empty());
    } else {
        let shorter = values.drop_last();
        let last = values.last();
        lemma_exact_run_on(shorter);
        assert(values.to_set() =~= shorter.to_set().insert(last)) by {
            assert forall|x: Seq<char>| values.to_set().contains(x) == shorter.to_set().insert(
                last,
            ).contains(x) by {
                if values.contains(x) {
                    let j = choose|j: int| 0 <= j < values.len() && values[j] == x;
                    if j < shorter.len() {
                        assert(shorter[j] == x);
                    }
                }
                if shorter.contains(x) {
                    let j = choose|j: int| 0 <= j < shorter.len() && shorter[j] == x;
                    assert(values[j] == x);
                }
                if x == last {
                    assert(values[values.len() - 1] == x);
                }
            }
        }
    }
}

} // verus!
