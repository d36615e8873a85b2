//! Probabilistic membership engine: a fixed-size bit filter probed by
//! double hashing.

use crate::dedup::{DedupKind, Deduplicator};
use crate::hashing::{fresh_hash_state, hash_text, hash_text_salted, salted_text_hash, text_hash};
use vstd::prelude::*;

verus! {

/// The bit position of one probe: `(h1 + probe * h2) mod num_bits`.
pub open spec fn bloom_index(h1: usize, h2: usize, probe: nat, num_bits: nat) -> int {
    (h1 + probe * h2) % (num_bits as int)
}

/// Whether bit `index` of the array of 64-bit words is set.
pub open spec fn bit_is_set(words: Seq<u64>, index: int) -> bool {
    words[index / 64] & (1u64 << ((index % 64) as u64)) != 0
}

/// The number of 64-bit words that hold `num_bits` bits.
pub open spec fn words_for_bits(num_bits: nat) -> nat {
    ((num_bits + 63) / 64) as nat
}

/// The bit count in use for a computed estimate: at least one word.
pub open spec fn bloom_bits_for(estimate: nat) -> nat {
    if estimate < 64 {
        64
    } else {
        estimate
    }
}

/// The probe count in use for a computed estimate: between 1 and 16.
pub open spec fn bloom_hashes_for(estimate: nat) -> nat {
    if estimate < 1 {
        1
    } else if estimate > 16 {
        16
    } else {
        estimate
    }
}

proof fn lemma_or_sets_bit(word: u64, bit: u64, other: u64)
    requires
        bit < 64,
        other < 64,
    ensures
        ((word | (1u64 << bit)) & (1u64 << other) != 0) == ((word & (1u64 << other) != 0) || bit
            == other),
{
    assert(((word | (1u64 << bit)) & (1u64 << other) != 0) == ((word & (1u64 << other) != 0) || bit
        == other)) by (bit_vector)
        requires
            bit < 64,
            other < 64,
    ;
}

proof fn lemma_zero_has_no_bit(bit: u64)
    requires
        bit < 64,
    ensures
        0u64 & (1u64 << bit) == 0,
{
    assert(0u64 & (1u64 << bit) == 0) by (bit_vector);
}

proof fn lemma_probe_fits(h1: usize, h2: usize, probe: usize)
    ensures
        h1 + probe * h2 <= u128::MAX,
        0 <= probe * h2,
{
    assert(probe * h2 <= 0xffff_ffff_ffff_ffff * 0xffff_ffff_ffff_ffff) by (nonlinear_arith)
        requires
            0 <= probe <= 0xffff_ffff_ffff_ffff,
            0 <= h2 <= 0xffff_ffff_ffff_ffff,
    ;
    assert(0 <= probe * h2) by (nonlinear_arith)
        requires
            0 <= probe,
            0 <= h2,
    ;
}

/// Computes the bit position of one probe from the two hashes of a value.
pub fn probe_position(h1: usize, h2: usize, probe: usize, num_bits: usize) -> (position: usize)
    requires
        num_bits > 0,
    ensures
        position == bloom_index(h1, h2, probe as nat, num_bits as nat),
        position < num_bits,
{
    proof {
        lemma_probe_fits(h1, h2, probe);
    }
    let wide: u128 = (h1 as u128 + (probe as u128) * (h2 as u128)) % (num_bits as u128);
    wide as usize
}

/// Bit-filter engine. A value is recognized when all of its probe bits are
/// set; inserting a value sets them.
pub struct BloomDeduplicator {
    bits: Vec<u64>,
    num_hashes: usize,
    hasher: ahash::RandomState,
    estimated_count: u64,
}

impl BloomDeduplicator {
    /// The size of the bit array, a whole number of words.
    pub closed spec fn num_bits(&self) -> nat {
        self.bits@.len() * 64
    }

    /// The number of probes per value.
    pub closed spec fn num_hashes(&self) -> nat {
        self.num_hashes as nat
    }

    /// The bit position of probe number `probe` for `item`.
    pub closed spec fn probe_index(&self, item: Seq<char>, probe: nat) -> int {
        let h1 = text_hash(self.hasher, item) as usize;
        let h2 = salted_text_hash(self.hasher, h1, item) as usize;
        bloom_index(h1, h2, probe, self.num_bits())
    }

    /// Whether bit `index` of the filter is set.
    pub closed spec fn bit(&self, index: int) -> bool {
        bit_is_set(self.bits@, index)
    }

    /// Whether all probe bits of `item` are set.
    pub open spec fn all_probes_set(&self, item: Seq<char>) -> bool {
        forall|probe: nat| probe < self.num_hashes() ==> self.bit(#[trigger] self.probe_index(item, probe))
    }

    /// Whether `index` is one of the probe positions of `item`.
    pub open spec fn is_probe_of(&self, item: Seq<char>, index: int) -> bool {
        exists|probe: nat| probe < self.num_hashes() && #[trigger] self.probe_index(item, probe) == index
    }

    /// The positions of the bits that are set.
    pub open spec fn set_bits(&self) -> Set<int> {
        Set::new(|index: int| 0 <= index < self.num_bits() && self.bit(index))
    }

    /// The probe positions of `item`.
    pub open spec fn probes(&self, item: Seq<char>) -> Set<int> {
        Set::new(|index: int| self.is_probe_of(item, index))
    }

    /// A value is recognized exactly when its probe positions are all among
    /// the set bits.
    pub proof fn lemma_recognized_by_bits(&self, item: Seq<char>)
        requires
            self.well_formed(),
        ensures
            self.recognized().contains(item) <==> self.probes(item).subset_of(self.set_bits()),
    {
        if self.recognized().contains(item) {
            assert forall|index: int| self.probes(item).contains(index) implies self.set_bits().contains(
                index,
            ) by {
                let probe = choose|probe: nat|
                    probe < self.num_hashes() && #[trigger] self.probe_index(item, probe) == index;
                self.lemma_probe_in_range(item, probe);
                assert(self.bit(self.probe_index(item, probe)));
            }
        }
        if self.probes(item).subset_of(self.set_bits()) {
            assert forall|probe: nat| probe < self.num_hashes() implies self.bit(
                #[trigger] self.probe_index(item, probe),
            ) by {
                let index = self.probe_index(item, probe);
                assert(self.is_probe_of(item, index));
                assert(self.probes(item).contains(index));
                assert(self.set_bits().contains(index));
            }
        }
    }

    proof fn lemma_probe_in_range(&self, item: Seq<char>, probe: nat)
        requires
            self.num_bits() > 0,
        ensures
            0 <= self.probe_index(item, probe) < self.num_bits(),
    {
        let h1 = text_hash(self.hasher, item) as usize;
        let h2 = salted_text_hash(self.hasher, h1, item) as usize;
        assert(0 <= probe * h2) by (nonlinear_arith)
            requires
                0 <= probe,
                0 <= h2,
        ;
    }

    /// A filter of `num_bits` bits, rounded up to whole words, all clear,
    /// with `num_hashes` probes per value. A filter without a bit or without
    /// a probe is not well formed, and no value can be given to it.
    pub fn with_params(num_bits: usize, num_hashes: usize) -> (dedup: Self)
        requires
            num_bits + 63 <= usize::MAX,
        ensures
            dedup.well_formed() <==> num_bits > 0 && num_hashes > 0,
            dedup.num_bits() == words_for_bits(num_bits as nat) * 64,
            dedup.num_hashes() == num_hashes,
            dedup.count() == 0,
            forall|index: int| 0 <= index < dedup.num_bits() ==> !dedup.bit(index),
            dedup.well_formed() ==> dedup.recognized() == Set::<Seq<char>>::empty(),
    {
        let num_words: usize = (num_bits + 63) / 64;
        let bits: Vec<u64> = vec![0u64; num_words];
        let dedup = BloomDeduplicator {
            bits,
            num_hashes,
            hasher: fresh_hash_state(),
            estimated_count: 0,
        };
        proof {
            dedup.lemma_clear_recognizes_nothing();
        }
        dedup
    }

    /// A filter for computed size estimates: `bloom_bits_for(bits_estimate)`
    /// bits and `bloom_hashes_for(hashes_estimate)` probes.
    pub fn with_estimates(bits_estimate: usize, hashes_estimate: usize) -> (dedup: Self)
        requires
            bits_estimate + 63 <= usize::MAX,
        ensures
            dedup.well_formed(),
            dedup.num_bits() == words_for_bits(bloom_bits_for(bits_estimate as nat)) * 64,
            dedup.num_hashes() == bloom_hashes_for(hashes_estimate as nat),
            dedup.count() == 0,
            dedup.recognized() == Set::<Seq<char>>::empty(),
    {
        let num_bits: usize = if bits_estimate < 64 {
            64
        } else {
            bits_estimate
        };
        let num_hashes: usize = if hashes_estimate < 1 {
            1
        } else if hashes_estimate > 16 {
            16
        } else {
            hashes_estimate
        };
        Self::with_params(num_bits, num_hashes)
    }

    proof fn lemma_clear_recognizes_nothing(&self)
        requires
            forall|i: int| 0 <= i < self.bits@.len() ==> self.bits@[i] == 0,
        ensures
            forall|index: int| 0 <= index < self.num_bits() ==> !self.bit(index),
            self.num_bits() > 0 && self.num_hashes > 0 ==> self.recognized() == Set::<Seq<char>>::empty(),
    {
        assert forall|index: int| 0 <= index < self.num_bits() implies !self.bit(index) by {
            lemma_zero_has_no_bit((index % 64) as u64);
        }
        if self.num_bits() > 0 && self.num_hashes > 0 {
            assert forall|item: Seq<char>| !self.recognized().contains(item) by {
                self.lemma_probe_in_range(item, 0);
                assert(!self.bit(self.probe_index(item, 0)));
            }
            assert(self.recognized() =~= Set::<Seq<char>>::empty());
        }
    }

    fn get_hash_indices(&self, item: &str) -> (indices: Vec<usize>)
        requires
            self.well_formed(),
        ensures
            indices@.len() == self.num_hashes(),
            forall|probe: int|
                0 <= probe < indices@.len() ==> #[trigger] indices@[probe] == self.probe_index(
                    item@,
                    probe as nat,
                ),
            forall|probe: int| 0 <= probe < indices@.len() ==> #[trigger] indices@[probe] < self.num_bits(),
    {
        let num_bits: usize = self.bits.len() * 64;
        let mut indices: Vec<usize> = Vec::with_capacity(self.num_hashes);
        let h1: usize = hash_text(&self.hasher, item) as usize;
        let h2: usize = hash_text_salted(&self.hasher, h1, item) as usize;
        let mut i: usize = 0;
        while i < self.num_hashes
            invariant
                self.well_formed(),
                num_bits == self.num_bits(),
                h1 == text_hash(self.hasher, item@) as usize,
                h2 == salted_text_hash(self.hasher, h1, item@) as usize,
                i <= self.num_hashes,
                indices@.len() == i,
                forall|probe: int|
                    0 <= probe < i ==> #[trigger] indices@[probe] == self.probe_index(
                        item@,
                        probe as nat,
                    ),
                forall|probe: int| 0 <= probe < i ==> #[trigger] indices@[probe] < self.num_bits(),
            decreases self.num_hashes - i,
        {
            indices.push(probe_position(h1, h2, i, num_bits));
            i = i + 1;
        }
        indices
    }

    fn set_bit(&mut self, index: usize) -> (was_clear: bool)
        requires
            index < old(self).num_bits(),
        ensures
            was_clear == !old(self).bit(index as int),
            final(self).num_bits() == old(self).num_bits(),
            final(self).num_hashes == old(self).num_hashes,
            final(self).hasher == old(self).hasher,
            final(self).estimated_count == old(self).estimated_count,
            forall|other: int|
                0 <= other < final(self).num_bits() ==> #[trigger] final(self).bit(other) == (old(self).bit(other) || other == index),
    {
        let u64_index: usize = index / 64;
        let bit_index: usize = index % 64;
        let mask: u64 = 1u64 << bit_index;
        let previous: u64 = self.bits[u64_index];
        self.bits.set(u64_index, previous | mask);
        proof {
            assert(mask == 1u64 << ((index as int % 64) as u64));
            assert forall|other: int| 0 <= other < self.num_bits() implies #[trigger] self.bit(other)
                == (old(self).bit(other) || other == index) by {
                if other / 64 == u64_index {
                    lemma_or_sets_bit(previous, bit_index as u64, (other % 64) as u64);
                }
            }
        }
        (previous & mask) == 0
    }

    fn get_bit(&self, index: usize) -> (set: bool)
        requires
            index < self.num_bits(),
        ensures
            set == self.bit(index as int),
    {
        let u64_index: usize = index / 64;
        let bit_index: usize = index % 64;
        let mask: u64 = 1u64 << bit_index;
        (self.bits[u64_index] & mask) != 0
    }

    fn all_set(&self, indices: &Vec<usize>) -> (all: bool)
        requires
            forall|probe: int| 0 <= probe < indices@.len() ==> #[trigger] indices@[probe] < self.num_bits(),
        ensures
            all == forall|probe: int| 0 <= probe < indices@.len() ==> self.bit(#[trigger] indices@[probe] as int),
    {
        let mut i: usize = 0;
        while i < indices.len()
            invariant
                i <= indices@.len(),
                forall|probe: int| 0 <= probe < indices@.len() ==> #[trigger] indices@[probe] < self.num_bits(),
                forall|probe: int| 0 <= probe < i ==> self.bit(#[trigger] indices@[probe] as int),
            decreases indices@.len() - i,
        {
            if !self.get_bit(indices[i]) {
                return false;
            }
            i = i + 1;
        }
        true
    }

    proof fn lemma_all_set_is_recognized(&self, item: Seq<char>, indices: Seq<usize>)
        requires
            indices.len() == self.num_hashes(),
            forall|probe: int|
                0 <= probe < indices.len() ==> #[trigger] indices[probe] == self.probe_index(
                    item,
                    probe as nat,
                ),
        ensures
            self.recognized().contains(item) == (forall|probe: int|
                0 <= probe < indices.len() ==> self.bit(#[trigger] indices[probe] as int)),
    {
        if self.recognized().contains(item) {
            assert forall|probe: int| 0 <= probe < indices.len() implies self.bit(
                #[trigger] indices[probe] as int,
            ) by {
                assert(self.bit(self.probe_index(item, probe as nat)));
            }
        }
        if forall|probe: int| 0 <= probe < indices.len() ==> self.bit(#[trigger] indices[probe] as int) {
            assert forall|probe: nat| probe < self.num_hashes() implies self.bit(
                #[trigger] self.probe_index(item, probe),
            ) by {
                assert(self.bit(indices[probe as int] as int));
            }
        }
    }
}

impl Deduplicator for BloomDeduplicator {
    closed spec fn well_formed(&self) -> bool {
        &&& self.bits@.len() > 0
        &&& self.bits@.len() * 64 <= usize::MAX
        &&& self.num_hashes > 0
    }

    open spec fn kind(&self) -> DedupKind {
        DedupKind::Probabilistic
    }

    open spec fn recognized(&self) -> Set<Seq<char>> {
        Set::new(|item: Seq<char>| self.all_probes_set(item))
    }

    closed spec fn count(&self) -> nat {
        self.estimated_count as nat
    }

    fn insert(&mut self, item: &str) -> (fresh: bool)
        ensures
            final(self).num_bits() == old(self).num_bits(),
            final(self).num_hashes() == old(self).num_hashes(),
            forall|other: Seq<char>, probe: nat|
                #[trigger] final(self).probe_index(other, probe) == old(self).probe_index(other, probe),
            !fresh ==> forall|index: int|
                0 <= index < old(self).num_bits() ==> final(self).bit(index) == old(self).bit(index),
            fresh ==> forall|index: int|
                0 <= index < old(self).num_bits() ==> #[trigger] final(self).bit(index) == (old(self).bit(index) || old(self).is_probe_of(item@, index)),
            final(self).count() == if fresh {
                (old(self).count() + 1) % 0x1_0000_0000_0000_0000
            } else {
                old(self).count()
            },
            final(self).set_bits() == old(self).set_bits().union(old(self).probes(item@)),
            forall|other: Seq<char>| final(self).probes(other) == old(self).probes(other),
    {
        let indices: Vec<usize> = self.get_hash_indices(item);
        let probably_exists: bool = self.all_set(&indices);
        proof {
            self.lemma_all_set_is_recognized(item@, indices@);
        }
        if probably_exists {
            proof {
                self.lemma_recognized_by_bits(item@);
                assert(self.set_bits() =~= self.set_bits().union(self.probes(item@)));
            }
            return false;
        }
        let mut any_new: bool = false;
        let mut i: usize = 0;
        while i < indices.len()
            invariant
                i <= indices@.len(),
                indices@.len() == old(self).num_hashes(),
                self.well_formed(),
                self.num_bits() == old(self).num_bits(),
                self.num_hashes == old(self).num_hashes,
                self.hasher == old(self).hasher,
                self.estimated_count == old(self).estimated_count,
                forall|probe: int|
                    0 <= probe < indices@.len() ==> #[trigger] indices@[probe] == old(self).probe_index(
                        item@,
                        probe as nat,
                    ),
                forall|probe: int| 0 <= probe < indices@.len() ==> #[trigger] indices@[probe] < self.num_bits(),
                forall|index: int|
                    0 <= index < self.num_bits() ==> #[trigger] self.bit(index) == (old(self).bit(index)
                        || exists|probe: int| 0 <= probe < i && #[trigger] indices@[probe] == index),
                any_new || forall|probe: int| 0 <= probe < i ==> old(self).bit(#[trigger] indices@[probe] as int),
            decreases indices@.len() - i,
        {
            let ghost before = *self;
            let index: usize = indices[i];
            let was_clear: bool = self.set_bit(index);
            if was_clear {
                any_new = true;
            }
            proof {
                assert forall|other: int| 0 <= other < self.num_bits() implies #[trigger] self.bit(other)
                    == (old(self).bit(other) || exists|probe: int|
                    0 <= probe < i + 1 && #[trigger] indices@[probe] == other) by {
                    assert(self.bit(other) == (before.bit(other) || other == index));
                    if other == index {
                        assert(indices@[i as int] == other);
                    }
                    if exists|probe: int| 0 <= probe < i + 1 && #[trigger] indices@[probe] == other {
                        let probe = choose|probe: int| 0 <= probe < i + 1 && #[trigger] indices@[probe] == other;
                        if probe < i {
                            assert(before.bit(other));
                        }
                    }
                }
                if !any_new {
                    assert(before.bit(index as int));
                    assert(old(self).bit(index as int) || exists|probe: int|
                        0 <= probe < i && #[trigger] indices@[probe] == index as int);
                }
            }
            i = i + 1;
        }
        proof {
            assert(any_new);
            assert forall|index: int| 0 <= index < old(self).num_bits() implies #[trigger] self.bit(index)
                == (old(self).bit(index) || old(self).is_probe_of(item@, index)) by {
                if old(self).is_probe_of(item@, index) {
                    let probe = choose|probe: nat|
                        probe < old(self).num_hashes() && #[trigger] old(self).probe_index(item@, probe)
                            == index;
                    assert(indices@[probe as int] == index);
                }
                if exists|probe: int| 0 <= probe < indices@.len() && #[trigger] indices@[probe] == index {
                    let probe = choose|probe: int|
                        0 <= probe < indices@.len() && #[trigger] indices@[probe] == index;
                    assert(old(self).probe_index(item@, probe as nat) == index);
                }
            }
        }
        let ghost filled = *self;
        if any_new {
            self.estimated_count = self.estimated_count.wrapping_add(1);
        }
        proof {
            assert(self.bits@ == filled.bits@);
            assert forall|index: int| self.bit(index) == filled.bit(index) by {}
            assert forall|index: int| 0 <= index < old(self).num_bits() implies #[trigger] self.bit(index)
                == (old(self).bit(index) || old(self).is_probe_of(item@, index)) by {
                assert(filled.bit(index) == (old(self).bit(index) || old(self).is_probe_of(item@, index)));
            }
            assert forall|other: Seq<char>, probe: nat| #[trigger]
                self.probe_index(other, probe) == old(self).probe_index(other, probe) by {}
            assert forall|other: Seq<char>| old(self).recognized().contains(other) implies self.recognized().contains(
                other,
            ) by {
                assert forall|probe: nat| probe < self.num_hashes() implies self.bit(
                    #[trigger] self.probe_index(other, probe),
                ) by {
                    let index = old(self).probe_index(other, probe);
                    old(self).lemma_probe_in_range(other, probe);
                    assert(old(self).bit(index));
                    assert(filled.bit(index));
                }
            }
            assert(self.set_bits() =~= old(self).set_bits().union(old(self).probes(item@))) by {
                assert forall|index: int| self.set_bits().contains(index) == old(self).set_bits().union(
                    old(self).probes(item@),
                ).contains(index) by {
                    if old(self).probes(item@).contains(index) {
                        let probe = choose|probe: nat|
                            probe < old(self).num_hashes() && #[trigger] old(self).probe_index(
                                item@,
                                probe,
                            ) == index;
                        old(self).lemma_probe_in_range(item@, probe);
                    }
                    if 0 <= index < old(self).num_bits() {
                        assert(self.bit(index) == (old(self).bit(index) || old(self).is_probe_of(
                            item@,
                            index,
                        )));
                    }
                }
            }
            assert forall|other: Seq<char>| self.probes(other) == old(self).probes(other) by {
                assert forall|index: int| self.is_probe_of(other, index) == old(self).is_probe_of(
                    other,
                    index,
                ) by {
                    if old(self).is_probe_of(other, index) {
                        let probe = choose|probe: nat|
                            probe < old(self).num_hashes() && #[trigger] old(self).probe_index(
                                other,
                                probe,
                            ) == index;
                        assert(self.probe_index(other, probe) == index);
                    }
                    if self.is_probe_of(other, index) {
                        let probe = choose|probe: nat|
                            probe < self.num_hashes() && #[trigger] self.probe_index(other, probe)
                                == index;
                        assert(old(self).probe_index(other, probe) == index);
                    }
                }
                assert(self.probes(other) =~= old(self).probes(other));
            }
            assert(self.recognized().contains(item@)) by {
                assert forall|probe: nat| probe < self.num_hashes() implies self.bit(
                    #[trigger] self.probe_index(item@, probe),
                ) by {
                    let index = old(self).probe_index(item@, probe);
                    old(self).lemma_probe_in_range(item@, probe);
                    assert(old(self).is_probe_of(item@, index));
                    assert(filled.bit(index));
                }
            }
        }
        true
    }

    fn contains(&self, item: &str) -> (found: bool) {
        let indices: Vec<usize> = self.get_hash_indices(item);
        let found: bool = self.all_set(&indices);
        proof {
            self.lemma_all_set_is_recognized(item@, indices@);
        }
        found
    }

    fn len(&self) -> (n: usize) {
        assert(self.kind() == DedupKind::Probabilistic);
        if self.estimated_count > usize::MAX as u64 {
            usize::MAX
        } else {
            self.estimated_count as usize
        }
    }

    fn clear(&mut self)
        ensures
            final(self).num_bits() == old(self).num_bits(),
            final(self).num_hashes() == old(self).num_hashes(),
            forall|index: int| 0 <= index < final(self).num_bits() ==> !final(self).bit(index),
    {
        let mut i: usize = 0;
        while i < self.bits.len()
            invariant
                self.bits@.len() == old(self).bits@.len(),
                self.num_hashes == old(self).num_hashes,
                self.hasher == old(self).hasher,
                i <= self.bits@.len(),
                forall|j: int| 0 <= j < i ==> self.bits@[j] == 0,
            decreases self.bits@.len() - i,
        {
            self.bits.set(i, 0);
            i = i + 1;
        }
        self.estimated_count = 0;
        proof {
            self.lemma_clear_recognizes_nothing();
        }
    }

    fn memory_usage(&self) -> (bytes: usize)
        ensures
            bytes == self.num_bits() / 8,
    {
        self.bits.len() * 8
    }
}


/// The set bits after the values were inserted in order, where inserting a
/// value sets the bits at its probe positions.
pub open spec fn bits_after(
    start: Set<int>,
    probes: spec_fn(Seq<char>) -> Set<int>,
    values: Seq<Seq<char>>,
) -> Set<int>
    decreases values.len(),
{
    if values.len() == 0 {
        start
    } else {
        bits_after(start, probes, values.drop_last()).union(probes(values.last()))
    }
}

/// No false negatives: after any sequence of insertions, the probe bits of
/// every value inserted are set, so that a later `contains` for it answers
/// true, whatever was inserted in between and after.
pub proof fn lemma_no_false_negatives(
    start: Set<int>,
    probes: spec_fn(Seq<char>) -> Set<int>,
    values: Seq<Seq<char>>,
    at: int,
)
    requires
        0 <= at < values.len(),
    ensures
        start.subset_of(bits_after(start, probes, values)),
        probes(values[at]).subset_of(bits_after(start, probes, values)),
    decreases values.len(),
{
    let shorter = values.drop_last();
    let before = bits_after(start, probes, shorter);
    if values.len() == 1 {
        assert(before == start);
    } else if at == values.len() - 1 {
        lemma_no_false_negatives(start, probes, shorter, 0);
    } else {
        lemma_no_false_negatives(start, probes, shorter, at);
        assert(shorter[at] == values[at]);
    }
    assert(bits_after(start, probes, values) == before.union(probes(values.last())));
}

} // verus!
