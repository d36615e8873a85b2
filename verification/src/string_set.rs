//! A set of strings kept in a `hashbrown::HashSet`.

use vstd::prelude::*;

verus! {

/// A set of strings: a `hashbrown::HashSet<String, ahash::RandomState>`.
/// What it holds is `set_items`.
#[verifier::external_body]
pub struct StringSet {
    inner: hashbrown::HashSet<String, ahash::RandomState>,
}

/// The strings that the set holds.
pub uninterp spec fn set_items(set: StringSet) -> Set<Seq<char>>;

/// The most items for which a set reserves room before any is inserted. A
/// table for so many strings has a size that fits in `isize` where
/// pointers have 32 bits or more; a set that holds more grows as they come.
pub const RESERVE_LIMIT: usize = 16_777_216;

impl StringSet {
    /// `HashSet::with_hasher` on a fresh `RandomState`: an empty set.
    #[verifier::external_body]
    pub(crate) fn new() -> (set: Self)
        ensures
            set_items(set) == Set::<Seq<char>>::empty(),
    {
        StringSet { inner: hashbrown::HashSet::with_hasher(ahash::RandomState::new()) }
    }

    /// `HashSet::with_capacity_and_hasher` on a fresh `RandomState`: an empty
    /// set, whatever the capacity asked for. The call panics where the size
    /// of the table overflows, which a capacity within the limit rules out.
    #[verifier::external_body]
    pub(crate) fn with_capacity(capacity: usize) -> (set: Self)
        requires
            capacity <= RESERVE_LIMIT,
        ensures
            set_items(set) == Set::<Seq<char>>::empty(),
    {
        StringSet {
            inner: hashbrown::HashSet::with_capacity_and_hasher(capacity, ahash::RandomState::new()),
        }
    }

    /// An empty set with room for `capacity` items, or for `RESERVE_LIMIT`
    /// items if that is less.
    pub(crate) fn with_room(capacity: usize) -> (set: Self)
        ensures
            set_items(set) == Set::<Seq<char>>::empty(),
    {
        if capacity > RESERVE_LIMIT {
            StringSet::with_capacity(RESERVE_LIMIT)
        } else {
            StringSet::with_capacity(capacity)
        }
    }

    /// `HashSet::insert` of an owned copy of `item`: the set gains the item,
    /// and the result tells whether it was absent before.
    #[verifier::external_body]
    pub(crate) fn insert(&mut self, item: &str) -> (fresh: bool)
        ensures
            fresh == !set_items(*old(self)).contains(item@),
            set_items(*final(self)) == set_items(*old(self)).insert(item@),
    {
        self.inner.insert(item.to_string())
    }

    /// `HashSet::contains`: whether the set holds the item.
    #[verifier::external_body]
    pub(crate) fn contains(&self, item: &str) -> (found: bool)
        ensures
            found == set_items(*self).contains(item@),
    {
        self.inner.contains(item)
    }

    /// `HashSet::len`: the number of items held.
    #[verifier::external_body]
    pub(crate) fn len(&self) -> (n: usize)
        ensures
            n == set_items(*self).len(),
    {
        self.inner.len()
    }

    /// `HashSet::clear`: the set is empty afterwards.
    #[verifier::external_body]
    pub(crate) fn clear(&mut self)
        ensures
            set_items(*final(self)) == Set::<Seq<char>>::empty(),
    {
        self.inner.clear()
    }

    /// `HashSet::capacity`: how many items fit without reallocating. The
    /// number depends on the allocator, so nothing is claimed of it.
    #[verifier::external_body]
    pub(crate) fn capacity(&self) -> usize {
        self.inner.capacity()
    }
}

} // verus!
