//! A bounded cache of decompressed blocks.
//!
//! The read path is bound by decompression rather than by the device, so
//! what is worth keeping is a block after its codec has run. An image is
//! read-only, so an entry can never go stale and nothing is invalidated.

use std::num::NonZeroUsize;
use std::sync::Arc;

use vstd::prelude::*;

verus! {

/// What a block is found again by: where it stands, and how it is encoded
/// there.
pub type BlockKey = (u64, u64);

/// A block held: its key, its bytes, and where the next block starts.
pub type Entry = (BlockKey, Seq<u8>, u64);

/// The cache of the `lru` crate.
#[verifier::external_type_specification]
#[verifier::external_body]
#[verifier::reject_recursive_types(K)]
#[verifier::reject_recursive_types(V)]
#[verifier::reject_recursive_types(S)]
pub struct ExLruCache<K, V, S>(lru::LruCache<K, V, S>);

/// The hasher that `lru::LruCache` uses unless told otherwise.
#[verifier::external_type_specification]
#[verifier::external_body]
pub struct ExDefaultHasher(lru::DefaultHasher);

/// The entries of an `lru::LruCache`, the most recently used first.
pub uninterp spec fn lru_entries(
    lru: lru::LruCache<(u64, u64), (Arc<Vec<u8>>, u64)>,
) -> Seq<((u64, u64), Seq<u8>, u64)>;

/// How many entries an `lru::LruCache` was made to hold.
pub uninterp spec fn lru_capacity(lru: lru::LruCache<(u64, u64), (Arc<Vec<u8>>, u64)>) -> nat;

/// Where `key` stands among `entries`, their number where it does not.
pub open spec fn place(entries: Seq<Entry>, key: BlockKey) -> int
    decreases entries.len(),
{
    if entries.len() == 0 {
        0
    } else if entries[0].0 == key {
        0
    } else {
        1 + place(entries.drop_first(), key)
    }
}

/// `entries` with the one at `i` moved to the front.
pub open spec fn promoted(entries: Seq<Entry>, i: int) -> Seq<Entry> {
    seq![entries[i]] + entries.remove(i)
}

/// `entries` after `entry` was put in, `capacity` of them at most: it
/// replaces the one with its key, or else the least recently used one where
/// there is no room.
pub open spec fn with_entry(entries: Seq<Entry>, capacity: nat, entry: Entry) -> Seq<Entry> {
    let i = place(entries, entry.0);
    let kept = if i < entries.len() {
        entries.remove(i)
    } else if entries.len() == capacity {
        entries.drop_last()
    } else {
        entries
    };
    seq![entry] + kept
}

/// `lru::LruCache::new`: an empty cache that holds at most `capacity`
/// entries. Its table is allocated at once, so the capacity has to leave
/// room for it in memory.
#[verifier::external_body]
fn lru_new(capacity: usize) -> (r: Option<lru::LruCache<(u64, u64), (Arc<Vec<u8>>, u64)>>)
    requires
        capacity <= isize::MAX / 64,
    ensures
        match r {
            Some(lru) => {
                &&& capacity > 0
                &&& lru_entries(lru) == Seq::<Entry>::empty()
                &&& lru_capacity(lru) == capacity
            },
            None => capacity == 0,
        },
{
    NonZeroUsize::new(capacity).map(lru::LruCache::new)
}

/// `lru::LruCache::len`: how many entries are held.
#[verifier::external_body]
fn lru_len(lru: &lru::LruCache<(u64, u64), (Arc<Vec<u8>>, u64)>) -> (r: usize)
    ensures
        r == lru_entries(*lru).len(),
{
    lru.len()
}

/// `lru::LruCache::cap`: how many entries can be held.
#[verifier::external_body]
fn lru_cap(lru: &lru::LruCache<(u64, u64), (Arc<Vec<u8>>, u64)>) -> (r: usize)
    ensures
        r == lru_capacity(*lru),
{
    lru.cap().get()
}

/// `lru::LruCache::get`: the value of `key`, which becomes the most recently
/// used; nothing, and nothing moves, where the key is not held.
#[verifier::external_body]
fn lru_get(
    lru: &mut lru::LruCache<(u64, u64), (Arc<Vec<u8>>, u64)>,
    key: (u64, u64),
) -> (r: Option<(Arc<Vec<u8>>, u64)>)
    ensures
        lru_capacity(*final(lru)) == lru_capacity(*old(lru)),
        ({
            let entries = lru_entries(*old(lru));
            let i = place(entries, key);
            match r {
                Some((bytes, next)) => {
                    &&& i < entries.len()
                    &&& entries[i] == (key, bytes@, next)
                    &&& lru_entries(*final(lru)) == promoted(entries, i)
                },
                None => i == entries.len() && lru_entries(*final(lru)) == entries,
            }
        }),
{
    lru.get(&key).map(|v| (v.0.clone(), v.1))
}

/// `lru::LruCache::put`: `value` under `key` becomes the most recently used
/// entry, in place of the one with that key or, in a full cache, of the
/// least recently used one.
#[verifier::external_body]
fn lru_put(
    lru: &mut lru::LruCache<(u64, u64), (Arc<Vec<u8>>, u64)>,
    key: (u64, u64),
    value: (Arc<Vec<u8>>, u64),
)
    ensures
        lru_capacity(*final(lru)) == lru_capacity(*old(lru)),
        lru_entries(*final(lru)) == with_entry(
            lru_entries(*old(lru)),
            lru_capacity(*old(lru)),
            (key, value.0@, value.1),
        ),
{
    lru.put(key, value);
}

/// What a [`BlockCache`] holds and has counted.
#[verifier::ext_equal]
pub struct CacheState {
    /// How many blocks it can hold; zero switches it off.
    pub capacity: nat,
    /// The blocks it holds, the most recently used first.
    pub entries: Seq<Entry>,
    /// How often a block was found.
    pub hits: u64,
    /// How often a block was looked for in vain.
    pub misses: u64,
}

impl CacheState {
    /// An empty cache.
    pub open spec fn empty(capacity: nat) -> CacheState {
        CacheState { capacity, entries: Seq::empty(), hits: 0, misses: 0 }
    }

    /// Whether `key` is held.
    pub open spec fn holds(self, key: BlockKey) -> bool {
        place(self.entries, key) < self.entries.len()
    }

    /// What is held under `key`.
    pub open spec fn held(self, key: BlockKey) -> Entry {
        self.entries[place(self.entries, key)]
    }

    /// The cache after `key` was looked for. A cache that is switched off
    /// counts nothing.
    pub open spec fn after_lookup(self, key: BlockKey) -> CacheState {
        if self.capacity == 0 {
            self
        } else if self.holds(key) {
            CacheState {
                entries: promoted(self.entries, place(self.entries, key)),
                hits: self.hits.wrapping_add(1),
                ..self
            }
        } else {
            CacheState { misses: self.misses.wrapping_add(1), ..self }
        }
    }

    /// The cache after `entry` was put in.
    pub open spec fn after_insert(self, entry: Entry) -> CacheState {
        if self.capacity == 0 {
            self
        } else {
            CacheState { entries: with_entry(self.entries, self.capacity, entry), ..self }
        }
    }
}

/// An LRU cache of decompressed blocks, with counters.
pub struct BlockCache {
    lru: Option<lru::LruCache<(u64, u64), (Arc<Vec<u8>>, u64)>>,
    hits: u64,
    misses: u64,
}

impl View for BlockCache {
    type V = CacheState;

    closed spec fn view(&self) -> CacheState {
        CacheState {
            capacity: match self.lru {
                Some(lru) => lru_capacity(lru),
                None => 0,
            },
            entries: match self.lru {
                Some(lru) => lru_entries(lru),
                None => Seq::empty(),
            },
            hits: self.hits,
            misses: self.misses,
        }
    }
}

impl BlockCache {
    /// A switched-off cache holds nothing, any other no more than it can.
    pub closed spec fn wf(&self) -> bool {
        self.lru matches Some(lru) ==> 0 < lru_capacity(lru) && lru_entries(lru).len()
            <= lru_capacity(lru)
    }

    /// A cache of at most `capacity` blocks. Zero switches it off.
    pub fn new(capacity: usize) -> (r: BlockCache)
        requires
            capacity <= isize::MAX / 64,
        ensures
            r.wf(),
            r@ == CacheState::empty(capacity as nat),
    {
        BlockCache { lru: lru_new(capacity), hits: 0, misses: 0 }
    }

    /// Resizes the cache. What it held is dropped and the counters start
    /// again: a hit rate over two capacities describes neither.
    pub fn set_capacity(&mut self, capacity: usize)
        requires
            capacity <= isize::MAX / 64,
        ensures
            final(self).wf(),
            final(self)@ == CacheState::empty(capacity as nat),
    {
        self.lru = lru_new(capacity);
        self.hits = 0;
        self.misses = 0;
    }

    /// `(entries, capacity, hits, misses)`.
    pub fn stats(&self) -> (r: (usize, usize, u64, u64))
        ensures
            r.0 == self@.entries.len(),
            r.1 == self@.capacity,
            r.2 == self@.hits,
            r.3 == self@.misses,
    {
        match &self.lru {
            Some(lru) => (lru_len(lru), lru_cap(lru), self.hits, self.misses),
            None => (0, 0, self.hits, self.misses),
        }
    }

    /// The block under `key`, if it is held.
    pub fn get(&mut self, key: BlockKey) -> (r: Option<(Arc<Vec<u8>>, u64)>)
        requires
            old(self).wf(),
        ensures
            final(self).wf(),
            final(self)@ == old(self)@.after_lookup(key),
            match r {
                Some((bytes, next)) => {
                    &&& old(self)@.holds(key)
                    &&& old(self)@.held(key) == (key, bytes@, next)
                },
                None => !old(self)@.holds(key),
            },
    {
        proof {
            lemma_place(self@.entries, key);
        }
        match &mut self.lru {
            Some(lru) => {
                let hit: Option<(Arc<Vec<u8>>, u64)> = lru_get(lru, key);
                if hit.is_some() {
                    self.hits = self.hits.wrapping_add(1);
                } else {
                    self.misses = self.misses.wrapping_add(1);
                }
                hit
            },
            None => None,
        }
    }

    /// Puts a block in.
    pub fn insert(&mut self, key: BlockKey, bytes: Arc<Vec<u8>>, next: u64)
        requires
            old(self).wf(),
        ensures
            final(self).wf(),
            final(self)@ == old(self)@.after_insert((key, bytes@, next)),
    {
        proof {
            lemma_place(self@.entries, key);
        }
        match &mut self.lru {
            Some(lru) => lru_put(lru, key, (bytes, next)),
            None => {},
        }
    }
}

/// A key stands where its place says, or nowhere.
pub proof fn lemma_place(entries: Seq<Entry>, key: BlockKey)
    ensures
        0 <= place(entries, key) <= entries.len(),
        place(entries, key) < entries.len() ==> entries[place(entries, key)].0 == key,
        forall|i: int| 0 <= i < place(entries, key) ==> #[trigger] entries[i].0 != key,
    decreases entries.len(),
{
    if entries.len() > 0 && entries[0].0 != key {
        lemma_place(entries.drop_first(), key);
        assert forall|i: int| 0 <= i < place(entries, key) implies #[trigger] entries[i].0
            != key by {
            if i > 0 {
                assert(entries.drop_first()[i - 1] == entries[i]);
            }
        }
    }
}

/// A cache in order holds no more blocks than it was made for.
pub proof fn cache_is_within_capacity(cache: &BlockCache)
    requires
        cache.wf(),
    ensures
        cache@.entries.len() <= cache@.capacity,
{
}

/// No step makes a cache hold more blocks than it was made for.
pub proof fn cache_stays_within_capacity(state: CacheState, entry: Entry)
    requires
        state.entries.len() <= state.capacity,
    ensures
        state.after_insert(entry).entries.len() <= state.capacity,
        state.after_lookup(entry.0).entries.len() <= state.capacity,
{
    lemma_place(state.entries, entry.0);
}

/// What was put in last is found next, as it was put in.
pub proof fn cache_finds_what_was_put_in(state: CacheState, entry: Entry)
    requires
        state.capacity > 0,
    ensures
        state.after_insert(entry).holds(entry.0),
        state.after_insert(entry).held(entry.0) == entry,
{
    lemma_place(state.entries, entry.0);
    assert(state.after_insert(entry).entries[0] == entry);
}

/// What was looked for and put in where it was missing is found by the next
/// lookup, which counts one more hit and no miss, and changes nothing else. A
/// cache that is switched off stays as it is.
pub proof fn second_lookup_is_a_hit(state: CacheState, entry: Entry)
    ensures
        ({
            let looked = state.after_lookup(entry.0);
            let first = if state.holds(entry.0) {
                looked
            } else {
                looked.after_insert(entry)
            };
            let second = first.after_lookup(entry.0);
            &&& state.capacity == 0 && state.entries.len() == 0 ==> first == state && second
                == state
            &&& state.capacity > 0 ==> {
                &&& first.holds(entry.0)
                &&& second.hits == first.hits.wrapping_add(1)
                &&& second.misses == first.misses
                &&& second.entries == first.entries
            }
        }),
{
    lemma_place(state.entries, entry.0);
    let looked = state.after_lookup(entry.0);
    let first = if state.holds(entry.0) {
        looked
    } else {
        looked.after_insert(entry)
    };
    if state.capacity > 0 {
        assert(first.entries[0].0 == entry.0);
        assert(place(first.entries, entry.0) == 0);
        assert(promoted(first.entries, 0) =~= first.entries);
    }
}

/// A block is held where one of the entries has its key.
pub proof fn held_blocks_are_among_the_entries(state: CacheState, key: BlockKey, i: int)
    requires
        0 <= i < state.entries.len(),
        state.entries[i].0 == key,
    ensures
        state.holds(key),
        state.held(key).0 == key,
{
    lemma_place(state.entries, key);
}

/// A lookup counts one hit or one miss, never both. What it finds becomes the
/// most recently used block, and all others stay in their order; where it
/// finds nothing the blocks stay as they are. A cache that is switched off
/// counts nothing.
pub proof fn lookups_are_counted(state: CacheState, key: BlockKey)
    ensures
        ({
            let after = state.after_lookup(key);
            let n = state.entries.len();
            &&& after.capacity == state.capacity
            &&& state.capacity == 0 ==> after == state
            &&& state.capacity > 0 && (forall|i: int|
                0 <= i < n ==> (#[trigger] state.entries[i]).0 != key) ==> {
                &&& after.hits == state.hits
                &&& state.misses < u64::MAX ==> after.misses == state.misses + 1
                &&& after.entries == state.entries
            }
            &&& forall|i: int|
                state.capacity > 0 && 0 <= i < n && (#[trigger] state.entries[i]).0 == key && (
                forall|k: int| 0 <= k < i ==> (#[trigger] state.entries[k]).0 != key) ==> {
                    &&& state.hits < u64::MAX ==> after.hits == state.hits + 1
                    &&& after.misses == state.misses
                    &&& after.entries.len() == n
                    &&& after.entries[0] == state.entries[i]
                    &&& forall|k: int|
                        0 <= k < i ==> after.entries[k + 1] == #[trigger] state.entries[k]
                    &&& forall|k: int|
                        i < k < n ==> after.entries[k] == #[trigger] state.entries[k]
                }
        }),
{
    lemma_place(state.entries, key);
    let at = place(state.entries, key);
    assert forall|i: int|
        state.capacity > 0 && 0 <= i < state.entries.len() && (#[trigger] state.entries[i]).0 == key
            && (forall|k: int| 0 <= k < i ==> (#[trigger] state.entries[k]).0 != key) implies at
        == i by {
        if at < i {
            assert(state.entries[at].0 != key);
        }
    }
}

/// A block that is put in becomes the most recently used one. The others stay
/// in their order; where the cache is full, the least recently used of them
/// goes, and no other.
pub proof fn the_least_recently_used_block_goes(state: CacheState, entry: Entry)
    requires
        state.capacity > 0,
        state.entries.len() <= state.capacity,
        forall|i: int| 0 <= i < state.entries.len() ==> (#[trigger] state.entries[i]).0 != entry.0,
    ensures
        ({
            let after = state.after_insert(entry);
            let n = state.entries.len();
            &&& after.hits == state.hits && after.misses == state.misses
            &&& after.capacity == state.capacity
            &&& after.entries.len() == (if n < state.capacity {
                n + 1
            } else {
                n
            })
            &&& after.entries[0] == entry
            &&& forall|k: int|
                1 <= k < after.entries.len() ==> #[trigger] after.entries[k] == state.entries[k - 1]
        }),
{
    lemma_place(state.entries, entry.0);
}

/// A block that is put in again replaces the one that was held, and no block
/// goes for it.
pub proof fn blocks_are_replaced_by_their_key(state: CacheState, entry: Entry, i: int)
    requires
        state.capacity > 0,
        0 <= i < state.entries.len(),
        state.entries[i].0 == entry.0,
        forall|k: int| 0 <= k < i ==> (#[trigger] state.entries[k]).0 != entry.0,
    ensures
        ({
            let after = state.after_insert(entry);
            &&& after.entries.len() == state.entries.len()
            &&& after.entries[0] == entry
            &&& forall|k: int|
                0 <= k < i ==> after.entries[k + 1] == #[trigger] state.entries[k]
            &&& forall|k: int|
                i < k < state.entries.len() ==> after.entries[k] == #[trigger] state.entries[k]
        }),
{
    lemma_place(state.entries, entry.0);
    let at = place(state.entries, entry.0);
    if at < i {
        assert(state.entries[at].0 != entry.0);
    }
}

/// Whether `p` holds of every entry.
pub open spec fn all_entries(state: CacheState, p: spec_fn(Entry) -> bool) -> bool {
    forall|i: int| 0 <= i < state.entries.len() ==> p(#[trigger] state.entries[i])
}

/// What holds of every entry still does after a lookup, and after one more
/// entry of which it holds was put in.
pub proof fn cache_keeps_what_all_entries_satisfy(
    state: CacheState,
    p: spec_fn(Entry) -> bool,
    entry: Entry,
)
    requires
        all_entries(state, p),
    ensures
        all_entries(state.after_lookup(entry.0), p),
        p(entry) ==> all_entries(state.after_insert(entry), p),
{
    lemma_place(state.entries, entry.0);
    let at = place(state.entries, entry.0);
    let looked = state.after_lookup(entry.0);
    assert forall|i: int| 0 <= i < looked.entries.len() implies p(#[trigger] looked.entries[i]) by {
        if state.capacity > 0 && state.holds(entry.0) {
            let source = if i == 0 {
                at
            } else if i <= at {
                i - 1
            } else {
                i
            };
            assert(looked.entries[i] == state.entries[source]);
        }
    }
    let grown = state.after_insert(entry);
    assert forall|i: int| p(entry) && 0 <= i < grown.entries.len() implies p(
        #[trigger] grown.entries[i],
    ) by {
        if state.capacity > 0 && i > 0 {
            let source = if at < state.entries.len() && i > at {
                i
            } else {
                i - 1
            };
            assert(grown.entries[i] == state.entries[source]);
        }
    }
}

} // verus!
