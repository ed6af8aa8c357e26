//! Transposition table of the domino search: one entry per bucket, the
//! bucket chosen by the low bits of the position's hash.
use vstd::prelude::*;
use crate::bitboard::Side;

verus! {

/// What the stored score says of the true score.
#[derive(Debug, Clone, Copy, PartialEq, Eq, Structural)]
pub enum TTFlag {
    /// The score is exact.
    Exact,
    /// The true score is at least the stored one.
    Lower,
    /// The true score is at most the stored one.
    Upper,
}

/// One stored search result.
#[derive(Debug, Clone, Copy, PartialEq, Eq, Structural)]
pub struct TTEntry {
    /// Full hash of the position, to tell bucket collisions apart.
    pub key: u64,
    /// Best move found, or 255 when there was none.
    pub best_move: u8,
    /// Depth of the search; 0 marks an empty bucket.
    pub depth: u8,
    pub flag: TTFlag,
    /// Search generation that stored the entry.
    pub age: u8,
    pub score: i16,
    /// The position a search stored the entry for: board, side to move and
    /// ply below the root; none for an entry stored by key alone.
    pub position: Option<Placement>,
}

/// A position as a search meets it: board, side to move, ply below the
/// root.
#[derive(Debug, Clone, Copy, PartialEq, Eq, Structural)]
pub struct Placement {
    pub occupied: u64,
    pub side: Side,
    pub ply: u32,
}

/// The entry of an empty bucket.
pub open spec fn empty_entry() -> TTEntry {
    TTEntry { key: 0, best_move: 255, depth: 0, flag: TTFlag::Exact, age: 0, score: 0, position: None }
}

impl Default for TTEntry {
    fn default() -> (r: TTEntry)
        ensures
            r == empty_entry(),
    {
        TTEntry {
            key: 0,
            best_move: 255,
            depth: 0,
            flag: TTFlag::Exact,
            age: 0,
            score: 0,
            position: None,
        }
    }
}

/// `n` is a power of two.
pub open spec fn is_power_of_two(n: nat) -> bool
    decreases n,
{
    if n <= 1 {
        n == 1
    } else {
        n % 2 == 0 && is_power_of_two(n / 2)
    }
}

/// Bucket of `key` in a table of `len` buckets: the low bits of the key.
pub open spec fn bucket(key: u64, len: nat) -> int {
    (key & ((len - 1) as u64)) as int
}

/// A new entry goes into a bucket holding `existing` when the bucket is
/// empty, when the entry comes from another search generation, or when it
/// is at least as deep.
pub open spec fn replaces(existing: TTEntry, depth: u8, age: u8) -> bool {
    existing.depth == 0 || existing.age != age || depth >= existing.depth
}

/// The entry that a store writes.
pub open spec fn new_entry(
    key: u64,
    best_move: Option<u8>,
    depth: u8,
    flag: TTFlag,
    score: i16,
    age: u8,
) -> TTEntry {
    TTEntry {
        key,
        best_move: match best_move {
            Some(m) => m,
            None => 255,
        },
        depth,
        flag,
        age,
        score,
        position: None,
    }
}

/// The buckets after `e` is offered to the bucket of its key.
pub open spec fn put(slots: Seq<TTEntry>, e: TTEntry) -> Seq<TTEntry> {
    let b = bucket(e.key, slots.len());
    if replaces(slots[b], e.depth, e.age) {
        slots.update(b, e)
    } else {
        slots
    }
}

/// The buckets after a store into `slots`.
pub open spec fn stored(
    slots: Seq<TTEntry>,
    key: u64,
    best_move: Option<u8>,
    depth: u8,
    flag: TTFlag,
    score: i16,
    age: u8,
) -> Seq<TTEntry> {
    let b = bucket(key, slots.len());
    if replaces(slots[b], depth, age) {
        slots.update(b, new_entry(key, best_move, depth, flag, score, age))
    } else {
        slots
    }
}

/// What a probe of `key` finds in `slots`: the bucket's entry when it holds
/// this very key and is not empty.
pub open spec fn lookup(slots: Seq<TTEntry>, key: u64) -> Option<TTEntry> {
    let e = slots[bucket(key, slots.len())];
    if e.key == key && e.depth > 0 {
        Some(e)
    } else {
        None
    }
}

/// Every key falls in a bucket of the table.
pub proof fn lemma_bucket_in_range(key: u64, len: nat)
    requires
        1 <= len <= u64::MAX,
    ensures
        0 <= bucket(key, len) < len,
{
    let m = (len - 1) as u64;
    assert(key & m <= m) by (bit_vector);
}

/// Storing under one key and generation at some depth and then at an equal
/// or greater depth leaves the second entry to be found, whenever the first
/// store was taken.
pub proof fn lemma_deeper_store_kept(
    slots: Seq<TTEntry>,
    key: u64,
    move1: Option<u8>,
    depth1: u8,
    flag1: TTFlag,
    score1: i16,
    move2: Option<u8>,
    depth2: u8,
    flag2: TTFlag,
    score2: i16,
    age: u8,
)
    requires
        1 <= slots.len() <= u64::MAX,
        replaces(slots[bucket(key, slots.len())], depth1, age),
        0 < depth1 <= depth2,
    ensures
        lookup(
            stored(
                stored(slots, key, move1, depth1, flag1, score1, age),
                key,
                move2,
                depth2,
                flag2,
                score2,
                age,
            ),
            key,
        ) == Some(new_entry(key, move2, depth2, flag2, score2, age)),
{
    lemma_bucket_in_range(key, slots.len());
}

/// A store from another search generation always replaces the bucket's
/// entry, whatever the depths.
pub proof fn lemma_new_generation_replaces(
    slots: Seq<TTEntry>,
    key: u64,
    best_move: Option<u8>,
    depth: u8,
    flag: TTFlag,
    score: i16,
    age: u8,
)
    requires
        1 <= slots.len() <= u64::MAX,
        slots[bucket(key, slots.len())].age != age,
    ensures
        stored(slots, key, best_move, depth, flag, score, age)[bucket(key, slots.len())]
            == new_entry(key, best_move, depth, flag, score, age),
{
    lemma_bucket_in_range(key, slots.len());
}

/// An empty bucket always takes a store.
pub proof fn lemma_empty_bucket_accepts(
    slots: Seq<TTEntry>,
    key: u64,
    best_move: Option<u8>,
    depth: u8,
    flag: TTFlag,
    score: i16,
    age: u8,
)
    requires
        1 <= slots.len() <= u64::MAX,
        slots[bucket(key, slots.len())].depth == 0,
    ensures
        stored(slots, key, best_move, depth, flag, score, age)[bucket(key, slots.len())]
            == new_entry(key, best_move, depth, flag, score, age),
{
    lemma_bucket_in_range(key, slots.len());
}

/// Fixed-capacity cache of search results, with probe statistics.
pub struct TranspositionTable {
    entries: Vec<TTEntry>,
    mask: usize,
    hits: u64,
    probes: u64,
}

/// Largest number of buckets a table is made with.
pub const MAX_TT_SIZE: usize = 0x4000_0000;

/// The requested size, capped at `MAX_TT_SIZE`.
pub open spec fn capped_size(size: usize) -> int {
    if size > MAX_TT_SIZE {
        MAX_TT_SIZE as int
    } else {
        size as int
    }
}

impl TranspositionTable {
    /// The buckets.
    pub closed spec fn slots(&self) -> Seq<TTEntry> {
        self.entries@
    }

    /// Number of probes that found an entry since the last reset.
    pub closed spec fn hit_count(&self) -> u64 {
        self.hits
    }

    /// Number of probes since the last reset.
    pub closed spec fn probe_count(&self) -> u64 {
        self.probes
    }

    pub closed spec fn wf(&self) -> bool {
        &&& self.entries@.len() == self.mask + 1
        &&& self.mask < 2 * MAX_TT_SIZE
        &&& is_power_of_two(self.entries@.len())
    }

    /// A table with the least power of two of buckets that is at least
    /// `size`, all empty; sizes above `MAX_TT_SIZE` are taken as
    /// `MAX_TT_SIZE`, to bound memory.
    pub fn new(size: usize) -> (r: Self)
        ensures
            r.wf(),
            is_power_of_two(r.slots().len()),
            r.slots().len() >= capped_size(size),
            r.slots().len() == 1 || r.slots().len() / 2 < capped_size(size),
            forall|i: int| 0 <= i < r.slots().len() ==> r.slots()[i] == empty_entry(),
            r.hit_count() == 0,
            r.probe_count() == 0,
    {
        let size = if size > MAX_TT_SIZE {
            MAX_TT_SIZE
        } else {
            size
        };
        let mut n: usize = 1;
        while n < size
            invariant
                1 <= n <= 2 * MAX_TT_SIZE,
                size <= MAX_TT_SIZE,
                is_power_of_two(n as nat),
                n == 1 || n / 2 < size,
            decreases 2 * MAX_TT_SIZE - n,
        {
            assert(is_power_of_two((n * 2) as nat)) by {
                assert((n * 2) as nat / 2 == n);
            }
            n = n * 2;
        }
        let mut entries: Vec<TTEntry> = Vec::with_capacity(n);
        let mut i: usize = 0;
        while i < n
            invariant
                i <= n,
                entries@.len() == i,
                forall|j: int| 0 <= j < i ==> entries@[j] == empty_entry(),
            decreases n - i,
        {
            entries.push(TTEntry::default());
            i = i + 1;
        }
        TranspositionTable { entries, mask: n - 1, hits: 0, probes: 0 }
    }

    /// Empties every bucket and resets the statistics.
    pub fn clear(&mut self)
        requires
            old(self).wf(),
        ensures
            final(self).wf(),
            final(self).slots().len() == old(self).slots().len(),
            forall|i: int|
                0 <= i < final(self).slots().len() ==> final(self).slots()[i] == empty_entry(),
            final(self).hit_count() == 0,
            final(self).probe_count() == 0,
    {
        let n = self.entries.len();
        let mut i: usize = 0;
        while i < n
            invariant
                i <= n,
                n == self.entries@.len(),
                self.mask == old(self).mask,
                n == old(self).entries@.len(),
                forall|j: int| 0 <= j < i ==> self.entries@[j] == empty_entry(),
            decreases n - i,
        {
            self.entries.set(i, TTEntry::default());
            i = i + 1;
        }
        self.hits = 0;
        self.probes = 0;
    }

    /// Resets the statistics.
    pub fn reset_stats(&mut self)
        requires
            old(self).wf(),
        ensures
            final(self).wf(),
            final(self).slots() == old(self).slots(),
            final(self).hit_count() == 0,
            final(self).probe_count() == 0,
    {
        self.hits = 0;
        self.probes = 0;
    }

    pub fn hits(&self) -> (r: u64)
        ensures
            r == self.hit_count(),
    {
        self.hits
    }

    pub fn probes(&self) -> (r: u64)
        ensures
            r == self.probe_count(),
    {
        self.probes
    }

    fn index(&self, key: u64) -> (r: usize)
        requires
            self.wf(),
        ensures
            r == bucket(key, self.slots().len()),
            r < self.slots().len(),
    {
        let m = self.mask as u64;
        assert(key & m <= m) by (bit_vector);
        (key & m) as usize
    }

    /// Looks `key` up; a copy of the entry comes back. Counts the probe, and
    /// the hit when there is one (both counters saturate).
    pub fn probe(&mut self, key: u64) -> (r: Option<TTEntry>)
        requires
            old(self).wf(),
        ensures
            final(self).wf(),
            final(self).slots() == old(self).slots(),
            r == lookup(old(self).slots(), key),
            final(self).probe_count() == if old(self).probe_count() == u64::MAX {
                u64::MAX as int
            } else {
                old(self).probe_count() + 1
            },
            final(self).hit_count() == if r is None || old(self).hit_count() == u64::MAX {
                old(self).hit_count() as int
            } else {
                old(self).hit_count() + 1
            },
    {
        self.probes = self.probes.saturating_add(1);
        let index = self.index(key);
        let entry = self.entries[index];
        if entry.key == key && entry.depth > 0 {
            self.hits = self.hits.saturating_add(1);
            Some(entry)
        } else {
            None
        }
    }

    /// Stores a result under `key`, following `replaces`.
    pub fn store(
        &mut self,
        key: u64,
        best_move: Option<u8>,
        depth: u8,
        flag: TTFlag,
        score: i16,
        age: u8,
    )
        requires
            old(self).wf(),
        ensures
            final(self).wf(),
            final(self).slots() == stored(old(self).slots(), key, best_move, depth, flag, score, age),
            final(self).hit_count() == old(self).hit_count(),
            final(self).probe_count() == old(self).probe_count(),
    {
        let index = self.index(key);
        let existing = self.entries[index];
        let should_replace = existing.depth == 0 || existing.age != age || depth >= existing.depth;
        if should_replace {
            let bm = match best_move {
                Some(m) => m,
                None => 255,
            };
            self.entries.set(index, TTEntry { key, best_move: bm, depth, flag, age, score, position: None });
        }
    }

    /// Offers `e`, a search result for the position in `e.position`, to the
    /// bucket of its key, following `replaces`.
    pub fn store_entry(&mut self, e: TTEntry)
        requires
            old(self).wf(),
        ensures
            final(self).wf(),
            final(self).slots() == put(old(self).slots(), e),
            final(self).slots().len() == old(self).slots().len(),
            forall|i: int|
                0 <= i < final(self).slots().len() ==> #[trigger] final(self).slots()[i] == old(
                    self,
                ).slots()[i] || final(self).slots()[i] == e,
            final(self).hit_count() == old(self).hit_count(),
            final(self).probe_count() == old(self).probe_count(),
    {
        let index = self.index(e.key);
        let existing = self.entries[index];
        if existing.depth == 0 || existing.age != e.age || e.depth >= existing.depth {
            self.entries.set(index, e);
        }
    }

    /// Looks up the entry a search stored under `key` for this very
    /// position (board, side, ply) and depth; counts the probe, and the hit
    /// when there is one (both counters saturate).
    pub fn probe_position(&mut self, key: u64, occupied: u64, side: Side, ply: u32, depth: u32) -> (r:
        Option<TTEntry>)
        requires
            old(self).wf(),
        ensures
            final(self).wf(),
            final(self).slots() == old(self).slots(),
            r == ({
                let e = old(self).slots()[bucket(key, old(self).slots().len())];
                if e.key == key && e.depth > 0 && e.depth == depth && e.position == Some(
                    Placement { occupied, side, ply },
                ) {
                    Some(e)
                } else {
                    None::<TTEntry>
                }
            }),
            0 <= bucket(key, old(self).slots().len()) < old(self).slots().len(),
    {
        self.probes = self.probes.saturating_add(1);
        let index = self.index(key);
        let e = self.entries[index];
        let same = match e.position {
            Some(p) => p == Placement { occupied, side, ply },
            None => false,
        };
        if e.key == key && e.depth > 0 && e.depth as u32 == depth && same {
            self.hits = self.hits.saturating_add(1);
            Some(e)
        } else {
            None
        }
    }

    /// The best move stored under `key`, if any.
    pub fn get_tt_move(&self, key: u64) -> (r: Option<u8>)
        requires
            self.wf(),
        ensures
            ({
                let e = self.slots()[bucket(key, self.slots().len())];
                r == if e.key == key && e.best_move != 255 {
                    Some(e.best_move)
                } else {
                    None::<u8>
                }
            }),
    {
        let index = self.index(key);
        let entry = self.entries[index];
        if entry.key == key && entry.best_move != 255 {
            Some(entry.best_move)
        } else {
            None
        }
    }
}

} // verus!
