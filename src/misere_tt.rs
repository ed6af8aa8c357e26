//! Transposition table of the misere search: one entry per bucket, chosen
//! by the low bits of the hash; a bucket whose key is 0 counts as empty.
use vstd::prelude::*;
use crate::domino_tt::{bucket, is_power_of_two, lemma_bucket_in_range};
use crate::occupancy::Occupancy;

verus! {

/// One stored search result. `flag` is 0 for an exact score, 1 for a lower
/// bound and 2 for an upper bound.
#[derive(Clone, Copy, Debug)]
pub struct TTEntry {
    pub key: u64,
    pub depth: u8,
    pub score: i32,
    pub flag: u8,
    pub best_move: u16,
    pub age: u8,
    /// The position a search stored the entry for; none for an entry
    /// stored by key alone.
    pub position: Option<Spot>,
}

/// A position as a search meets it: board, side to move, ply below the
/// root.
#[derive(Clone, Copy, Debug, PartialEq, Eq, Structural)]
pub struct Spot {
    pub occ: Occupancy,
    pub side: u8,
    pub ply: i32,
}

/// The entry of an empty bucket.
pub open spec fn blank_entry() -> TTEntry {
    TTEntry { key: 0, depth: 0, score: 0, flag: 0, best_move: 0, age: 0, position: None }
}

/// A new entry goes into a bucket holding `cur` when the bucket is empty,
/// when the entry is at least as deep, or when it comes from another search
/// generation.
pub open spec fn takes(cur: TTEntry, entry: TTEntry) -> bool {
    cur.key == 0 || entry.depth >= cur.depth || entry.age != cur.age
}

/// The buckets after storing `entry`.
pub open spec fn stored_entry(slots: Seq<TTEntry>, entry: TTEntry) -> Seq<TTEntry> {
    let b = bucket(entry.key, slots.len());
    if takes(slots[b], entry) {
        slots.update(b, entry)
    } else {
        slots
    }
}

/// The entry stored for `key` in `slots`, if its bucket holds that key.
pub open spec fn find(slots: Seq<TTEntry>, key: u64) -> Option<TTEntry> {
    let e = slots[bucket(key, slots.len())];
    if e.key == key {
        Some(e)
    } else {
        None
    }
}

pub struct TranspositionTable {
    entries: Vec<TTEntry>,
    mask: usize,
}

impl TranspositionTable {
    pub closed spec fn slots(&self) -> Seq<TTEntry> {
        self.entries@
    }

    pub closed spec fn wf(&self) -> bool {
        &&& self.entries@.len() == self.mask + 1
        &&& self.mask < u64::MAX
    }

    /// A table of `size` empty buckets.
    pub fn new(size: usize) -> (r: Self)
        requires
            is_power_of_two(size as nat),
        ensures
            r.wf(),
            r.slots().len() == size,
            forall|i: int| 0 <= i < size ==> r.slots()[i] == blank_entry(),
    {
        let mut entries: Vec<TTEntry> = Vec::with_capacity(size);
        let mut i: usize = 0;
        while i < size
            invariant
                i <= size,
                entries@.len() == i,
                forall|j: int| 0 <= j < i ==> entries@[j] == blank_entry(),
            decreases size - i,
        {
            entries.push(TTEntry { key: 0, depth: 0, score: 0, flag: 0, best_move: 0, age: 0, position: None });
            i = i + 1;
        }
        TranspositionTable { entries, mask: size - 1 }
    }

    /// Empties every bucket.
    pub fn clear(&mut self)
        requires
            old(self).wf(),
        ensures
            final(self).wf(),
            final(self).slots().len() == old(self).slots().len(),
            forall|i: int| 0 <= i < final(self).slots().len() ==> final(self).slots()[i] == blank_entry(),
    {
        let n = self.entries.len();
        let mut i: usize = 0;
        while i < n
            invariant
                i <= n,
                n == self.entries@.len(),
                self.mask == old(self).mask,
                n == old(self).entries@.len(),
                forall|j: int| 0 <= j < i ==> self.entries@[j] == blank_entry(),
            decreases n - i,
        {
            self.entries.set(i, TTEntry { key: 0, depth: 0, score: 0, flag: 0, best_move: 0, age: 0, position: None });
            i = i + 1;
        }
    }

    fn index(&self, key: u64) -> (r: usize)
        requires
            self.wf(),
        ensures
            r == bucket(key, self.slots().len()),
            r < self.slots().len(),
    {
        let m = self.mask as u64;
        assert(key & m <= m) by (bit_vector);
        (key & m) as usize
    }

    /// A copy of the entry stored for `key`: the entry of its bucket when it
    /// holds this very key (entries of other keys in the bucket are not
    /// returned).
    pub fn probe(&self, key: u64) -> (r: Option<TTEntry>)
        requires
            self.wf(),
        ensures
            0 <= bucket(key, self.slots().len()) < self.slots().len(),
            r == find(self.slots(), key),
    {
        let i = self.index(key);
        let e = self.entries[i];
        if e.key == key {
            Some(e)
        } else {
            None
        }
    }

    /// The entry a search stored under `key` for this very position and
    /// depth, if the bucket holds it.
    pub fn probe_position(&self, key: u64, occ: Occupancy, side: u8, ply: i32, depth: i32) -> (r:
        Option<TTEntry>)
        requires
            self.wf(),
        ensures
            0 <= bucket(key, self.slots().len()) < self.slots().len(),
            r == ({
                let e = self.slots()[bucket(key, self.slots().len())];
                if e.key == key && e.depth as int == depth && e.position == Some(
                    Spot { occ, side, ply },
                ) {
                    Some(e)
                } else {
                    None::<TTEntry>
                }
            }),
    {
        let i = self.index(key);
        let e = self.entries[i];
        let same = match e.position {
            Some(p) => p == Spot { occ, side, ply },
            None => false,
        };
        if e.key == key && e.depth as i32 == depth && same {
            Some(e)
        } else {
            None
        }
    }

    /// Stores `entry` in the bucket of its key, following `takes`.
    pub fn store(&mut self, entry: TTEntry)
        requires
            old(self).wf(),
        ensures
            final(self).wf(),
            final(self).slots() == stored_entry(old(self).slots(), entry),
            final(self).slots().len() == old(self).slots().len(),
            forall|i: int|
                0 <= i < final(self).slots().len() ==> #[trigger] final(self).slots()[i] == old(
                    self,
                ).slots()[i] || final(self).slots()[i] == entry,
    {
        let idx = self.index(entry.key);
        let cur = self.entries[idx];
        if cur.key == 0 || entry.depth >= cur.depth || entry.age != cur.age {
            self.entries.set(idx, entry);
        }
    }
}

/// Storing an entry and then one of the same key and generation that is at
/// least as deep leaves the second in the bucket, whenever the first store
/// was taken.
pub proof fn lemma_deeper_entry_kept(slots: Seq<TTEntry>, first: TTEntry, second: TTEntry)
    requires
        1 <= slots.len() <= u64::MAX,
        takes(slots[bucket(first.key, slots.len())], first),
        second.key == first.key,
        second.age == first.age,
        second.depth >= first.depth,
    ensures
        stored_entry(stored_entry(slots, first), second)[bucket(first.key, slots.len())] == second,
{
    lemma_bucket_in_range(first.key, slots.len());
}

/// An entry of another search generation, or one stored into an empty
/// bucket, always goes in.
pub proof fn lemma_entry_taken(slots: Seq<TTEntry>, entry: TTEntry)
    requires
        1 <= slots.len() <= u64::MAX,
        slots[bucket(entry.key, slots.len())].key == 0 || slots[bucket(
            entry.key,
            slots.len(),
        )].age != entry.age,
    ensures
        stored_entry(slots, entry)[bucket(entry.key, slots.len())] == entry,
{
    lemma_bucket_in_range(entry.key, slots.len());
}

} // verus!
